//! Values that the server fills in: the time of the write, and increments of the
//! number that stands at the written path.
use crate::path;
use crate::path::{child_path_text, Path};
use crate::plain::numbers_equal;
use crate::plain;
use crate::shape;
use crate::shape::Shape;
use crate::text;
use crate::text::{concat3, decimal_text, same_text};
use crate::tree::Tree;
use crate::node::Node;
use crate::value;
use crate::value::{copy_members, copy_value, Json, Member, JsonValue};
use vstd::prelude::*;

verus! {

/// Where two whole numbers and their sum are at most this large, the sum is exact
/// whichever way it is taken.
pub const EXACT_WHOLE: i128 = 9_007_199_254_740_992;

/// Names the integer that `serde_json` holds a number as, if it holds it as one.
pub uninterp spec fn number_whole(n: serde_json::Number) -> Option<i128>;

/// `serde_json::Number::as_i128`: the integer that a number is held as; a number that is
/// held as a fraction is none.
#[verifier::external_body]
pub(crate) fn whole_of(n: &serde_json::Number) -> (r: Option<i128>)
    ensures
        r == number_whole(*n),
{
    n.as_i128()
}

/// Names the number that `serde_json` makes of an integer.
pub uninterp spec fn whole_number(i: i64) -> serde_json::Number;

/// `serde_json::Number::from` for an integer: the number reads as that integer again.
#[verifier::external_body]
pub(crate) fn number_from(i: i64) -> (r: serde_json::Number)
    ensures
        r == whole_number(i),
        number_whole(r) == Some(i as i128),
{
    serde_json::Number::from(i)
}

/// A sum that was worked out outside: of the number that stood at a path, if one did,
/// and an increment. There is no total where the increment cannot be added.
pub struct Sum {
    pub current: Option<serde_json::Number>,
    pub delta: serde_json::Number,
    pub total: Option<serde_json::Number>,
}

/// Why a server value was not filled in.
pub enum Complaint {
    /// An object that is no known server value.
    UnknownObject(Vec<Member>),
    /// Something else that is no known server value.
    Unknown(JsonValue),
    /// An increment by something that is no number.
    DeltaNotNumber(JsonValue),
    /// An increment that cannot be added.
    InvalidDelta,
    /// A sum that has to be worked out first.
    NeedsSum { current: Option<serde_json::Number>, delta: serde_json::Number },
}

/// Why a server value was not filled in, in terms of what the values mean.
pub ghost enum Trouble {
    UnknownObject(Seq<(Seq<char>, Json)>),
    Unknown(Json),
    DeltaNotNumber(Json),
    InvalidDelta,
    NeedsSum(Option<serde_json::Number>, serde_json::Number),
}

impl View for Complaint {
    type V = Trouble;

    open spec fn view(&self) -> Trouble {
        match *self {
            Complaint::UnknownObject(members) => Trouble::UnknownObject(
                value::members_json(members@),
            ),
            Complaint::Unknown(v) => Trouble::Unknown(v@),
            Complaint::DeltaNotNumber(v) => Trouble::DeltaNotNumber(v@),
            Complaint::InvalidDelta => Trouble::InvalidDelta,
            Complaint::NeedsSum { current, delta } => Trouble::NeedsSum(current, delta),
        }
    }
}

/// Whether a worked-out sum is the one of these operands.
pub open spec fn sum_fits(
    s: Sum,
    current: Option<serde_json::Number>,
    delta: serde_json::Number,
) -> bool {
    plain::number_same(s.delta, delta) && match (s.current, current) {
        (None, None) => true,
        (Some(a), Some(b)) => plain::number_same(a, b),
        _ => false,
    }
}

/// The first sum on a list that fits.
pub open spec fn looked_up(
    sums: Seq<Sum>,
    current: Option<serde_json::Number>,
    delta: serde_json::Number,
) -> Option<Sum>
    decreases sums.len(),
{
    if sums.len() == 0 {
        None
    } else if sum_fits(sums[0], current, delta) {
        Some(sums[0])
    } else {
        looked_up(sums.skip(1), current, delta)
    }
}

/// Whether an integer is small enough to be added here.
pub open spec fn is_exact(i: int) -> bool {
    -EXACT_WHOLE <= i <= EXACT_WHOLE
}

/// The number that stands at a path.
pub open spec fn number_at(t: Shape, at: Seq<char>) -> Option<serde_json::Number> {
    match shape::at(t, path::segments(at)) {
        Some(Shape::Number(n)) => Some(n),
        _ => None,
    }
}

/// The whole number that an increment starts from; nothing counts as zero.
pub open spec fn start_of(current: Option<serde_json::Number>) -> Option<i128> {
    match current {
        None => Some(0i128),
        Some(n) => number_whole(n),
    }
}

/// The outcome of an increment.
pub open spec fn incremented(
    current: Option<serde_json::Number>,
    delta: serde_json::Number,
    sums: Seq<Sum>,
) -> Result<Json, Trouble> {
    match (start_of(current), number_whole(delta)) {
        (Some(a), Some(b)) if is_exact(a as int) && is_exact(b as int) && is_exact(a + b) => Ok(
            Json::Number(whole_number((a + b) as i64)),
        ),
        _ => match looked_up(sums, current, delta) {
            None => Err(Trouble::NeedsSum(current, delta)),
            Some(s) => match s.total {
                Some(n) => Ok(Json::Number(n)),
                None => Err(Trouble::InvalidDelta),
            },
        },
    }
}

/// What a placeholder at a path stands for.
pub open spec fn filled(
    sv: Json,
    at: Seq<char>,
    t: Shape,
    now: i64,
    sums: Seq<Sum>,
) -> Result<Json, Trouble> {
    match sv {
        Json::String(s) if s == "timestamp"@ => Ok(Json::Number(whole_number(now))),
        Json::Object(members) => if members.len() == 1 && members[0].0 == "increment"@ {
            match members[0].1 {
                Json::Number(delta) => incremented(number_at(t, at), delta, sums),
                other => Err(Trouble::DeltaNotNumber(other)),
            }
        } else {
            Err(Trouble::UnknownObject(members))
        },
        other => Err(Trouble::Unknown(other)),
    }
}

/// Whether an object is a placeholder.
pub open spec fn is_placeholder(members: Seq<(Seq<char>, Json)>) -> bool {
    members.len() == 1 && members[0].0 == ".sv"@
}

/// A value written at a path, with its placeholders filled in.
pub open spec fn resolved(
    v: Json,
    at: Seq<char>,
    t: Shape,
    now: i64,
    sums: Seq<Sum>,
) -> Result<Json, Trouble>
    decreases v,
{
    match v {
        Json::Object(members) => if is_placeholder(members) {
            filled(members[0].1, at, t, now, sums)
        } else {
            match resolved_members(members, members.len() as int, at, t, now, sums) {
                Ok(ms) => Ok(Json::Object(ms)),
                Err(e) => Err(e),
            }
        },
        Json::Array(items) => match resolved_items(items, items.len() as int, at, t, now, sums) {
            Ok(xs) => Ok(Json::Array(xs)),
            Err(e) => Err(e),
        },
        leaf => Ok(leaf),
    }
}

/// The first `n` members of an object with their placeholders filled in.
pub open spec fn resolved_members(
    members: Seq<(Seq<char>, Json)>,
    n: int,
    at: Seq<char>,
    t: Shape,
    now: i64,
    sums: Seq<Sum>,
) -> Result<Seq<(Seq<char>, Json)>, Trouble>
    decreases members, n,
{
    if n <= 0 || n > members.len() {
        Ok(Seq::empty())
    } else {
        match resolved_members(members, n - 1, at, t, now, sums) {
            Err(e) => Err(e),
            Ok(done) => {
                let k = members[n - 1].0;
                match resolved(members[n - 1].1, path::child_path(at, k), t, now, sums) {
                    Ok(v) => Ok(done.push((k, v))),
                    Err(e) => Err(e),
                }
            },
        }
    }
}

/// The path text of an element of an array.
pub open spec fn element_path(at: Seq<char>, i: int) -> Seq<char> {
    at + "/"@ + text::decimal(i as nat)
}

/// The first `n` elements of an array with their placeholders filled in.
pub open spec fn resolved_items(
    items: Seq<Json>,
    n: int,
    at: Seq<char>,
    t: Shape,
    now: i64,
    sums: Seq<Sum>,
) -> Result<Seq<Json>, Trouble>
    decreases items, n,
{
    if n <= 0 || n > items.len() {
        Ok(Seq::empty())
    } else {
        match resolved_items(items, n - 1, at, t, now, sums) {
            Err(e) => Err(e),
            Ok(done) => match resolved(items[n - 1], element_path(at, n - 1), t, now, sums) {
                Ok(v) => Ok(done.push(v)),
                Err(e) => Err(e),
            },
        }
    }
}

/// Whether a value holds a placeholder.
pub open spec fn has_placeholder(v: Json) -> bool
    decreases v,
{
    match v {
        Json::Object(members) => is_placeholder(members) || members_have_placeholder(
            members,
            members.len() as int,
        ),
        Json::Array(items) => items_have_placeholder(items, items.len() as int),
        _ => false,
    }
}

/// Whether one of the first `n` members holds a placeholder.
pub open spec fn members_have_placeholder(members: Seq<(Seq<char>, Json)>, n: int) -> bool
    decreases members, n,
{
    0 < n <= members.len() && (members_have_placeholder(members, n - 1) || has_placeholder(
        members[n - 1].1,
    ))
}

/// Whether one of the first `n` elements holds a placeholder.
pub open spec fn items_have_placeholder(items: Seq<Json>, n: int) -> bool
    decreases items, n,
{
    0 < n <= items.len() && (items_have_placeholder(items, n - 1) || has_placeholder(items[n - 1]))
}

/// A value without placeholders is written as it is, whatever the tree holds.
pub proof fn law_plain_values_unchanged(
    v: Json,
    at: Seq<char>,
    t: Shape,
    now: i64,
    sums: Seq<Sum>,
)
    requires
        !has_placeholder(v),
    ensures
        resolved(v, at, t, now, sums) == Ok::<Json, Trouble>(v),
    decreases v, 1int,
{
    match v {
        Json::Object(members) => {
            lemma_members_unchanged(members, members.len() as int, at, t, now, sums);
            assert(members.take(members.len() as int) =~= members);
        },
        Json::Array(items) => {
            lemma_items_unchanged(items, items.len() as int, at, t, now, sums);
            assert(items.take(items.len() as int) =~= items);
        },
        _ => {},
    }
}

/// Members without placeholders stay as they are.
pub proof fn lemma_members_unchanged(
    members: Seq<(Seq<char>, Json)>,
    n: int,
    at: Seq<char>,
    t: Shape,
    now: i64,
    sums: Seq<Sum>,
)
    requires
        0 <= n <= members.len(),
        !members_have_placeholder(members, n),
    ensures
        resolved_members(members, n, at, t, now, sums) == Ok::<Seq<(Seq<char>, Json)>, Trouble>(
            members.take(n),
        ),
    decreases members, n,
{
    if n > 0 {
        lemma_members_unchanged(members, n - 1, at, t, now, sums);
        law_plain_values_unchanged(
            members[n - 1].1,
            path::child_path(at, members[n - 1].0),
            t,
            now,
            sums,
        );
        assert(members.take(n - 1).push(members[n - 1]) =~= members.take(n));
    } else {
        assert(members.take(0) =~= Seq::empty());
    }
}

/// Elements without placeholders stay as they are.
proof fn lemma_items_unchanged(
    items: Seq<Json>,
    n: int,
    at: Seq<char>,
    t: Shape,
    now: i64,
    sums: Seq<Sum>,
)
    requires
        0 <= n <= items.len(),
        !items_have_placeholder(items, n),
    ensures
        resolved_items(items, n, at, t, now, sums) == Ok::<Seq<Json>, Trouble>(items.take(n)),
    decreases items, n,
{
    if n > 0 {
        lemma_items_unchanged(items, n - 1, at, t, now, sums);
        law_plain_values_unchanged(items[n - 1], element_path(at, n - 1), t, now, sums);
        assert(items.take(n - 1).push(items[n - 1]) =~= items.take(n));
    } else {
        assert(items.take(0) =~= Seq::empty());
    }
}

/// An error among the first members is the error of all.
pub proof fn lemma_members_error(
    members: Seq<(Seq<char>, Json)>,
    n: int,
    m: int,
    at: Seq<char>,
    t: Shape,
    now: i64,
    sums: Seq<Sum>,
)
    requires
        0 <= n <= m <= members.len(),
        resolved_members(members, n, at, t, now, sums) is Err,
    ensures
        resolved_members(members, m, at, t, now, sums) == resolved_members(
            members,
            n,
            at,
            t,
            now,
            sums,
        ),
    decreases m,
{
    if n < m {
        lemma_members_error(members, n, m - 1, at, t, now, sums);
    }
}

/// An error among the first elements is the error of all.
proof fn lemma_items_error(
    items: Seq<Json>,
    n: int,
    m: int,
    at: Seq<char>,
    t: Shape,
    now: i64,
    sums: Seq<Sum>,
)
    requires
        0 <= n <= m <= items.len(),
        resolved_items(items, n, at, t, now, sums) is Err,
    ensures
        resolved_items(items, m, at, t, now, sums) == resolved_items(items, n, at, t, now, sums),
    decreases m,
{
    if n < m {
        lemma_items_error(items, n, m - 1, at, t, now, sums);
    }
}

/// Whether a value holds a placeholder.
pub fn holds_placeholder(v: &JsonValue) -> (r: bool)
    ensures
        r == has_placeholder(v@),
    decreases v, 0int,
{
    match v {
        JsonValue::Object(members) => {
            let ghost ms = value::members_json(members@);
            assert(v@ == Json::Object(ms));
            assert(members@.len() == 1 ==> ms[0] == (members@[0].key@, members@[0].value@));
            if members.len() == 1 && same_text(members[0].key.as_str(), ".sv") {
                return true;
            }
            assert(decreases_to!(*v => v->Object_0));
            assert(decreases_to!(v->Object_0 => v->Object_0@));
            members_hold_placeholder(members)
        },
        JsonValue::Array(items) => {
            let ghost js = value::items_json(items@);
            assert(v@ == Json::Array(js));
            let mut found = false;
            let mut i: usize = 0;
            while i < items.len()
                invariant
                    i <= items@.len(),
                    *v == JsonValue::Array(*items),
                    js == value::items_json(items@),
                    found == items_have_placeholder(js, i as int),
                decreases items@.len() - i,
            {
                let x = &items[i];
                assert(js[i as int] == x@);
                assert(decreases_to!(*v => v->Array_0));
                assert(decreases_to!(v->Array_0 => v->Array_0@));
                assert(decreases_to!(items@ => items@[i as int]));
                if holds_placeholder(x) {
                    found = true;
                }
                i = i + 1;
            }
            found
        },
        _ => false,
    }
}

/// Whether one of the members of an object holds a placeholder.
pub fn members_hold_placeholder(members: &Vec<Member>) -> (r: bool)
    ensures
        r == members_have_placeholder(value::members_json(members@), members@.len() as int),
    decreases members@, 1int,
{
    let ghost ms = value::members_json(members@);
    let mut found = false;
    let mut i: usize = 0;
    while i < members.len()
        invariant
            i <= members@.len(),
            ms == value::members_json(members@),
            found == members_have_placeholder(ms, i as int),
        decreases members@.len() - i,
    {
        let m = &members[i];
        assert(ms[i as int] == (m.key@, m.value@));
        assert(decreases_to!(members@ => members@[i as int]));
        assert(decreases_to!(members@[i as int] => members@[i as int].value));
        if holds_placeholder(&m.value) {
            found = true;
        }
        i = i + 1;
    }
    found
}

/// Fills in the placeholders of a value that is written at a path. The flag says
/// whether there were any.
pub fn process_server_values(
    v: &JsonValue,
    base_path: &str,
    tree: &Tree,
    now: i64,
    sums: &Vec<Sum>,
) -> (r: Result<(JsonValue, bool), Complaint>)
    ensures
        match r {
            Ok((out, modified)) => resolved(v@, base_path@, tree@, now, sums@) == Ok::<
                Json,
                Trouble,
            >(out@) && modified == has_placeholder(v@),
            Err(e) => resolved(v@, base_path@, tree@, now, sums@) == Err::<Json, Trouble>(e@),
        },
    decreases v,
{
    match v {
        JsonValue::Object(members) => {
            let ghost ms = value::members_json(members@);
            assert(v@ == Json::Object(ms));
            if members.len() == 1 && same_text(members[0].key.as_str(), ".sv") {
                assert(ms[0] == (members@[0].key@, members@[0].value@));
                return match resolve_server_value(&members[0].value, base_path, tree, now, sums) {
                    Ok(out) => Ok((out, true)),
                    Err(e) => Err(e),
                };
            }
            assert(!is_placeholder(ms)) by {
                if ms.len() == 1 {
                    assert(ms[0] == (members@[0].key@, members@[0].value@));
                }
            }
            let mut out: Vec<Member> = Vec::new();
            let mut modified = false;
            let mut i: usize = 0;
            assert(value::members_json(out@) =~= Seq::empty());
            while i < members.len()
                invariant
                    i <= members@.len(),
                    *v == JsonValue::Object(*members),
                    ms == value::members_json(members@),
                    v@ == Json::Object(ms),
                    !is_placeholder(ms),
                    resolved_members(ms, i as int, base_path@, tree@, now, sums@) == Ok::<
                        Seq<(Seq<char>, Json)>,
                        Trouble,
                    >(value::members_json(out@)),
                    modified == members_have_placeholder(ms, i as int),
                decreases members@.len() - i,
            {
                let m = &members[i];
                assert(ms[i as int] == (m.key@, m.value@));
                assert(decreases_to!(*v => v->Object_0));
                assert(decreases_to!(v->Object_0 => v->Object_0@));
                assert(decreases_to!(members@ => members@[i as int]));
                assert(decreases_to!(members@[i as int] => members@[i as int].value));
                let below = child_path_text(base_path, m.key.as_str());
                match process_server_values(&m.value, below.as_str(), tree, now, sums) {
                    Ok((x, changed)) => {
                        let ghost before = out@;
                        out.push(Member { key: m.key.clone(), value: x });
                        if changed {
                            modified = true;
                        }
                        assert(value::members_json(out@) =~= value::members_json(before).push(
                            (m.key@, x@),
                        ));
                    },
                    Err(e) => {
                        proof {
                            lemma_members_error(
                                ms,
                                i + 1,
                                ms.len() as int,
                                base_path@,
                                tree@,
                                now,
                                sums@,
                            );
                        }
                        return Err(e);
                    },
                }
                i = i + 1;
            }
            Ok((JsonValue::Object(out), modified))
        },
        JsonValue::Array(items) => {
            let ghost js = value::items_json(items@);
            assert(v@ == Json::Array(js));
            let mut out: Vec<JsonValue> = Vec::new();
            let mut modified = false;
            let mut i: usize = 0;
            assert(value::items_json(out@) =~= Seq::empty());
            while i < items.len()
                invariant
                    i <= items@.len(),
                    *v == JsonValue::Array(*items),
                    js == value::items_json(items@),
                    v@ == Json::Array(js),
                    resolved_items(js, i as int, base_path@, tree@, now, sums@) == Ok::<
                        Seq<Json>,
                        Trouble,
                    >(value::items_json(out@)),
                    modified == items_have_placeholder(js, i as int),
                decreases items@.len() - i,
            {
                let x = &items[i];
                assert(js[i as int] == x@);
                assert(decreases_to!(*v => v->Array_0));
                assert(decreases_to!(v->Array_0 => v->Array_0@));
                assert(decreases_to!(items@ => items@[i as int]));
                let number = decimal_text(i as u64);
                let below = concat3(base_path, "/", number.as_str());
                match process_server_values(x, below.as_str(), tree, now, sums) {
                    Ok((y, changed)) => {
                        let ghost before = out@;
                        out.push(y);
                        if changed {
                            modified = true;
                        }
                        assert(value::items_json(out@) =~= value::items_json(before).push(y@));
                    },
                    Err(e) => {
                        proof {
                            lemma_items_error(
                                js,
                                i + 1,
                                js.len() as int,
                                base_path@,
                                tree@,
                                now,
                                sums@,
                            );
                        }
                        return Err(e);
                    },
                }
                i = i + 1;
            }
            Ok((JsonValue::Array(out), modified))
        },
        other => Ok((copy_value(other), false)),
    }
}

/// Fills in one placeholder.
fn resolve_server_value(
    sv: &JsonValue,
    path: &str,
    tree: &Tree,
    now: i64,
    sums: &Vec<Sum>,
) -> (r: Result<JsonValue, Complaint>)
    ensures
        match r {
            Ok(out) => filled(sv@, path@, tree@, now, sums@) == Ok::<Json, Trouble>(out@),
            Err(e) => filled(sv@, path@, tree@, now, sums@) == Err::<Json, Trouble>(e@),
        },
{
    match sv {
        JsonValue::String(s) => {
            if same_text(s.as_str(), "timestamp") {
                Ok(JsonValue::Number(number_from(now)))
            } else {
                Err(Complaint::Unknown(copy_value(sv)))
            }
        },
        JsonValue::Object(members) => {
            let ghost ms = value::members_json(members@);
            if members.len() == 1 && same_text(members[0].key.as_str(), "increment") {
                assert(ms[0] == (members@[0].key@, members@[0].value@));
                return resolve_increment(&members[0].value, path, tree, sums);
            }
            assert(!(ms.len() == 1 && ms[0].0 == "increment"@)) by {
                if ms.len() == 1 {
                    assert(ms[0] == (members@[0].key@, members@[0].value@));
                }
            }
            Err(Complaint::UnknownObject(copy_members(members)))
        },
        other => Err(Complaint::Unknown(copy_value(other))),
    }
}

/// Adds an increment to the number at a path; anything else there counts as zero.
fn resolve_increment(delta: &JsonValue, path: &str, tree: &Tree, sums: &Vec<Sum>) -> (r: Result<
    JsonValue,
    Complaint,
>)
    ensures
        match delta@ {
            Json::Number(d) => {
                let wanted = incremented(number_at(tree@, path@), d, sums@);
                match r {
                    Ok(out) => wanted == Ok::<Json, Trouble>(out@),
                    Err(e) => wanted == Err::<Json, Trouble>(e@),
                }
            },
            other => r is Err && r->Err_0@ == Trouble::DeltaNotNumber(other),
        },
{
    let d = match delta {
        JsonValue::Number(n) => n,
        other => {
            return Err(Complaint::DeltaNotNumber(copy_value(other)));
        },
    };
    let parsed = Path::parse(path);
    let current: Option<serde_json::Number> = match tree.get(&parsed) {
        Some(Node::Number(n)) => Some(n.clone()),
        _ => None,
    };
    let start: Option<i128> = match &current {
        None => Some(0),
        Some(n) => whole_of(n),
    };
    let step: Option<i128> = whole_of(d);
    match (start, step) {
        (Some(a), Some(b)) => {
            if -EXACT_WHOLE <= a && a <= EXACT_WHOLE && -EXACT_WHOLE <= b && b <= EXACT_WHOLE {
                let total: i128 = a + b;
                if -EXACT_WHOLE <= total && total <= EXACT_WHOLE {
                    return Ok(JsonValue::Number(number_from(total as i64)));
                }
            }
        },
        _ => {},
    }
    let mut i: usize = 0;
    assert(sums@.skip(0) =~= sums@);
    while i < sums.len()
        invariant
            i <= sums@.len(),
            looked_up(sums@, current, *d) == looked_up(sums@.skip(i as int), current, *d),
            current == number_at(tree@, path@),
            delta@ == Json::Number(*d),
            incremented(current, *d, sums@) == (match looked_up(sums@, current, *d) {
                None => Err(Trouble::NeedsSum(current, *d)),
                Some(s) => match s.total {
                    Some(n) => Ok(Json::Number(n)),
                    None => Err(Trouble::InvalidDelta),
                },
            }),
        decreases sums@.len() - i,
    {
        let s = &sums[i];
        assert(sums@.skip(i as int)[0] == *s);
        assert(sums@.skip(i as int).skip(1) =~= sums@.skip(i + 1));
        let same_start = match (&s.current, &current) {
            (None, None) => true,
            (Some(a), Some(b)) => numbers_equal(a, b),
            _ => false,
        };
        if numbers_equal(&s.delta, d) && same_start {
            return match &s.total {
                Some(n) => Ok(JsonValue::Number(n.clone())),
                None => Err(Complaint::InvalidDelta),
            };
        }
        i = i + 1;
    }
    Err(Complaint::NeedsSum { current, delta: d.clone() })
}

/// What an incremented path holds: the number before, as a whole number, plus the
/// increment.
pub proof fn law_increment_adds(
    t: Shape,
    at: Seq<char>,
    delta: serde_json::Number,
    now: i64,
    sums: Seq<Sum>,
)
    requires
        start_of(number_at(t, at)) is Some,
        number_whole(delta) is Some,
        is_exact(start_of(number_at(t, at))->0 as int),
        is_exact(number_whole(delta)->0 as int),
        is_exact(start_of(number_at(t, at))->0 + number_whole(delta)->0),
    ensures
        resolved(
            Json::Object(
                seq![(".sv"@, Json::Object(seq![("increment"@, Json::Number(delta))]))],
            ),
            at,
            t,
            now,
            sums,
        ) == Ok::<Json, Trouble>(
            Json::Number(
                whole_number((start_of(number_at(t, at))->0 + number_whole(delta)->0) as i64),
            ),
        ),
{
    let inner = seq![("increment"@, Json::Number(delta))];
    let outer = seq![(".sv"@, Json::Object(inner))];
    assert(outer[0].1 == Json::Object(inner));
    assert(inner[0].1 == Json::Number(delta));
}

/// A server timestamp is the time at which it is filled in, to the millisecond, wherever it
/// is written.
pub proof fn law_timestamp_is_the_time(at: Seq<char>, t: Shape, now: i64, sums: Seq<Sum>)
    ensures
        resolved(
            Json::Object(seq![(".sv"@, Json::String("timestamp"@))]),
            at,
            t,
            now,
            sums,
        ) == Ok::<Json, Trouble>(Json::Number(whole_number(now))),
{
    let outer = seq![(".sv"@, Json::String("timestamp"@))];
    assert(outer[0].1 == Json::String("timestamp"@));
}

/// An increment is added to the number that stands at its path; where no number stands, it
/// is counted from zero. Whole numbers up to two to the power of 53 are added exactly.
pub proof fn law_increment_counts_from_what_is_there(
    t: Shape,
    at: Seq<char>,
    a: int,
    b: int,
    delta: serde_json::Number,
    now: i64,
    sums: Seq<Sum>,
)
    requires
        match shape::at(t, path::segments(at)) {
            Some(Shape::Number(n)) => number_whole(n) is Some && number_whole(n)->0 == a,
            _ => a == 0,
        },
        number_whole(delta) is Some,
        number_whole(delta)->0 == b,
        -9007199254740992 <= a <= 9007199254740992,
        -9007199254740992 <= b <= 9007199254740992,
        -9007199254740992 <= a + b <= 9007199254740992,
    ensures
        resolved(
            Json::Object(
                seq![(".sv"@, Json::Object(seq![("increment"@, Json::Number(delta))]))],
            ),
            at,
            t,
            now,
            sums,
        ) == Ok::<Json, Trouble>(Json::Number(whole_number((a + b) as i64))),
{
    let inner = seq![("increment"@, Json::Number(delta))];
    let outer = seq![(".sv"@, Json::Object(inner))];
    assert(outer[0].1 == Json::Object(inner));
    assert(inner[0].1 == Json::Number(delta));
}

/// The sum that was looked up is one of the listed sums, of these two numbers; where none is
/// found, none is listed.
proof fn lemma_looked_up(
    sums: Seq<Sum>,
    current: Option<serde_json::Number>,
    delta: serde_json::Number,
)
    ensures
        match looked_up(sums, current, delta) {
            Some(s) => sums.contains(s) && plain::number_same(s.delta, delta) && (s.current is None
                <==> current is None) && (current matches Some(c) ==> plain::number_same(
                s.current->0,
                c,
            )),
            None => forall|i: int|
                0 <= i < sums.len() ==> !sum_fits(#[trigger] sums[i], current, delta),
        },
    decreases sums.len(),
{
    if sums.len() > 0 {
        let rest = sums.skip(1);
        if sum_fits(sums[0], current, delta) {
            assert(sums.contains(sums[0]));
        } else {
            lemma_looked_up(rest, current, delta);
            match looked_up(rest, current, delta) {
                Some(s) => {
                    let i = choose|i: int| 0 <= i < rest.len() && rest[i] == s;
                    assert(sums[i + 1] == s);
                },
                None => {
                    assert forall|i: int| 0 <= i < sums.len() implies !sum_fits(
                        #[trigger] sums[i],
                        current,
                        delta,
                    ) by {
                        if i > 0 {
                            assert(rest[i - 1] == sums[i]);
                        }
                    }
                },
            }
        }
    }
}

/// An increment never invents a number: it gives the sum of two whole numbers, or one of the
/// listed sums for what stands at the path and this very increment, and else it asks for
/// that sum.
pub proof fn law_increment_invents_no_number(
    t: Shape,
    at: Seq<char>,
    delta: serde_json::Number,
    now: i64,
    sums: Seq<Sum>,
)
    ensures
        ({
            let r = resolved(
                Json::Object(
                    seq![(".sv"@, Json::Object(seq![("increment"@, Json::Number(delta))]))],
                ),
                at,
                t,
                now,
                sums,
            );
            let current = match shape::at(t, path::segments(at)) {
                Some(Shape::Number(n)) => Some(n),
                _ => None,
            };
            match r {
                Ok(v) => v is Number && ((exists|i: int|
                    0 <= i < sums.len() && (#[trigger] sums[i]).total == Some(v->Number_0)
                        && plain::number_same(sums[i].delta, delta)) || (exists|x: i64|
                    v->Number_0 == #[trigger] whole_number(x))),
                Err(Trouble::NeedsSum(c, d)) => c == current && d == delta,
                Err(e) => e is InvalidDelta && exists|i: int|
                    0 <= i < sums.len() && (#[trigger] sums[i]).total is None
                        && plain::number_same(sums[i].delta, delta),
            }
        }),
{
    let inner = seq![("increment"@, Json::Number(delta))];
    let outer = seq![(".sv"@, Json::Object(inner))];
    assert(outer[0].1 == Json::Object(inner));
    assert(inner[0].1 == Json::Number(delta));
    let current = number_at(t, at);
    lemma_looked_up(sums, current, delta);
    match looked_up(sums, current, delta) {
        Some(s) => {
            let i = choose|i: int| 0 <= i < sums.len() && sums[i] == s;
            assert(sums[i].total == s.total);
        },
        None => {},
    }
}

/// A server value of no known kind, and an increment by something else than a number, are
/// refused.
pub proof fn law_unknown_server_values_are_refused(
    sv: Json,
    at: Seq<char>,
    t: Shape,
    now: i64,
    sums: Seq<Sum>,
)
    requires
        sv != Json::String("timestamp"@),
        !(sv matches Json::Object(m) && m.len() == 1 && m[0].0 == "increment"@
            && m[0].1 is Number),
    ensures
        resolved(Json::Object(seq![(".sv"@, sv)]), at, t, now, sums) is Err,
        !(resolved(Json::Object(seq![(".sv"@, sv)]), at, t, now, sums)->Err_0 is NeedsSum),
{
    let outer = seq![(".sv"@, sv)];
    assert(outer[0].1 == sv);
}

/// Members are filled in one by one, in order, each at its own path.
proof fn lemma_members_filled(
    members: Seq<(Seq<char>, Json)>,
    n: int,
    at: Seq<char>,
    t: Shape,
    now: i64,
    sums: Seq<Sum>,
)
    requires
        0 <= n <= members.len(),
    ensures
        match resolved_members(members, n, at, t, now, sums) {
            Ok(done) => done.len() == n && forall|i: int|
                0 <= i < n ==> (#[trigger] done[i]).0 == members[i].0 && resolved(
                    members[i].1,
                    path::child_path(at, members[i].0),
                    t,
                    now,
                    sums,
                ) == Ok::<Json, Trouble>(done[i].1),
            Err(e) => exists|i: int|
                0 <= i < n && resolved(
                    (#[trigger] members[i]).1,
                    path::child_path(at, members[i].0),
                    t,
                    now,
                    sums,
                ) == Err::<Json, Trouble>(e),
        },
    decreases n,
{
    if n > 0 {
        lemma_members_filled(members, n - 1, at, t, now, sums);
        let last = members[n - 1];
        match resolved_members(members, n - 1, at, t, now, sums) {
            Err(e) => {
                let i = choose|i: int|
                    0 <= i < n - 1 && resolved(
                        (#[trigger] members[i]).1,
                        path::child_path(at, members[i].0),
                        t,
                        now,
                        sums,
                    ) == Err::<Json, Trouble>(e);
                assert(members[i] == members[i]);
            },
            Ok(done) => {
                assert(members[n - 1] == last);
            },
        }
    }
}

/// Elements are filled in one by one, in order, each at its own path.
proof fn lemma_items_filled(
    items: Seq<Json>,
    n: int,
    at: Seq<char>,
    t: Shape,
    now: i64,
    sums: Seq<Sum>,
)
    requires
        0 <= n <= items.len(),
    ensures
        match resolved_items(items, n, at, t, now, sums) {
            Ok(done) => done.len() == n && forall|i: int|
                0 <= i < n ==> resolved(items[i], element_path(at, i), t, now, sums) == Ok::<
                    Json,
                    Trouble,
                >(#[trigger] done[i]),
            Err(e) => exists|i: int|
                0 <= i < n && resolved(#[trigger] items[i], element_path(at, i), t, now, sums)
                    == Err::<Json, Trouble>(e),
        },
    decreases n,
{
    if n > 0 {
        lemma_items_filled(items, n - 1, at, t, now, sums);
        match resolved_items(items, n - 1, at, t, now, sums) {
            Err(e) => {
                let i = choose|i: int|
                    0 <= i < n - 1 && resolved(
                        #[trigger] items[i],
                        element_path(at, i),
                        t,
                        now,
                        sums,
                    ) == Err::<Json, Trouble>(e);
                assert(items[i] == items[i]);
            },
            Ok(done) => {
                assert(items[n - 1] == items[n - 1]);
            },
        }
    }
}

/// Filling in an object keeps its keys and their order, and fills in each member at the path
/// of its key; it fails only where a member fails.
pub proof fn law_objects_are_filled_by_member(
    members: Seq<(Seq<char>, Json)>,
    at: Seq<char>,
    t: Shape,
    now: i64,
    sums: Seq<Sum>,
)
    requires
        !(members.len() == 1 && members[0].0 == ".sv"@),
    ensures
        match resolved(Json::Object(members), at, t, now, sums) {
            Ok(v) => v matches Json::Object(done) && done.len() == members.len() && forall|i: int|
                0 <= i < members.len() ==> (#[trigger] done[i]).0 == members[i].0 && resolved(
                    members[i].1,
                    path::child_path(at, members[i].0),
                    t,
                    now,
                    sums,
                ) == Ok::<Json, Trouble>(done[i].1),
            Err(e) => exists|i: int|
                0 <= i < members.len() && resolved(
                    (#[trigger] members[i]).1,
                    path::child_path(at, members[i].0),
                    t,
                    now,
                    sums,
                ) == Err::<Json, Trouble>(e),
        },
{
    lemma_members_filled(members, members.len() as int, at, t, now, sums);
}

/// Filling in an array keeps its length, and fills in each element at the path of its
/// position; it fails only where an element fails. Scalars stay as they are.
pub proof fn law_arrays_are_filled_by_element(
    v: Json,
    at: Seq<char>,
    t: Shape,
    now: i64,
    sums: Seq<Sum>,
)
    ensures
        match v {
            Json::Array(items) => match resolved(v, at, t, now, sums) {
                Ok(r) => r matches Json::Array(done) && done.len() == items.len() && forall|i: int|
                    0 <= i < items.len() ==> resolved(
                        items[i],
                        at + "/"@ + text::decimal(i as nat),
                        t,
                        now,
                        sums,
                    ) == Ok::<Json, Trouble>(#[trigger] done[i]),
                Err(e) => exists|i: int|
                    0 <= i < items.len() && resolved(
                        #[trigger] items[i],
                        at + "/"@ + text::decimal(i as nat),
                        t,
                        now,
                        sums,
                    ) == Err::<Json, Trouble>(e),
            },
            Json::Object(_) => true,
            _ => resolved(v, at, t, now, sums) == Ok::<Json, Trouble>(v),
        },
{
    if let Json::Array(items) = v {
        lemma_items_filled(items, items.len() as int, at, t, now, sums);
        match resolved(v, at, t, now, sums) {
            Ok(r) => {},
            Err(e) => {
                let i = choose|i: int|
                    0 <= i < items.len() && resolved(
                        #[trigger] items[i],
                        element_path(at, i),
                        t,
                        now,
                        sums,
                    ) == Err::<Json, Trouble>(e);
                assert(items[i] == items[i]);
            },
        }
    }
}

/// A placeholder is an object whose only key is `.sv`; a value has one exactly if it is one,
/// or one of its members or elements has one.
pub proof fn law_placeholders_are_found(v: Json)
    ensures
        match v {
            Json::Object(members) => has_placeholder(v) <==> (members.len() == 1 && members[0].0
                == ".sv"@) || exists|i: int|
                0 <= i < members.len() && has_placeholder((#[trigger] members[i]).1),
            Json::Array(items) => has_placeholder(v) <==> exists|i: int|
                0 <= i < items.len() && has_placeholder(#[trigger] items[i]),
            _ => !has_placeholder(v),
        },
{
    match v {
        Json::Object(members) => lemma_members_placeholder(members, members.len() as int),
        Json::Array(items) => lemma_items_placeholder(items, items.len() as int),
        _ => {},
    }
}

/// Some member among the first has a placeholder.
proof fn lemma_members_placeholder(members: Seq<(Seq<char>, Json)>, n: int)
    requires
        0 <= n <= members.len(),
    ensures
        members_have_placeholder(members, n) <==> exists|i: int|
            0 <= i < n && has_placeholder((#[trigger] members[i]).1),
    decreases n,
{
    if n > 0 {
        lemma_members_placeholder(members, n - 1);
        if has_placeholder(members[n - 1].1) {
            assert(members[n - 1] == members[n - 1]);
        }
    }
}

/// Some element among the first has a placeholder.
proof fn lemma_items_placeholder(items: Seq<Json>, n: int)
    requires
        0 <= n <= items.len(),
    ensures
        items_have_placeholder(items, n) <==> exists|i: int|
            0 <= i < n && has_placeholder(#[trigger] items[i]),
    decreases n,
{
    if n > 0 {
        lemma_items_placeholder(items, n - 1);
        if has_placeholder(items[n - 1]) {
            assert(items[n - 1] == items[n - 1]);
        }
    }
}

/// Where the numbers are not whole, or too large to be added exactly, only a sum that was
/// computed for these very numbers is taken, the first that fits.
pub proof fn law_inexact_sums_are_looked_up(
    current: Option<serde_json::Number>,
    delta: serde_json::Number,
    sums: Seq<Sum>,
    i: int,
)
    requires
        ({
            let a = match current {
                Some(n) => number_whole(n),
                None => Some(0i128),
            };
            let b = number_whole(delta);
            a is None || b is None || !(-9007199254740992 <= a->0 <= 9007199254740992) || !(
            -9007199254740992 <= b->0 <= 9007199254740992) || !(-9007199254740992 <= a->0 + b->0
                <= 9007199254740992)
        }),
    ensures
        (forall|j: int| 0 <= j < sums.len() ==> !sum_fits(#[trigger] sums[j], current, delta))
            ==> incremented(current, delta, sums) == Err::<Json, Trouble>(
            Trouble::NeedsSum(current, delta),
        ),
        0 <= i < sums.len() && sum_fits(sums[i], current, delta) && (forall|j: int|
            0 <= j < i ==> !sum_fits(#[trigger] sums[j], current, delta)) ==> incremented(
            current,
            delta,
            sums,
        ) == match sums[i].total {
            Some(n) => Ok::<Json, Trouble>(Json::Number(n)),
            None => Err(Trouble::InvalidDelta),
        },
{
    lemma_looked_up(sums, current, delta);
    if looked_up(sums, current, delta) is Some {
        let s = looked_up(sums, current, delta)->0;
        lemma_first_fitting(sums, current, delta, i);
        if forall|j: int| 0 <= j < sums.len() ==> !sum_fits(#[trigger] sums[j], current, delta) {
            let j = choose|j: int| 0 <= j < sums.len() && sums[j] == s;
            assert(sum_fits(sums[j], current, delta));
        }
    }
}

/// The first sum that fits is found.
proof fn lemma_first_fitting(
    sums: Seq<Sum>,
    current: Option<serde_json::Number>,
    delta: serde_json::Number,
    i: int,
)
    ensures
        0 <= i < sums.len() && sum_fits(sums[i], current, delta) && (forall|j: int|
            0 <= j < i ==> !sum_fits(#[trigger] sums[j], current, delta)) ==> looked_up(
            sums,
            current,
            delta,
        ) == Some(sums[i]),
    decreases sums.len(),
{
    if sums.len() > 0 && 0 < i < sums.len() {
        let rest = sums.skip(1);
        lemma_first_fitting(rest, current, delta, i - 1);
        assert(rest[i - 1] == sums[i]);
        assert(sums[0] == sums[0]);
        if forall|j: int| 0 <= j < i ==> !sum_fits(#[trigger] sums[j], current, delta) {
            assert forall|j: int| 0 <= j < i - 1 implies !sum_fits(
                #[trigger] rest[j],
                current,
                delta,
            ) by {
                assert(rest[j] == sums[j + 1]);
            }
        }
    }
}

} // verus!
