//! JSON values as they travel over the wire and into the log, with the checks and
//! measures that apply to written values.
use crate::path;
use crate::path::{bytes_in, child_path_text, validate_key, KeyError};
use crate::shape;
use crate::shape::Shape;
use crate::text;
use crate::text::{concat3, join_texts, same_text};
use vstd::prelude::*;
use vstd::string::*;

verus! {

broadcast use vstd::string::group_string_axioms;

/// `serde_json::Number`: a JSON number of any size, carried through unread.
#[verifier::external_type_specification]
#[verifier::external_body]
pub struct ExNumber(serde_json::Number);

/// A clone of a `serde_json::Number` is the same number.
pub assume_specification[ <serde_json::Number as Clone>::clone ](n: &serde_json::Number) -> (r:
    serde_json::Number)
    ensures
        r == *n,
;

/// A JSON value. Objects list their members in order.
pub enum JsonValue {
    Null,
    Bool(bool),
    Number(serde_json::Number),
    String(String),
    Array(Vec<JsonValue>),
    Object(Vec<Member>),
}

/// One member of an object.
pub struct Member {
    pub key: String,
    pub value: JsonValue,
}

/// What a `JsonValue` means: the same tree over mathematical sequences.
pub ghost enum Json {
    Null,
    Bool(bool),
    Number(serde_json::Number),
    String(Seq<char>),
    Array(Seq<Json>),
    Object(Seq<(Seq<char>, Json)>),
}

impl JsonValue {
    /// The meaning of this value.
    pub open spec fn json(self) -> Json
        decreases self,
    {
        match self {
            JsonValue::Null => Json::Null,
            JsonValue::Bool(b) => Json::Bool(b),
            JsonValue::Number(n) => Json::Number(n),
            JsonValue::String(s) => Json::String(s@),
            JsonValue::Array(items) => Json::Array(items_json(items@)),
            JsonValue::Object(members) => Json::Object(members_json(members@)),
        }
    }
}

/// The meanings of the elements of an array.
pub open spec fn items_json(items: Seq<JsonValue>) -> Seq<Json>
    decreases items,
{
    Seq::new(items.len(), |i: int| if 0 <= i < items.len() { items[i].json() } else { Json::Null })
}

/// The meanings of the members of an object.
pub open spec fn members_json(members: Seq<Member>) -> Seq<(Seq<char>, Json)>
    decreases members,
{
    Seq::new(
        members.len(),
        |i: int|
            if 0 <= i < members.len() {
                (members[i].key@, members[i].value.json())
            } else {
                (Seq::empty(), Json::Null)
            },
    )
}

impl View for JsonValue {
    type V = Json;

    open spec fn view(&self) -> Json {
        self.json()
    }
}

/// The meaning of an optional value.
pub open spec fn opt_json(v: Option<JsonValue>) -> Option<Json> {
    match v {
        Some(x) => Some(x@),
        None => None,
    }
}

/// `n` where it fits a machine integer, else the largest one.
pub open spec fn held(n: nat) -> usize {
    if n <= usize::MAX {
        n as usize
    } else {
        usize::MAX
    }
}

/// Nesting depth of a value: a scalar is 0, a container one more than its deepest part.
pub open spec fn depth(v: Json) -> nat
    decreases v,
{
    match v {
        Json::Array(items) => 1 + max_depth(items, items.len() as int),
        Json::Object(members) => 1 + max_member_depth(members, members.len() as int),
        _ => 0,
    }
}

/// Greatest depth among the first `n` elements.
pub open spec fn max_depth(items: Seq<Json>, n: int) -> nat
    decreases items, n,
{
    if n <= 0 || n > items.len() {
        0
    } else {
        let a = max_depth(items, n - 1);
        let b = depth(items[n - 1]);
        if a < b {
            b
        } else {
            a
        }
    }
}

/// Greatest depth among the first `n` members.
pub open spec fn max_member_depth(members: Seq<(Seq<char>, Json)>, n: int) -> nat
    decreases members, n,
{
    if n <= 0 || n > members.len() {
        0
    } else {
        let a = max_member_depth(members, n - 1);
        let b = depth(members[n - 1].1);
        if a < b {
            b
        } else {
            a
        }
    }
}

/// Rough size of a value in bytes.
pub open spec fn weight(v: Json) -> nat
    decreases v,
{
    match v {
        Json::Null => 4,
        Json::Bool(_) => 4,
        Json::Number(_) => 8,
        Json::String(s) => text::byte_len(s),
        Json::Array(items) => 8 + items_weight(items, items.len() as int),
        Json::Object(members) => 8 + members_weight(members, members.len() as int),
    }
}

/// Rough size of the first `n` elements.
pub open spec fn items_weight(items: Seq<Json>, n: int) -> nat
    decreases items, n,
{
    if n <= 0 || n > items.len() {
        0
    } else {
        items_weight(items, n - 1) + weight(items[n - 1])
    }
}

/// Rough size of the first `n` members, keys counted.
pub open spec fn members_weight(members: Seq<(Seq<char>, Json)>, n: int) -> nat
    decreases members, n,
{
    if n <= 0 || n > members.len() {
        0
    } else {
        members_weight(members, n - 1) + text::byte_len(members[n - 1].0) + weight(
            members[n - 1].1,
        )
    }
}

/// Whether every object key in a value keeps the key rules.
pub open spec fn keys_valid(v: Json) -> bool
    decreases v,
{
    match v {
        Json::Array(items) => items_keys_valid(items, items.len() as int),
        Json::Object(members) => members_keys_valid(members, members.len() as int),
        _ => true,
    }
}

/// Whether every object key in the first `n` elements keeps the key rules.
pub open spec fn items_keys_valid(items: Seq<Json>, n: int) -> bool
    decreases items, n,
{
    n <= 0 || n > items.len() || (items_keys_valid(items, n - 1) && keys_valid(items[n - 1]))
}

/// Whether the first `n` members have valid keys, and valid keys below.
pub open spec fn members_keys_valid(members: Seq<(Seq<char>, Json)>, n: int) -> bool
    decreases members, n,
{
    n <= 0 || n > members.len() || (members_keys_valid(members, n - 1) && path::valid_key(
        members[n - 1].0,
    ) && keys_valid(members[n - 1].1))
}

/// One bad element spoils the array.
pub proof fn lemma_items_keys(items: Seq<Json>, n: int, m: int)
    requires
        n <= m <= items.len(),
        !items_keys_valid(items, n),
    ensures
        !items_keys_valid(items, m),
    decreases m,
{
    if n < m {
        lemma_items_keys(items, n, m - 1);
    }
}

/// One bad member spoils the object.
pub proof fn lemma_members_keys(members: Seq<(Seq<char>, Json)>, n: int, m: int)
    requires
        n <= m <= members.len(),
        !members_keys_valid(members, n),
    ensures
        !members_keys_valid(members, m),
    decreases m,
{
    if n < m {
        lemma_members_keys(members, n, m - 1);
    }
}

/// Whether an object has a member with the key.
pub open spec fn has_key(members: Seq<(Seq<char>, Json)>, k: Seq<char>) -> bool {
    exists|i: int| 0 <= i < members.len() && (#[trigger] members[i]).0 == k
}

/// The keys among the first `n` members that may not stand beside `.value`.
pub open spec fn strangers(members: Seq<(Seq<char>, Json)>, n: int) -> Seq<Seq<char>>
    decreases n,
{
    if n <= 0 || n > members.len() {
        Seq::empty()
    } else {
        let k = members[n - 1].0;
        if k == ".value"@ || k == ".priority"@ {
            strangers(members, n - 1)
        } else {
            strangers(members, n - 1).push(k)
        }
    }
}

/// The complaint about keys beside `.value` at a path.
pub open spec fn priority_complaint(at: Seq<char>, others: Seq<Seq<char>>) -> Seq<char> {
    "Data at "@ + at + " contains \".value\" alongside other children ("@ + text::join(
        others,
        ", "@,
    ) + "). \".value\" can only be used with \".priority\" for primitives with priority"@
}

/// The first complaint about `.value` patterns in a value, if any.
pub open spec fn priority_error(v: Json, at: Seq<char>) -> Option<Seq<char>>
    decreases v,
{
    match v {
        Json::Object(members) => if has_key(members, ".value"@) && strangers(
            members,
            members.len() as int,
        ).len() > 0 {
            Some(priority_complaint(at, strangers(members, members.len() as int)))
        } else {
            members_priority_error(members, members.len() as int, at)
        },
        _ => None,
    }
}

/// The first complaint among the first `n` members.
pub open spec fn members_priority_error(
    members: Seq<(Seq<char>, Json)>,
    n: int,
    at: Seq<char>,
) -> Option<Seq<char>>
    decreases members, n,
{
    if n <= 0 || n > members.len() {
        None
    } else {
        match members_priority_error(members, n - 1, at) {
            Some(e) => Some(e),
            None => priority_error(members[n - 1].1, path::child_path(at, members[n - 1].0)),
        }
    }
}

/// The first complaint is the complaint about all.
pub proof fn lemma_members_priority(
    members: Seq<(Seq<char>, Json)>,
    n: int,
    m: int,
    at: Seq<char>,
)
    requires
        n <= m <= members.len(),
        members_priority_error(members, n, at) is Some,
    ensures
        members_priority_error(members, m, at) == members_priority_error(members, n, at),
    decreases m,
{
    if n < m {
        lemma_members_priority(members, n, m - 1, at);
    }
}

/// The tree node that a written value stands for: null members are left out.
pub open spec fn cleaned(v: Json) -> Shape
    decreases v,
{
    match v {
        Json::Null => Shape::Null,
        Json::Bool(b) => Shape::Bool(b),
        Json::Number(n) => Shape::Number(n),
        Json::String(s) => Shape::String(s),
        Json::Array(items) => Shape::Array(items),
        Json::Object(members) => Shape::Object(cleaned_members(members, members.len() as int)),
    }
}

/// The children that the first `n` members stand for.
pub open spec fn cleaned_members(
    members: Seq<(Seq<char>, Json)>,
    n: int,
) -> Map<Seq<char>, Shape>
    decreases members, n,
{
    if n <= 0 || n > members.len() {
        Map::empty()
    } else {
        let m = cleaned_members(members, n - 1);
        let c = cleaned(members[n - 1].1);
        if c is Null {
            m
        } else {
            m.insert(members[n - 1].0, c)
        }
    }
}

/// A child of a cleaned object is a cleaned member.
pub proof fn lemma_cleaned_kid(members: Seq<(Seq<char>, Json)>, n: int, k: Seq<char>) -> (i: int)
    requires
        cleaned_members(members, n).contains_key(k),
    ensures
        0 <= i < members.len(),
        members[i].0 == k,
        cleaned_members(members, n)[k] == cleaned(members[i].1),
    decreases n,
{
    let c = cleaned(members[n - 1].1);
    if !(c is Null) && members[n - 1].0 == k {
        n - 1
    } else {
        lemma_cleaned_kid(members, n - 1, k)
    }
}

/// A written value leaves no sentinel.
pub proof fn lemma_cleaned_loaded_at(v: Json, p: Seq<Seq<char>>)
    ensures
        shape::at(cleaned(v), p) is Some ==> !(shape::at(cleaned(v), p)->0 is Sentinel),
    decreases p.len(),
{
    if p.len() > 0 && shape::kids(cleaned(v)).contains_key(p[0]) {
        let members = v->Object_0;
        let i = lemma_cleaned_kid(members, members.len() as int, p[0]);
        lemma_cleaned_loaded_at(members[i].1, p.drop_first());
    }
}

/// A written value leaves no sentinel.
pub proof fn lemma_cleaned_loaded(v: Json)
    ensures
        shape::fully_loaded(cleaned(v)),
{
    assert forall|p: Seq<Seq<char>>| (#[trigger] shape::at(cleaned(v), p)) is Some implies !(
    shape::at(cleaned(v), p)->0 is Sentinel) by {
        lemma_cleaned_loaded_at(v, p);
    }
}

/// Nesting depth of a value, held at the largest machine integer.
pub fn json_value_depth(value: &JsonValue) -> (r: usize)
    ensures
        r == held(depth(value@)),
    decreases value,
{
    match value {
        JsonValue::Array(items) => {
            let mut best: usize = 0;
            let mut i: usize = 0;
            while i < items.len()
                invariant
                    i <= items@.len(),
                    *value == JsonValue::Array(*items),
                    best == held(max_depth(items_json(items@), i as int)),
                decreases items@.len() - i,
            {
                assert(decreases_to!(*value => value->Array_0));
                let d = json_value_depth(&items[i]);
                if best < d {
                    best = d;
                }
                i = i + 1;
            }
            best.saturating_add(1)
        },
        JsonValue::Object(members) => {
            let mut best: usize = 0;
            let mut i: usize = 0;
            while i < members.len()
                invariant
                    i <= members@.len(),
                    *value == JsonValue::Object(*members),
                    best == held(max_member_depth(members_json(members@), i as int)),
                decreases members@.len() - i,
            {
                assert(decreases_to!(*value => value->Object_0));
                let d = json_value_depth(&members[i].value);
                if best < d {
                    best = d;
                }
                i = i + 1;
            }
            best.saturating_add(1)
        },
        _ => 0,
    }
}

/// Rough size of a value in bytes, held at the largest machine integer.
pub fn estimate_value_bytes(value: &JsonValue) -> (r: usize)
    ensures
        r == held(weight(value@)),
    decreases value,
{
    match value {
        JsonValue::Null => 4,
        JsonValue::Bool(_) => 4,
        JsonValue::Number(_) => 8,
        JsonValue::String(s) => bytes_in(s.as_str()),
        JsonValue::Array(items) => {
            let mut sum: usize = 0;
            let mut i: usize = 0;
            while i < items.len()
                invariant
                    i <= items@.len(),
                    *value == JsonValue::Array(*items),
                    sum == held(items_weight(items_json(items@), i as int)),
                decreases items@.len() - i,
            {
                assert(decreases_to!(*value => value->Array_0));
                sum = sum.saturating_add(estimate_value_bytes(&items[i]));
                i = i + 1;
            }
            sum.saturating_add(8)
        },
        JsonValue::Object(members) => {
            let mut sum: usize = 0;
            let mut i: usize = 0;
            while i < members.len()
                invariant
                    i <= members@.len(),
                    *value == JsonValue::Object(*members),
                    sum == held(members_weight(members_json(members@), i as int)),
                decreases members@.len() - i,
            {
                assert(decreases_to!(*value => value->Object_0));
                let k = bytes_in(members[i].key.as_str());
                sum = sum.saturating_add(k).saturating_add(estimate_value_bytes(&members[i].value));
                i = i + 1;
            }
            sum.saturating_add(8)
        },
    }
}

/// Checks every object key in a written value against the key rules.
pub fn validate_value_keys(value: &JsonValue) -> (r: Result<(), KeyError>)
    ensures
        r is Ok <==> keys_valid(value@),
    decreases value,
{
    match value {
        JsonValue::Object(members) => {
            let mut i: usize = 0;
            let ghost ms = members_json(members@);
            while i < members.len()
                invariant
                    i <= members@.len(),
                    *value == JsonValue::Object(*members),
                    ms == members_json(members@),
                    value@ == Json::Object(ms),
                    members_keys_valid(ms, i as int),
                decreases members@.len() - i,
            {
                assert(decreases_to!(*value => value->Object_0));
                assert(ms[i as int].0 == members@[i as int].key@);
                let key_check = validate_key(members[i].key.as_str());
                let below_check = validate_value_keys(&members[i].value);
                if key_check.is_err() || below_check.is_err() {
                    proof {
                        lemma_members_keys(ms, i + 1, ms.len() as int);
                    }
                    return Err(KeyError);
                }
                i = i + 1;
            }
            Ok(())
        },
        JsonValue::Array(items) => {
            let mut i: usize = 0;
            let ghost js = items_json(items@);
            while i < items.len()
                invariant
                    i <= items@.len(),
                    *value == JsonValue::Array(*items),
                    js == items_json(items@),
                    value@ == Json::Array(js),
                    items_keys_valid(js, i as int),
                decreases items@.len() - i,
            {
                assert(decreases_to!(*value => value->Array_0));
                let below_check = validate_value_keys(&items[i]);
                if below_check.is_err() {
                    proof {
                        lemma_items_keys(js, i + 1, js.len() as int);
                    }
                    return Err(KeyError);
                }
                i = i + 1;
            }
            Ok(())
        },
        _ => Ok(()),
    }
}

/// Checks `.value` patterns: beside `.value` only `.priority` may stand.
pub fn validate_value_priority(value: &JsonValue, path: &str) -> (r: Result<(), String>)
    ensures
        match r {
            Ok(_) => priority_error(value@, path@) is None,
            Err(e) => priority_error(value@, path@) == Some(e@),
        },
    decreases value,
{
    let members = match value {
        JsonValue::Object(members) => members,
        _ => {
            return Ok(());
        },
    };
    let ghost ms = members_json(members@);
    let mut has_value = false;
    let mut others: Vec<String> = Vec::new();
    let mut i: usize = 0;
    while i < members.len()
        invariant
            i <= members@.len(),
            ms == members_json(members@),
            text::texts(others@) == strangers(ms, i as int),
            has_value <==> exists|j: int| 0 <= j < i && (#[trigger] ms[j]).0 == ".value"@,
        decreases members@.len() - i,
    {
        let key = members[i].key.as_str();
        assert(ms[i as int].0 == key@);
        let ghost before = others@;
        if same_text(key, ".value") {
            has_value = true;
        } else if !same_text(key, ".priority") {
            others.push(members[i].key.clone());
            assert(text::texts(others@) =~= text::texts(before).push(key@));
        }
        i = i + 1;
    }
    if has_value && others.len() > 0 {
        let list = join_texts(&others, ", ");
        let mut e = concat3("Data at ", path, " contains \".value\" alongside other children (");
        e.append(list.as_str());
        e.append(
            "). \".value\" can only be used with \".priority\" for primitives with priority",
        );
        return Err(e);
    }
    assert(strangers(ms, ms.len() as int).len() == others@.len());
    let mut i: usize = 0;
    while i < members.len()
        invariant
            i <= members@.len(),
            *value == JsonValue::Object(*members),
            ms == members_json(members@),
            priority_error(value@, path@) == members_priority_error(ms, ms.len() as int, path@),
            members_priority_error(ms, i as int, path@) is None,
        decreases members@.len() - i,
    {
        assert(decreases_to!(*value => value->Object_0));
        let child = child_path_text(path, members[i].key.as_str());
        assert(ms[i as int].0 == members@[i as int].key@);
        match validate_value_priority(&members[i].value, child.as_str()) {
            Ok(_) => {},
            Err(e) => {
                proof {
                    lemma_priority_error_stays(ms, i + 1, ms.len() as int, path@);
                }
                return Err(e);
            },
        }
        i = i + 1;
    }
    Ok(())
}

/// A complaint among the first members is the complaint of the whole.
pub proof fn lemma_priority_error_stays(
    members: Seq<(Seq<char>, Json)>,
    n: int,
    m: int,
    at: Seq<char>,
)
    requires
        members_priority_error(members, n, at) is Some,
        n <= m <= members.len(),
    ensures
        members_priority_error(members, m, at) == members_priority_error(members, n, at),
    decreases m,
{
    if n < m {
        lemma_priority_error_stays(members, n, m - 1, at);
    }
}

/// A copy of a value.
pub fn copy_value(v: &JsonValue) -> (r: JsonValue)
    ensures
        r@ == v@,
    decreases v,
{
    match v {
        JsonValue::Null => JsonValue::Null,
        JsonValue::Bool(b) => JsonValue::Bool(*b),
        JsonValue::Number(n) => JsonValue::Number(n.clone()),
        JsonValue::String(s) => JsonValue::String(s.clone()),
        JsonValue::Array(items) => {
            assert(decreases_to!(*v => v->Array_0));
            JsonValue::Array(copy_items(items))
        },
        JsonValue::Object(members) => {
            assert(decreases_to!(*v => v->Object_0));
            JsonValue::Object(copy_members(members))
        },
    }
}

/// A copy of the elements of an array.
pub fn copy_items(items: &Vec<JsonValue>) -> (r: Vec<JsonValue>)
    ensures
        items_json(r@) == items_json(items@),
        r@.len() == items@.len(),
    decreases items,
{
    let mut out: Vec<JsonValue> = Vec::new();
    let mut i: usize = 0;
    while i < items.len()
        invariant
            i <= items@.len(),
            out@.len() == i,
            forall|j: int| 0 <= j < i ==> #[trigger] out@[j]@ == items@[j]@,
        decreases items@.len() - i,
    {
        out.push(copy_value(&items[i]));
        i = i + 1;
    }
    assert forall|j: int| 0 <= j < out@.len() implies items_json(out@)[j] == items_json(
        items@,
    )[j] by {
        assert(out@[j]@ == items@[j]@);
    }
    assert(items_json(out@) =~= items_json(items@));
    out
}

/// A copy of the members of an object.
pub fn copy_members(members: &Vec<Member>) -> (r: Vec<Member>)
    ensures
        members_json(r@) == members_json(members@),
        r@.len() == members@.len(),
    decreases members,
{
    let mut out: Vec<Member> = Vec::new();
    let mut i: usize = 0;
    while i < members.len()
        invariant
            i <= members@.len(),
            out@.len() == i,
            forall|j: int|
                0 <= j < i ==> (#[trigger] out@[j]).key@ == members@[j].key@ && out@[j].value@
                    == members@[j].value@,
        decreases members@.len() - i,
    {
        out.push(Member { key: members[i].key.clone(), value: copy_value(&members[i].value) });
        i = i + 1;
    }
    assert(members_json(out@) =~= members_json(members@));
    out
}

/// A copy of an optional value.
pub fn copy_opt_value(v: &Option<JsonValue>) -> (r: Option<JsonValue>)
    ensures
        opt_json(r) == opt_json(*v),
{
    match v {
        Some(x) => Some(copy_value(x)),
        None => None,
    }
}

/// The member that counts for a key: the last one listed.
pub fn find_member<'a>(members: &'a Vec<Member>, key: &str) -> (r: Option<&'a JsonValue>)
    ensures
        match r {
            Some(v) => exists|i: int|
                0 <= i < members@.len() && (#[trigger] members@[i]).key@ == key@
                    && members@[i].value == *v && forall|j: int|
                    i < j < members@.len() ==> (#[trigger] members@[j]).key@ != key@,
            None => forall|i: int| 0 <= i < members@.len() ==> (#[trigger] members@[i]).key@ != key@,
        },
{
    let mut i: usize = members.len();
    while i > 0
        invariant
            i <= members@.len(),
            forall|j: int| i <= j < members@.len() ==> (#[trigger] members@[j]).key@ != key@,
        decreases i,
    {
        i = i - 1;
        if same_text(members[i].key.as_str(), key) {
            return Some(&members[i].value);
        }
    }
    None
}

/// Size bounds are monotone: a longer list of members never weighs less.
pub proof fn law_weight_monotone(members: Seq<(Seq<char>, Json)>, n: int, m: int)
    requires
        0 <= n <= m <= members.len(),
    ensures
        members_weight(members, n) <= members_weight(members, m),
    decreases m,
{
    if n < m {
        law_weight_monotone(members, n, m - 1);
    }
}

/// A value weighs at least as much as any member it holds, so no large value slips
/// under a cap by nesting.
pub proof fn law_weight_covers_members(members: Seq<(Seq<char>, Json)>, i: int)
    requires
        0 <= i < members.len(),
    ensures
        weight(members[i].1) + text::byte_len(members[i].0) + 8 <= weight(Json::Object(members)),
{
    law_weight_monotone(members, i + 1, members.len() as int);
}

/// A value sits at least one level above any member it holds.
pub proof fn law_depth_covers_members(members: Seq<(Seq<char>, Json)>, i: int)
    requires
        0 <= i < members.len(),
    ensures
        depth(members[i].1) + 1 <= depth(Json::Object(members)),
{
    lemma_max_member_depth(members, i + 1, members.len() as int);
}

/// The greatest depth grows with the number of members looked at.
pub proof fn lemma_max_member_depth(members: Seq<(Seq<char>, Json)>, n: int, m: int)
    requires
        0 <= n <= m <= members.len(),
    ensures
        max_member_depth(members, n) <= max_member_depth(members, m),
    decreases m,
{
    if n < m {
        lemma_max_member_depth(members, n, m - 1);
    }
}

/// Every place in a value with valid keys is reached over valid keys, and over no more of
/// them than the value is deep.
pub proof fn lemma_place_in_value(v: Json, q: Seq<Seq<char>>)
    requires
        keys_valid(v),
        shape::at(cleaned(v), q) is Some,
    ensures
        q.len() <= depth(v),
        forall|i: int| 0 <= i < q.len() ==> path::valid_key(#[trigger] q[i]),
    decreases q.len(),
{
    if q.len() > 0 {
        let members = v->Object_0;
        let n = members.len() as int;
        let j = lemma_cleaned_kid(members, n, q[0]);
        if !members_keys_valid(members, j + 1) {
            lemma_members_keys(members, j + 1, n);
        }
        law_depth_covers_members(members, j);
        let rest = q.drop_first();
        lemma_place_in_value(members[j].1, rest);
        assert forall|i: int| 0 <= i < q.len() implies path::valid_key(#[trigger] q[i]) by {
            if i > 0 {
                assert(q[i] == rest[i - 1]);
            }
        }
    }
}

/// What a value weighs: a null or a boolean 4 bytes, a number 8, a text its length in UTF-8,
/// an empty container 8.
pub proof fn law_weight_of_leaves(v: Json)
    ensures
        v is Null || v is Bool ==> weight(v) == 4,
        v is Number ==> weight(v) == 8,
        v matches Json::String(s) ==> weight(v) == vstd::utf8::encode_utf8(s).len(),
        weight(Json::Array(Seq::empty())) == 8,
        weight(Json::Object(Seq::empty())) == 8,
{
}

/// Every element adds its own weight to an array, and every member that of its key and value
/// to an object.
pub proof fn law_weight_adds_up(
    items: Seq<Json>,
    x: Json,
    members: Seq<(Seq<char>, Json)>,
    k: Seq<char>,
)
    ensures
        weight(Json::Array(items.push(x))) == weight(Json::Array(items)) + weight(x),
        weight(Json::Object(members.push((k, x)))) == weight(Json::Object(members))
            + vstd::utf8::encode_utf8(k).len() + weight(x),
{
    lemma_items_weight_of_front(items, items.push(x), items.len() as int);
    lemma_members_weight_of_front(members, members.push((k, x)), members.len() as int);
}

/// The first elements of a longer array weigh the same.
proof fn lemma_items_weight_of_front(a: Seq<Json>, b: Seq<Json>, n: int)
    requires
        0 <= n <= a.len() <= b.len(),
        forall|i: int| 0 <= i < n ==> a[i] == b[i],
    ensures
        items_weight(a, n) == items_weight(b, n),
    decreases n,
{
    if n > 0 {
        lemma_items_weight_of_front(a, b, n - 1);
    }
}

/// The first members of a longer object weigh the same.
proof fn lemma_members_weight_of_front(
    a: Seq<(Seq<char>, Json)>,
    b: Seq<(Seq<char>, Json)>,
    n: int,
)
    requires
        0 <= n <= a.len() <= b.len(),
        forall|i: int| 0 <= i < n ==> a[i] == b[i],
    ensures
        members_weight(a, n) == members_weight(b, n),
    decreases n,
{
    if n > 0 {
        lemma_members_weight_of_front(a, b, n - 1);
    }
}

/// A scalar lies on one level; a container lies one level above everything in it, and exactly
/// one above something in it, if there is anything.
pub proof fn law_depth_is_the_longest_way_down(v: Json)
    ensures
        match v {
            Json::Array(items) => {
                &&& forall|i: int|
                    0 <= i < items.len() ==> depth(v) >= 1 + depth(#[trigger] items[i])
                &&& if items.len() == 0 {
                    depth(v) == 1
                } else {
                    exists|i: int|
                        0 <= i < items.len() && (depth(v) == 1 + depth(#[trigger] items[i]))
                }
            },
            Json::Object(members) => {
                &&& forall|i: int|
                    0 <= i < members.len() ==> depth(v) >= 1 + depth((#[trigger] members[i]).1)
                &&& if members.len() == 0 {
                    depth(v) == 1
                } else {
                    exists|i: int|
                        0 <= i < members.len() && (depth(v) == 1 + depth((#[trigger] members[i]).1))
                }
            },
            _ => depth(v) == 0,
        },
{
    match v {
        Json::Array(items) => lemma_deepest_item(items, items.len() as int),
        Json::Object(members) => lemma_deepest_member(members, members.len() as int),
        _ => {},
    }
}

/// The greatest depth of the first elements is the depth of one of them.
proof fn lemma_deepest_item(items: Seq<Json>, n: int)
    requires
        0 <= n <= items.len(),
    ensures
        forall|i: int| 0 <= i < n ==> max_depth(items, n) >= depth(#[trigger] items[i]),
        n == 0 ==> max_depth(items, n) == 0,
        n > 0 ==> exists|i: int| 0 <= i < n && max_depth(items, n) == depth(#[trigger] items[i]),
    decreases n,
{
    if n > 0 {
        lemma_deepest_item(items, n - 1);
        if max_depth(items, n) == depth(items[n - 1]) {
            assert(items[n - 1] == items[n - 1]);
        } else {
            let i = choose|i: int|
                0 <= i < n - 1 && max_depth(items, n - 1) == depth(#[trigger] items[i]);
            assert(max_depth(items, n) == depth(items[i]));
        }
    }
}

/// The greatest depth of the first members is the depth of one of them.
proof fn lemma_deepest_member(members: Seq<(Seq<char>, Json)>, n: int)
    requires
        0 <= n <= members.len(),
    ensures
        forall|i: int|
            0 <= i < n ==> max_member_depth(members, n) >= depth((#[trigger] members[i]).1),
        n == 0 ==> max_member_depth(members, n) == 0,
        n > 0 ==> exists|i: int|
            0 <= i < n && max_member_depth(members, n) == depth((#[trigger] members[i]).1),
    decreases n,
{
    if n > 0 {
        lemma_deepest_member(members, n - 1);
        if max_member_depth(members, n) == depth(members[n - 1].1) {
            assert(members[n - 1] == members[n - 1]);
        } else {
            let i = choose|i: int|
                0 <= i < n - 1 && max_member_depth(members, n - 1) == depth(
                    (#[trigger] members[i]).1,
                );
            assert(max_member_depth(members, n) == depth(members[i].1));
        }
    }
}

/// A value keeps the key rules exactly if each of its keys does, and each of its members and
/// elements keeps them.
pub proof fn law_every_key_is_checked(v: Json)
    ensures
        match v {
            Json::Array(items) => keys_valid(v) <==> forall|i: int|
                0 <= i < items.len() ==> keys_valid(#[trigger] items[i]),
            Json::Object(members) => keys_valid(v) <==> forall|i: int|
                0 <= i < members.len() ==> path::valid_key((#[trigger] members[i]).0)
                    && keys_valid(members[i].1),
            _ => keys_valid(v),
        },
{
    match v {
        Json::Array(items) => lemma_items_keys_each(items, items.len() as int),
        Json::Object(members) => lemma_members_keys_each(members, members.len() as int),
        _ => {},
    }
}

/// The first elements keep the key rules exactly if each does.
proof fn lemma_items_keys_each(items: Seq<Json>, n: int)
    requires
        0 <= n <= items.len(),
    ensures
        items_keys_valid(items, n) <==> forall|i: int|
            0 <= i < n ==> keys_valid(#[trigger] items[i]),
    decreases n,
{
    if n > 0 {
        lemma_items_keys_each(items, n - 1);
    }
}

/// The first members keep the key rules exactly if each does.
proof fn lemma_members_keys_each(members: Seq<(Seq<char>, Json)>, n: int)
    requires
        0 <= n <= members.len(),
    ensures
        members_keys_valid(members, n) <==> forall|i: int|
            0 <= i < n ==> path::valid_key((#[trigger] members[i]).0) && keys_valid(members[i].1),
    decreases n,
{
    if n > 0 {
        lemma_members_keys_each(members, n - 1);
    }
}

/// There is a complaint about `.value` in an object exactly if it stands there beside a key
/// other than `.priority`, or there is one about a member; it names the place.
pub proof fn law_value_stands_alone(v: Json, at: Seq<char>)
    ensures
        match v {
            Json::Object(members) => {
                let crowded = (exists|i: int|
                    0 <= i < members.len() && (#[trigger] members[i]).0 == ".value"@) && (exists|
                    i: int,
                |
                    0 <= i < members.len() && (#[trigger] members[i]).0 != ".value"@
                        && members[i].0 != ".priority"@);
                &&& crowded ==> priority_error(v, at) is Some && text::has_prefix(
                    priority_error(v, at)->0,
                    "Data at "@ + at,
                )
                &&& !crowded ==> (priority_error(v, at) is Some <==> exists|i: int|
                    0 <= i < members.len() && priority_error(
                        (#[trigger] members[i]).1,
                        path::child_path(at, members[i].0),
                    ) is Some)
                &&& !crowded && priority_error(v, at) is Some ==> exists|i: int|
                    0 <= i < members.len() && priority_error(
                        (#[trigger] members[i]).1,
                        path::child_path(at, members[i].0),
                    ) == priority_error(v, at)
            },
            _ => priority_error(v, at) is None,
        },
{
    if let Json::Object(members) = v {
        let n = members.len() as int;
        lemma_strangers_listed(members, n);
        lemma_member_complaints(members, n, at);
        if has_key(members, ".value"@) && strangers(members, n).len() > 0 {
            let others = strangers(members, n);
            let e = priority_complaint(at, others);
            let front = "Data at "@ + at;
            assert(e.take(front.len() as int) =~= front);
        }
    }
}

/// There are strangers among the first members exactly if one has another key.
proof fn lemma_strangers_listed(members: Seq<(Seq<char>, Json)>, n: int)
    requires
        0 <= n <= members.len(),
    ensures
        strangers(members, n).len() > 0 <==> exists|i: int|
            0 <= i < n && (#[trigger] members[i]).0 != ".value"@ && members[i].0 != ".priority"@,
    decreases n,
{
    if n > 0 {
        lemma_strangers_listed(members, n - 1);
        let k = members[n - 1].0;
        if !(k == ".value"@ || k == ".priority"@) {
            assert(members[n - 1].0 != ".value"@ && members[n - 1].0 != ".priority"@);
        }
    }
}

/// The first complaint about members is one about a member.
pub proof fn lemma_member_complaints(members: Seq<(Seq<char>, Json)>, n: int, at: Seq<char>)
    requires
        0 <= n <= members.len(),
    ensures
        match members_priority_error(members, n, at) {
            Some(e) => exists|i: int|
                0 <= i < n && priority_error(
                    (#[trigger] members[i]).1,
                    path::child_path(at, members[i].0),
                ) == Some(e),
            None => forall|i: int|
                0 <= i < n ==> priority_error(
                    (#[trigger] members[i]).1,
                    path::child_path(at, members[i].0),
                ) is None,
        },
    decreases n,
{
    if n > 0 {
        lemma_member_complaints(members, n - 1, at);
        match members_priority_error(members, n - 1, at) {
            Some(e) => {
                let i = choose|i: int|
                    0 <= i < n - 1 && priority_error(
                        (#[trigger] members[i]).1,
                        path::child_path(at, members[i].0),
                    ) == Some(e);
                assert(members[i] == members[i]);
            },
            None => {
                assert(members[n - 1] == members[n - 1]);
            },
        }
    }
}

} // verus!
