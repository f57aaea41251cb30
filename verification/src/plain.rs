//! Values as plain data without member order: what readers, conditions and hashes
//! see, and the way to and from `serde_json`.
use crate::node;
use crate::node::{Child, Node};
use crate::shape::Shape;
use crate::text::same_text;
use crate::value;
use crate::value::{copy_items, find_member, Json, Member, JsonValue};
use vstd::prelude::*;

verus! {

broadcast use vstd::string::group_string_axioms;

/// A JSON value with unordered members.
pub ghost enum Plain {
    Null,
    Bool(bool),
    Number(serde_json::Number),
    String(Seq<char>),
    Array(Seq<Plain>),
    Object(Map<Seq<char>, Plain>),
}

/// A value with its member order forgotten.
pub open spec fn plain(v: Json) -> Plain
    decreases v,
{
    match v {
        Json::Null => Plain::Null,
        Json::Bool(b) => Plain::Bool(b),
        Json::Number(n) => Plain::Number(n),
        Json::String(s) => Plain::String(s),
        Json::Array(items) => Plain::Array(plain_items(items)),
        Json::Object(members) => Plain::Object(plain_members(members, members.len() as int)),
    }
}

/// The elements of an array with member order forgotten.
pub open spec fn plain_items(items: Seq<Json>) -> Seq<Plain>
    decreases items,
{
    Seq::new(
        items.len(),
        |i: int|
            if 0 <= i < items.len() {
                plain(items[i])
            } else {
                Plain::Null
            },
    )
}

/// The first `n` members, later ones in place of earlier ones with the same key.
pub open spec fn plain_members(
    members: Seq<(Seq<char>, Json)>,
    n: int,
) -> Map<Seq<char>, Plain>
    decreases members, n,
{
    if n <= 0 || n > members.len() {
        Map::empty()
    } else {
        plain_members(members, n - 1).insert(members[n - 1].0, plain(members[n - 1].1))
    }
}

/// What a tree node reads as. A sentinel reads as null.
pub open spec fn seen(n: Shape) -> Plain
    decreases n,
{
    match n {
        Shape::Null => Plain::Null,
        Shape::Bool(b) => Plain::Bool(b),
        Shape::Number(x) => Plain::Number(x),
        Shape::String(s) => Plain::String(s),
        Shape::Array(items) => Plain::Array(plain_items(items)),
        Shape::Object(m) => Plain::Object(
            Map::new(
                |k: Seq<char>| m.contains_key(k),
                |k: Seq<char>|
                    if m.contains_key(k) {
                        seen(m[k])
                    } else {
                        Plain::Null
                    },
            ),
        ),
        Shape::Sentinel(_) => Plain::Null,
    }
}

/// What a path reads as; nothing there reads as null.
pub open spec fn seen_opt(n: Option<Shape>) -> Plain {
    match n {
        Some(s) => seen(s),
        None => Plain::Null,
    }
}

/// Names the outcome of `serde_json`'s comparison of two numbers.
pub uninterp spec fn number_same(a: serde_json::Number, b: serde_json::Number) -> bool;

/// `<serde_json::Number as PartialEq>::eq`: which numbers count as equal is left to
/// `serde_json`; a number equals itself.
#[verifier::external_body]
pub(crate) fn numbers_equal(a: &serde_json::Number, b: &serde_json::Number) -> (r: bool)
    ensures
        r == number_same(*a, *b),
        *a == *b ==> r,
{
    a == b
}

/// Whether two values are equal, members compared without regard to order.
pub open spec fn json_same(a: Json, b: Json) -> bool
    decreases a,
{
    match (a, b) {
        (Json::Null, Json::Null) => true,
        (Json::Bool(x), Json::Bool(y)) => x == y,
        (Json::Number(x), Json::Number(y)) => number_same(x, y),
        (Json::String(x), Json::String(y)) => x == y,
        (Json::Array(x), Json::Array(y)) => x.len() == y.len() && items_same(x, y, x.len() as int),
        (Json::Object(x), Json::Object(y)) => x.len() == y.len() && members_same(
            x,
            y,
            x.len() as int,
        ),
        _ => false,
    }
}

/// Whether the first `n` elements are equal in pairs.
pub open spec fn items_same(x: Seq<Json>, y: Seq<Json>, n: int) -> bool
    decreases x, n,
{
    n <= 0 || n > x.len() || n > y.len() || (items_same(x, y, n - 1) && json_same(
        x[n - 1],
        y[n - 1],
    ))
}

/// Whether each of the first `n` members of `x` has an equal member in `y`.
pub open spec fn members_same(
    x: Seq<(Seq<char>, Json)>,
    y: Seq<(Seq<char>, Json)>,
    n: int,
) -> bool
    decreases x, n,
{
    n <= 0 || n > x.len() || (members_same(x, y, n - 1) && (match member_of(
        y,
        y.len() as int,
        x[n - 1].0,
    ) {
        Some(v) => json_same(x[n - 1].1, v),
        None => false,
    }))
}

/// The last of the first `n` members with the key.
pub open spec fn member_of(
    members: Seq<(Seq<char>, Json)>,
    n: int,
    k: Seq<char>,
) -> Option<Json>
    decreases n,
{
    if n <= 0 || n > members.len() {
        None
    } else if members[n - 1].0 == k {
        Some(members[n - 1].1)
    } else {
        member_of(members, n - 1, k)
    }
}

/// Whether a tree node reads as the value `v`.
pub open spec fn reads_as(n: Shape, v: Json) -> bool
    decreases v,
{
    match v {
        Json::Null => n is Null || n is Sentinel,
        Json::Bool(b) => n == Shape::Bool(b),
        Json::Number(x) => n is Number && number_same(n->Number_0, x),
        Json::String(s) => n == Shape::String(s),
        Json::Array(items) => n is Array && n->Array_0.len() == items.len() && items_same(
            n->Array_0,
            items,
            items.len() as int,
        ),
        Json::Object(members) => n is Object && (forall|k: Seq<char>|
            n->Object_0.contains_key(k) ==> #[trigger] value::has_key(members, k))
            && members_read(n->Object_0, members, members.len() as int),
    }
}

/// Whether the children under the first `n` members' keys read as those members.
pub open spec fn members_read(
    m: Map<Seq<char>, Shape>,
    members: Seq<(Seq<char>, Json)>,
    n: int,
) -> bool
    decreases members, n,
{
    n <= 0 || n > members.len() || (members_read(m, members, n - 1) && m.contains_key(
        members[n - 1].0,
    ) && reads_as(m[members[n - 1].0], members[n - 1].1))
}

/// The last member with a key, found from its position.
pub proof fn lemma_member_of(members: Seq<(Seq<char>, Json)>, n: int, k: Seq<char>, i: int)
    requires
        0 <= i < n <= members.len(),
        members[i].0 == k,
        forall|j: int| i < j < n ==> (#[trigger] members[j]).0 != k,
    ensures
        member_of(members, n, k) == Some(members[i].1),
    decreases n,
{
    if i < n - 1 {
        assert(members[n - 1].0 != k);
        lemma_member_of(members, n - 1, k, i);
    }
}

/// A key that no member has.
pub proof fn lemma_member_of_none(members: Seq<(Seq<char>, Json)>, n: int, k: Seq<char>)
    requires
        n <= members.len(),
        forall|j: int| 0 <= j < n ==> (#[trigger] members[j]).0 != k,
    ensures
        member_of(members, n, k) is None,
    decreases n,
{
    if n > 0 {
        assert(members[n - 1].0 != k);
        lemma_member_of_none(members, n - 1, k);
    }
}

/// One unequal element spoils the comparison.
pub proof fn lemma_items_differ(x: Seq<Json>, y: Seq<Json>, n: int, m: int)
    requires
        n <= m <= x.len(),
        x.len() == y.len(),
        !items_same(x, y, n),
    ensures
        !items_same(x, y, m),
    decreases m,
{
    if n < m {
        lemma_items_differ(x, y, n, m - 1);
    }
}

/// One unequal member spoils the comparison.
pub proof fn lemma_members_differ(
    x: Seq<(Seq<char>, Json)>,
    y: Seq<(Seq<char>, Json)>,
    n: int,
    m: int,
)
    requires
        n <= m <= x.len(),
        !members_same(x, y, n),
    ensures
        !members_same(x, y, m),
    decreases m,
{
    if n < m {
        lemma_members_differ(x, y, n, m - 1);
    }
}

/// One child that reads otherwise spoils the reading.
pub proof fn lemma_members_read_otherwise(
    m: Map<Seq<char>, Shape>,
    members: Seq<(Seq<char>, Json)>,
    n: int,
    k: int,
)
    requires
        n <= k <= members.len(),
        !members_read(m, members, n),
    ensures
        !members_read(m, members, k),
    decreases k,
{
    if n < k {
        lemma_members_read_otherwise(m, members, n, k - 1);
    }
}

/// The member of a list that counts for a key.
pub fn lookup_member<'a>(members: &'a Vec<Member>, key: &str) -> (r: Option<&'a JsonValue>)
    ensures
        ({
            let ms = value::members_json(members@);
            match r {
                Some(v) => member_of(ms, ms.len() as int, key@) == Some(v@),
                None => member_of(ms, ms.len() as int, key@) is None,
            }
        }),
{
    let r = find_member(members, key);
    proof {
        let ms = value::members_json(members@);
        match r {
            Some(v) => {
                let i = choose|i: int|
                    0 <= i < members@.len() && (#[trigger] members@[i]).key@ == key@
                        && members@[i].value == *v && forall|j: int|
                        i < j < members@.len() ==> (#[trigger] members@[j]).key@ != key@;
                assert forall|j: int| i < j < ms.len() implies (#[trigger] ms[j]).0 != key@ by {
                    assert(members@[j].key@ != key@);
                }
                lemma_member_of(ms, ms.len() as int, key@, i);
            },
            None => {
                assert forall|j: int| 0 <= j < ms.len() implies (#[trigger] ms[j]).0 != key@ by {
                    assert(members@[j].key@ != key@);
                }
                lemma_member_of_none(ms, ms.len() as int, key@);
            },
        }
    }
    r
}

/// Whether two values are equal, members compared without regard to order.
pub fn same_value(a: &JsonValue, b: &JsonValue) -> (r: bool)
    ensures
        r == json_same(a@, b@),
    decreases a,
{
    match (a, b) {
        (JsonValue::Null, JsonValue::Null) => true,
        (JsonValue::Bool(x), JsonValue::Bool(y)) => *x == *y,
        (JsonValue::Number(x), JsonValue::Number(y)) => numbers_equal(x, y),
        (JsonValue::String(x), JsonValue::String(y)) => same_text(x.as_str(), y.as_str()),
        (JsonValue::Array(x), JsonValue::Array(y)) => {
            assert(decreases_to!(*a => a->Array_0));
            same_items(x, y)
        },
        (JsonValue::Object(x), JsonValue::Object(y)) => {
            assert(decreases_to!(*a => a->Object_0));
            same_members(x, y)
        },
        _ => false,
    }
}

/// Whether two arrays are equal element by element.
pub fn same_items(x: &Vec<JsonValue>, y: &Vec<JsonValue>) -> (r: bool)
    ensures
        r == (x@.len() == y@.len() && items_same(
            value::items_json(x@),
            value::items_json(y@),
            x@.len() as int,
        )),
    decreases x,
{
    if x.len() != y.len() {
        return false;
    }
    let ghost xs = value::items_json(x@);
    let ghost ys = value::items_json(y@);
    let mut i: usize = 0;
    while i < x.len()
        invariant
            i <= x@.len() == y@.len(),
            xs == value::items_json(x@),
            ys == value::items_json(y@),
            items_same(xs, ys, i as int),
        decreases x@.len() - i,
    {
        if !same_value(&x[i], &y[i]) {
            proof {
                lemma_items_differ(xs, ys, i + 1, xs.len() as int);
            }
            return false;
        }
        i = i + 1;
    }
    true
}

/// Whether two objects have the same members.
pub fn same_members(x: &Vec<Member>, y: &Vec<Member>) -> (r: bool)
    ensures
        r == (x@.len() == y@.len() && members_same(
            value::members_json(x@),
            value::members_json(y@),
            x@.len() as int,
        )),
    decreases x,
{
    if x.len() != y.len() {
        return false;
    }
    let ghost xs = value::members_json(x@);
    let ghost ys = value::members_json(y@);
    let mut i: usize = 0;
    while i < x.len()
        invariant
            i <= x@.len() == y@.len(),
            xs == value::members_json(x@),
            ys == value::members_json(y@),
            members_same(xs, ys, i as int),
        decreases x@.len() - i,
    {
        assert(xs[i as int].0 == x@[i as int].key@);
        let equal = match lookup_member(y, x[i].key.as_str()) {
            Some(v) => same_value(&x[i].value, v),
            None => false,
        };
        if !equal {
            proof {
                lemma_members_differ(xs, ys, i + 1, xs.len() as int);
            }
            return false;
        }
        i = i + 1;
    }
    true
}

/// Whether a tree node reads as a value.
pub fn node_reads_as(n: &Node, v: &JsonValue) -> (r: bool)
    ensures
        r == reads_as(n@, v@),
    decreases v,
{
    match v {
        JsonValue::Null => n.is_null() || n.is_sentinel(),
        JsonValue::Bool(b) => match n {
            Node::Bool(x) => *x == *b,
            _ => false,
        },
        JsonValue::Number(x) => match n {
            Node::Number(y) => numbers_equal(y, x),
            _ => false,
        },
        JsonValue::String(s) => match n {
            Node::String(t) => same_text(t.as_str(), s.as_str()),
            _ => false,
        },
        JsonValue::Array(items) => match n {
            Node::Array(own) => same_items(own, items),
            _ => false,
        },
        JsonValue::Object(members) => match n {
            Node::Object(children) => {
                assert(decreases_to!(*v => v->Object_0));
                children_listed(children, members) && children_read_as(children, members)
            },
            _ => false,
        },
    }
}

/// Whether every child's key is a member's key.
fn children_listed(children: &Vec<Child>, members: &Vec<Member>) -> (r: bool)
    ensures
        r == (forall|k: Seq<char>|
            node::children_map(children@).contains_key(k) ==> #[trigger] value::has_key(
                value::members_json(members@),
                k,
            )),
{
    let ghost ms = value::members_json(members@);
    let mut i: usize = 0;
    while i < children.len()
        invariant
            i <= children@.len(),
            ms == value::members_json(members@),
            forall|j: int|
                0 <= j < i ==> value::has_key(ms, (#[trigger] children@[j]).key@),
        decreases children@.len() - i,
    {
        let key = children[i].key.as_str();
        match find_member(members, key) {
            Some(v) => {
                proof {
                    let j = choose|j: int|
                        0 <= j < members@.len() && (#[trigger] members@[j]).key@ == key@
                            && members@[j].value == *v && forall|l: int|
                            j < l < members@.len() ==> (#[trigger] members@[l]).key@ != key@;
                    assert(ms[j].0 == key@);
                }
            },
            None => {
                proof {
                    lemma_child_listed(children@, i as int);
                    assert(!value::has_key(ms, key@)) by {
                        assert forall|j: int| 0 <= j < ms.len() implies (#[trigger] ms[j]).0
                            != key@ by {
                            assert(members@[j].key@ != key@);
                        }
                    }
                }
                return false;
            },
        }
        i = i + 1;
    }
    proof {
        assert forall|k: Seq<char>|
            node::children_map(children@).contains_key(k) implies #[trigger] value::has_key(
            ms,
            k,
        ) by {
            node::lemma_key_present(children@, k);
            let j = choose|j: int| node::last_for_key(children@, k, j);
            assert(value::has_key(ms, children@[j].key@));
        }
    }
    true
}

/// A listed key is a child.
pub proof fn lemma_child_listed(s: Seq<Child>, i: int)
    requires
        0 <= i < s.len(),
    ensures
        node::children_map(s).contains_key(s[i].key@),
    decreases s.len(),
{
    if i < s.len() - 1 {
        lemma_child_listed(s.drop_last(), i);
    }
}

/// Whether the children under the members' keys read as the members.
fn children_read_as(children: &Vec<Child>, members: &Vec<Member>) -> (r: bool)
    ensures
        r == members_read(
            node::children_map(children@),
            value::members_json(members@),
            members@.len() as int,
        ),
    decreases members,
{
    let ghost m = node::children_map(children@);
    let ghost ms = value::members_json(members@);
    let mut i: usize = 0;
    while i < members.len()
        invariant
            i <= members@.len(),
            m == node::children_map(children@),
            ms == value::members_json(members@),
            members_read(m, ms, i as int),
        decreases members@.len() - i,
    {
        assert(ms[i as int].0 == members@[i as int].key@);
        let ok = match node::find_child(children, members[i].key.as_str()) {
            Some(j) => node_reads_as(&children[j].node, &members[i].value),
            None => false,
        };
        if !ok {
            proof {
                lemma_members_read_otherwise(m, ms, i + 1, ms.len() as int);
            }
            return false;
        }
        i = i + 1;
    }
    true
}

/// The value that a tree node reads as.
pub fn node_value(n: &Node) -> (r: JsonValue)
    ensures
        plain(r@) == seen(n@),
    decreases n,
{
    match n {
        Node::Null => JsonValue::Null,
        Node::Bool(b) => JsonValue::Bool(*b),
        Node::Number(x) => JsonValue::Number(x.clone()),
        Node::String(s) => JsonValue::String(s.clone()),
        Node::Array(items) => {
            let copy = copy_items(items);
            JsonValue::Array(copy)
        },
        Node::Object(children) => {
            assert(decreases_to!(*n => n->Object_0));
            let members = children_members(children);
            proof {
                let m = node::children_map(children@);
                let ms = value::members_json(members@);
                assert(plain_members(ms, ms.len() as int) =~= seen(n@)->Object_0);
            }
            JsonValue::Object(members)
        },
        Node::Sentinel(_) => JsonValue::Null,
    }
}

/// The members that a list of children reads as.
fn children_members(children: &Vec<Child>) -> (r: Vec<Member>)
    ensures
        ({
            let m = node::children_map(children@);
            let p = plain_members(value::members_json(r@), r@.len() as int);
            &&& forall|k: Seq<char>| #[trigger] p.contains_key(k) == m.contains_key(k)
            &&& forall|k: Seq<char>| m.contains_key(k) ==> #[trigger] p[k] == seen(m[k])
        }),
    decreases children,
{
    let mut out: Vec<Member> = Vec::new();
    let mut i: usize = 0;
    while i < children.len()
        invariant
            i <= children@.len(),
            out@.len() == i,
            ({
                let m = node::children_map(children@.take(i as int));
                let p = plain_members(value::members_json(out@), i as int);
                &&& forall|k: Seq<char>| #[trigger] p.contains_key(k) == m.contains_key(k)
                &&& forall|k: Seq<char>| m.contains_key(k) ==> #[trigger] p[k] == seen(m[k])
            }),
        decreases children@.len() - i,
    {
        let ghost before = out@;
        let value = node_value(&children[i].node);
        out.push(Member { key: children[i].key.clone(), value });
        proof {
            assert(children@.take(i + 1).drop_last() =~= children@.take(i as int));
            assert(children@.take(i + 1).last() == children@[i as int]);
            let old_ms = value::members_json(before);
            let ms = value::members_json(out@);
            assert forall|j: int| 0 <= j < i implies #[trigger] ms[j] == old_ms[j] by {
                assert(out@[j] == before[j]);
            }
            lemma_plain_members_prefix(old_ms, ms, i as int);
        }
        i = i + 1;
    }
    assert(children@.take(i as int) =~= children@);
    out
}

/// Members with the same beginning mean the same there.
pub proof fn lemma_plain_members_prefix(
    a: Seq<(Seq<char>, Json)>,
    b: Seq<(Seq<char>, Json)>,
    n: int,
)
    requires
        n <= a.len(),
        n <= b.len(),
        forall|j: int| 0 <= j < n ==> #[trigger] b[j] == a[j],
    ensures
        plain_members(a, n) == plain_members(b, n),
    decreases n,
{
    if n > 0 {
        assert(b[n - 1] == a[n - 1]);
        lemma_plain_members_prefix(a, b, n - 1);
    }
}

/// Whether no two members have one key.
pub open spec fn keys_differ(members: Seq<(Seq<char>, Json)>) -> bool {
    forall|i: int, j: int|
        0 <= i < j < members.len() ==> (#[trigger] members[i]).0 != (#[trigger] members[j]).0
}

/// Whether no object in a value has a key twice.
pub open spec fn tidy(v: Json) -> bool
    decreases v,
{
    match v {
        Json::Array(items) => tidy_items(items),
        Json::Object(members) => keys_differ(members) && tidy_members(members),
        _ => true,
    }
}

/// Whether all elements are tidy.
pub open spec fn tidy_items(items: Seq<Json>) -> bool
    decreases items,
{
    forall|i: int| 0 <= i < items.len() ==> tidy(#[trigger] items[i])
}

/// Whether all members are tidy.
pub open spec fn tidy_members(members: Seq<(Seq<char>, Json)>) -> bool
    decreases members,
{
    forall|i: int| 0 <= i < members.len() ==> tidy((#[trigger] members[i]).1)
}

/// Whether the arrays in a tree node are tidy.
pub open spec fn tidy_node(n: Shape) -> bool
    decreases n,
{
    match n {
        Shape::Array(items) => tidy_items(items),
        Shape::Object(m) => forall|k: Seq<char>| #[trigger] m.contains_key(k) ==> tidy_node(m[k]),
        _ => true,
    }
}

/// Whether two pieces of data are the same, where numbers are the same if `serde_json` says
/// so.
pub open spec fn alike(a: Plain, b: Plain) -> bool
    decreases a,
{
    match (a, b) {
        (Plain::Null, Plain::Null) => true,
        (Plain::Bool(x), Plain::Bool(y)) => x == y,
        (Plain::Number(x), Plain::Number(y)) => number_same(x, y),
        (Plain::String(x), Plain::String(y)) => x == y,
        (Plain::Array(x), Plain::Array(y)) => x.len() == y.len() && forall|i: int|
            0 <= i < x.len() ==> alike(#[trigger] x[i], y[i]),
        (Plain::Object(x), Plain::Object(y)) => x.dom() == y.dom() && forall|k: Seq<char>|
            #[trigger] x.contains_key(k) ==> alike(x[k], y[k]),
        _ => false,
    }
}

/// Whether data holds no number.
pub open spec fn numberless(a: Plain) -> bool
    decreases a,
{
    match a {
        Plain::Number(_) => false,
        Plain::Array(x) => forall|i: int| 0 <= i < x.len() ==> numberless(#[trigger] x[i]),
        Plain::Object(x) => forall|k: Seq<char>| #[trigger]
            x.contains_key(k) ==> numberless(x[k]),
        _ => true,
    }
}

/// Where there are no numbers, data is alike exactly if it is equal.
proof fn lemma_alike_is_equal(a: Plain, b: Plain)
    requires
        numberless(a),
    ensures
        alike(a, b) == (a == b),
    decreases a,
{
    match (a, b) {
        (Plain::Array(x), Plain::Array(y)) => {
            assert forall|i: int| 0 <= i < x.len() && i < y.len() implies alike(
                #[trigger] x[i],
                y[i],
            ) == (x[i] == y[i]) by {
                assert(decreases_to!(a => a->Array_0));
                assert(decreases_to!(x => x[i]));
                lemma_alike_is_equal(x[i], y[i]);
            }
            if alike(a, b) {
                assert(x =~= y);
            }
        },
        (Plain::Object(x), Plain::Object(y)) => {
            assert forall|k: Seq<char>| #[trigger] x.contains_key(k) implies alike(x[k], y[k])
                == (x[k] == y[k]) by {
                assert(decreases_to!(a => a->Object_0[k]));
                lemma_alike_is_equal(x[k], y[k]);
            }
            if alike(a, b) {
                assert(x =~= y);
            }
        },
        _ => {},
    }
}

/// What the members of an object mean where no key occurs twice: each key means its member.
pub proof fn lemma_members_mean(members: Seq<(Seq<char>, Json)>, n: int)
    requires
        keys_differ(members),
        0 <= n <= members.len(),
    ensures
        forall|i: int|
            0 <= i < n ==> plain_members(members, n).contains_key((#[trigger] members[i]).0)
                && plain_members(members, n)[members[i].0] == plain(members[i].1),
        forall|k: Seq<char>| #[trigger]
            plain_members(members, n).contains_key(k) ==> exists|i: int|
                0 <= i < n && (#[trigger] members[i]).0 == k,
        plain_members(members, n).dom().finite(),
        plain_members(members, n).dom().len() == n,
    decreases n,
{
    if n > 0 {
        lemma_members_mean(members, n - 1);
        let before = plain_members(members, n - 1);
        let k = members[n - 1].0;
        if before.contains_key(k) {
            let i = choose|i: int| 0 <= i < n - 1 && (#[trigger] members[i]).0 == k;
            assert(members[i].0 != members[n - 1].0);
        }
        assert(plain_members(members, n).dom() =~= before.dom().insert(k));
        assert forall|i: int| 0 <= i < n implies plain_members(members, n).contains_key(
            (#[trigger] members[i]).0,
        ) && plain_members(members, n)[members[i].0] == plain(members[i].1) by {
            if i < n - 1 {
                assert(members[i].0 != members[n - 1].0);
            }
        }
        assert forall|x: Seq<char>| #[trigger]
            plain_members(members, n).contains_key(x) implies exists|i: int|
            0 <= i < n && (#[trigger] members[i]).0 == x by {
            if x == k {
                assert(members[n - 1].0 == x);
            } else {
                assert(before.contains_key(x));
                let i = choose|i: int| 0 <= i < n - 1 && (#[trigger] members[i]).0 == x;
                assert(members[i].0 == x);
            }
        }
    } else {
        assert(plain_members(members, n).dom() =~= Set::<Seq<char>>::empty());
    }
}

/// The member that counts for a key where no key occurs twice.
proof fn lemma_only_member(members: Seq<(Seq<char>, Json)>, k: Seq<char>)
    requires
        keys_differ(members),
    ensures
        match member_of(members, members.len() as int, k) {
            Some(v) => plain_members(members, members.len() as int).contains_key(k)
                && plain_members(members, members.len() as int)[k] == plain(v) && exists|i: int|
                0 <= i < members.len() && (#[trigger] members[i]) == (k, v),
            None => !plain_members(members, members.len() as int).contains_key(k),
        },
{
    let n = members.len() as int;
    lemma_members_mean(members, n);
    if exists|i: int| 0 <= i < n && (#[trigger] members[i]).0 == k {
        let i = choose|i: int| 0 <= i < n && (#[trigger] members[i]).0 == k;
        assert forall|j: int| i < j < n implies (#[trigger] members[j]).0 != k by {
            assert(members[i].0 != members[j].0);
        }
        lemma_member_of(members, n, k, i);
        assert(members[i] == (k, members[i].1));
    } else {
        lemma_member_of_none(members, n, k);
    }
}

/// Comparing lists of elements is comparing in pairs.
proof fn lemma_items_same(x: Seq<Json>, y: Seq<Json>, n: int)
    requires
        0 <= n <= x.len(),
        x.len() == y.len(),
    ensures
        items_same(x, y, n) == (forall|i: int| 0 <= i < n ==> json_same(#[trigger] x[i], y[i])),
    decreases n,
{
    if n > 0 {
        lemma_items_same(x, y, n - 1);
    }
}

/// Comparing lists of members is comparing each with its counterpart.
proof fn lemma_members_same(x: Seq<(Seq<char>, Json)>, y: Seq<(Seq<char>, Json)>, n: int)
    requires
        0 <= n <= x.len(),
    ensures
        members_same(x, y, n) == (forall|i: int|
            0 <= i < n ==> match member_of(y, y.len() as int, (#[trigger] x[i]).0) {
                Some(v) => json_same(x[i].1, v),
                None => false,
            }),
    decreases n,
{
    if n > 0 {
        lemma_members_same(x, y, n - 1);
    }
}

/// Two values are the same exactly if they stand for the same data: every boolean, every
/// text, the length and the elements of an array in order, and the keys and members of an
/// object in any order count.
pub proof fn law_same_values_stand_for_the_same_data(a: Json, b: Json)
    requires
        tidy(a),
        tidy(b),
    ensures
        json_same(a, b) == alike(plain(a), plain(b)),
    decreases a,
{
    match (a, b) {
        (Json::Array(x), Json::Array(y)) => {
            if x.len() == y.len() {
                lemma_items_same(x, y, x.len() as int);
                let px = plain_items(x);
                let py = plain_items(y);
                assert forall|i: int| 0 <= i < x.len() implies json_same(#[trigger] x[i], y[i])
                    == alike(px[i], py[i]) by {
                    assert(decreases_to!(a => a->Array_0));
                    assert(decreases_to!(x => x[i]));
                    law_same_values_stand_for_the_same_data(x[i], y[i]);
                }
                if json_same(a, b) {
                    assert forall|i: int| 0 <= i < px.len() implies alike(
                        #[trigger] px[i],
                        py[i],
                    ) by {
                        assert(json_same(x[i], y[i]));
                    }
                }
                if alike(plain(a), plain(b)) {
                    assert forall|i: int| 0 <= i < x.len() implies json_same(
                        #[trigger] x[i],
                        y[i],
                    ) by {
                        assert(alike(px[i], py[i]));
                    }
                }
            }
        },
        (Json::Object(x), Json::Object(y)) => {
            let n = x.len() as int;
            let px = plain_members(x, n);
            let py = plain_members(y, y.len() as int);
            lemma_members_mean(x, n);
            lemma_members_mean(y, y.len() as int);
            lemma_members_same(x, y, n);
            assert forall|i: int| 0 <= i < n implies (match member_of(
                y,
                y.len() as int,
                (#[trigger] x[i]).0,
            ) {
                Some(v) => json_same(x[i].1, v),
                None => false,
            }) == (py.contains_key(x[i].0) && alike(px[x[i].0], py[x[i].0])) by {
                lemma_only_member(y, x[i].0);
                match member_of(y, y.len() as int, x[i].0) {
                    Some(v) => {
                        let j = choose|j: int|
                            0 <= j < y.len() && (#[trigger] y[j]) == (x[i].0, v);
                        assert(tidy(y[j].1));
                        assert(decreases_to!(a => a->Object_0));
                        assert(decreases_to!(x => x[i]));
                        assert(decreases_to!(x[i] => x[i].1));
                        law_same_values_stand_for_the_same_data(x[i].1, v);
                    },
                    None => {},
                }
            }
            if json_same(a, b) {
                assert(px.dom().subset_of(py.dom())) by {
                    assert forall|k: Seq<char>| px.dom().contains(k) implies py.dom().contains(
                        k,
                    ) by {
                        assert(px.contains_key(k));
                        let i = choose|i: int| 0 <= i < n && (#[trigger] x[i]).0 == k;
                        assert(py.contains_key(x[i].0));
                    }
                }
                vstd::set_lib::lemma_subset_equality(px.dom(), py.dom());
                assert forall|k: Seq<char>| #[trigger] px.contains_key(k) implies alike(
                    px[k],
                    py[k],
                ) by {
                    let i = choose|i: int| 0 <= i < n && (#[trigger] x[i]).0 == k;
                    assert(alike(px[x[i].0], py[x[i].0]));
                }
            }
            if alike(plain(a), plain(b)) {
                assert forall|i: int| 0 <= i < n implies (match member_of(
                    y,
                    y.len() as int,
                    (#[trigger] x[i]).0,
                ) {
                    Some(v) => json_same(x[i].1, v),
                    None => false,
                }) by {
                    assert(px.contains_key(x[i].0));
                    assert(py.dom().contains(x[i].0));
                }
            }
        },
        _ => {},
    }
}

/// Reading as the first members is reading as each of them.
proof fn lemma_members_read(m: Map<Seq<char>, Shape>, members: Seq<(Seq<char>, Json)>, n: int)
    requires
        0 <= n <= members.len(),
    ensures
        members_read(m, members, n) == (forall|i: int|
            0 <= i < n ==> m.contains_key((#[trigger] members[i]).0) && reads_as(
                m[members[i].0],
                members[i].1,
            )),
    decreases n,
{
    if n > 0 {
        lemma_members_read(m, members, n - 1);
    }
}

/// A value condition is met exactly where the data, as a reader sees it, is the expected
/// value.
pub proof fn law_condition_is_equality(n: Shape, v: Json)
    requires
        tidy(v),
        tidy_node(n),
    ensures
        reads_as(n, v) == alike(seen(n), plain(v)),
    decreases v,
{
    match v {
        Json::Array(items) => {
            if n is Array {
                law_same_values_stand_for_the_same_data(Json::Array(n->Array_0), v);
            }
        },
        Json::Object(members) => {
            if n is Object {
                let m = n->Object_0;
                let len = members.len() as int;
                let pm = plain_members(members, len);
                let sm = seen(n)->Object_0;
                lemma_members_mean(members, len);
                lemma_members_read(m, members, len);
                assert forall|i: int|
                    0 <= i < len && m.contains_key((#[trigger] members[i]).0) implies reads_as(
                    m[members[i].0],
                    members[i].1,
                ) == alike(sm[members[i].0], pm[members[i].0]) by {
                    assert(decreases_to!(v => v->Object_0));
                    assert(decreases_to!(members => members[i]));
                    assert(decreases_to!(members[i] => members[i].1));
                    assert(m.contains_key(members[i].0));
                    law_condition_is_equality(m[members[i].0], members[i].1);
                }
                if reads_as(n, v) {
                    assert(sm.dom() =~= pm.dom()) by {
                        assert forall|k: Seq<char>| sm.dom().contains(k) == pm.dom().contains(
                            k,
                        ) by {
                            if m.contains_key(k) {
                                assert(value::has_key(members, k));
                                let i = choose|i: int|
                                    0 <= i < members.len() && (#[trigger] members[i]).0 == k;
                                assert(pm.contains_key(members[i].0));
                            }
                            if pm.contains_key(k) {
                                let i = choose|i: int| 0 <= i < len && (#[trigger] members[i]).0 == k;
                                assert(m.contains_key(members[i].0));
                            }
                        }
                    }
                    assert forall|k: Seq<char>| #[trigger] sm.contains_key(k) implies alike(
                        sm[k],
                        pm[k],
                    ) by {
                        assert(pm.contains_key(k));
                        let i = choose|i: int| 0 <= i < len && (#[trigger] members[i]).0 == k;
                        assert(m.contains_key(members[i].0));
                    }
                }
                if alike(seen(n), plain(v)) {
                    assert forall|k: Seq<char>| m.contains_key(k) implies #[trigger] value::has_key(
                        members,
                        k,
                    ) by {
                        assert(sm.dom().contains(k));
                        assert(pm.contains_key(k));
                        let i = choose|i: int| 0 <= i < len && (#[trigger] members[i]).0 == k;
                        assert(members[i].0 == k);
                    }
                    assert forall|i: int| 0 <= i < len implies m.contains_key(
                        (#[trigger] members[i]).0,
                    ) && reads_as(m[members[i].0], members[i].1) by {
                        assert(pm.dom().contains(members[i].0));
                        assert(sm.contains_key(members[i].0));
                    }
                }
            }
        },
        _ => {},
    }
}

/// A value condition without numbers is met exactly where the data reads as that value.
pub proof fn law_condition_without_numbers_is_exact(n: Shape, v: Json)
    requires
        tidy(v),
        tidy_node(n),
        numberless(plain(v)) || numberless(seen(n)),
    ensures
        reads_as(n, v) == (seen(n) == plain(v)),
{
    law_condition_is_equality(n, v);
    if numberless(seen(n)) {
        lemma_alike_is_equal(seen(n), plain(v));
    } else if alike(seen(n), plain(v)) {
        lemma_alike_to_numberless(seen(n), plain(v));
    }
}

/// What is alike to data without numbers has none.
proof fn lemma_alike_to_numberless(a: Plain, b: Plain)
    requires
        numberless(b),
        alike(a, b),
    ensures
        numberless(a),
        a == b,
    decreases a,
{
    match (a, b) {
        (Plain::Array(x), Plain::Array(y)) => {
            assert forall|i: int| 0 <= i < x.len() implies numberless(#[trigger] x[i]) && x[i]
                == y[i] by {
                assert(decreases_to!(a => a->Array_0));
                assert(decreases_to!(x => x[i]));
                assert(numberless(y[i]));
                lemma_alike_to_numberless(x[i], y[i]);
            }
            assert(x =~= y);
        },
        (Plain::Object(x), Plain::Object(y)) => {
            assert forall|k: Seq<char>| #[trigger] x.contains_key(k) implies numberless(x[k])
                && x[k] == y[k] by {
                assert(decreases_to!(a => a->Object_0[k]));
                assert(y.dom().contains(k));
                assert(numberless(y[k]));
                lemma_alike_to_numberless(x[k], y[k]);
            }
            assert(x =~= y);
        },
        _ => {},
    }
}

/// Whether two pieces of data are the same apart from their numbers.
pub open spec fn same_but_numbers(a: Plain, b: Plain) -> bool
    decreases a,
{
    match (a, b) {
        (Plain::Number(_), Plain::Number(_)) => true,
        (Plain::Array(x), Plain::Array(y)) => x.len() == y.len() && forall|i: int|
            0 <= i < x.len() ==> same_but_numbers(#[trigger] x[i], y[i]),
        (Plain::Object(x), Plain::Object(y)) => x.dom() == y.dom() && forall|k: Seq<char>|
            #[trigger] x.contains_key(k) ==> same_but_numbers(x[k], y[k]),
        _ => a == b,
    }
}

/// Data that is alike to one piece of data is the same apart from numbers.
proof fn lemma_alike_to_one(s: Plain, a: Plain, b: Plain)
    requires
        alike(s, a),
        alike(s, b),
    ensures
        same_but_numbers(a, b),
    decreases s,
{
    match (s, a, b) {
        (Plain::Array(z), Plain::Array(x), Plain::Array(y)) => {
            assert forall|i: int| 0 <= i < x.len() implies same_but_numbers(
                #[trigger] x[i],
                y[i],
            ) by {
                assert(decreases_to!(s => s->Array_0));
                assert(decreases_to!(z => z[i]));
                lemma_alike_to_one(z[i], x[i], y[i]);
            }
        },
        (Plain::Object(z), Plain::Object(x), Plain::Object(y)) => {
            assert forall|k: Seq<char>| #[trigger] x.contains_key(k) implies same_but_numbers(
                x[k],
                y[k],
            ) by {
                assert(z.dom().contains(k));
                assert(z.contains_key(k));
                assert(decreases_to!(s => s->Object_0[k]));
                lemma_alike_to_one(z[k], x[k], y[k]);
            }
        },
        _ => {},
    }
}

/// One place does not meet two conditions that differ in more than a number: where one
/// value is expected and found, another text, another boolean or another key is not.
pub proof fn law_conditions_exclude_each_other(n: Shape, v: Json, w: Json)
    requires
        tidy(v),
        tidy(w),
        tidy_node(n),
        reads_as(n, v),
        reads_as(n, w),
    ensures
        same_but_numbers(plain(v), plain(w)),
{
    law_condition_is_equality(n, v);
    law_condition_is_equality(n, w);
    lemma_alike_to_one(seen(n), plain(v), plain(w));
}

/// Whether a value holds no null that a write leaves out: it is not null, and neither is a
/// member of an object in it. What stands in arrays is kept as it is.
pub open spec fn is_whole(v: Json) -> bool
    decreases v,
{
    match v {
        Json::Null => false,
        Json::Object(members) => whole_members(members),
        _ => true,
    }
}

/// Whether all members are whole.
pub open spec fn whole_members(members: Seq<(Seq<char>, Json)>) -> bool
    decreases members,
{
    forall|i: int| 0 <= i < members.len() ==> is_whole((#[trigger] members[i]).1)
}

/// The children that the first members stand for where no key occurs twice.
proof fn lemma_written_members(members: Seq<(Seq<char>, Json)>, n: int)
    requires
        keys_differ(members),
        0 <= n <= members.len(),
    ensures
        forall|i: int|
            0 <= i < n && !((#[trigger] members[i]).1 is Null) ==> value::cleaned_members(
                members,
                n,
            ).contains_key(members[i].0) && value::cleaned_members(members, n)[members[i].0]
                == value::cleaned(members[i].1),
        forall|k: Seq<char>| #[trigger]
            value::cleaned_members(members, n).contains_key(k) ==> exists|i: int|
                0 <= i < n && (#[trigger] members[i]).0 == k && !(members[i].1 is Null),
    decreases n,
{
    if n > 0 {
        lemma_written_members(members, n - 1);
        let before = value::cleaned_members(members, n - 1);
        let after = value::cleaned_members(members, n);
        let last = members[n - 1];
        assert forall|i: int| 0 <= i < n && !((#[trigger] members[i]).1 is Null) implies
            after.contains_key(members[i].0) && after[members[i].0] == value::cleaned(
            members[i].1,
        ) by {
            if i < n - 1 {
                assert(members[i].0 != members[n - 1].0);
            }
        }
        assert forall|k: Seq<char>| #[trigger] after.contains_key(k) implies exists|i: int|
            0 <= i < n && (#[trigger] members[i]).0 == k && !(members[i].1 is Null) by {
            if !(last.1 is Null) && k == last.0 {
                assert(members[n - 1].0 == k);
            } else {
                assert(before.contains_key(k));
                let i = choose|i: int|
                    0 <= i < n - 1 && (#[trigger] members[i]).0 == k && !(members[i].1 is Null);
                assert(members[i].0 == k);
            }
        }
    }
}

/// A written scalar reads as that scalar: a boolean, a number, a text; and an array as that
/// array.
pub proof fn law_written_leaf_is_read_back(v: Json)
    ensures
        v matches Json::Bool(b) ==> seen(value::cleaned(v)) == Plain::Bool(b),
        v matches Json::Number(x) ==> seen(value::cleaned(v)) == Plain::Number(x),
        v matches Json::String(s) ==> seen(value::cleaned(v)) == Plain::String(s),
        v matches Json::Array(items) ==> {
            &&& seen(value::cleaned(v)) is Array
            &&& seen(value::cleaned(v))->Array_0.len() == items.len()
            &&& forall|i: int|
                0 <= i < items.len() ==> #[trigger] seen(value::cleaned(v))->Array_0[i] == plain(
                    items[i],
                )
        },
        value::cleaned(v) is Null == v is Null,
{
}

/// A written object has exactly the members that are not null, and each reads as what was
/// written under its key.
pub proof fn law_written_object_is_read_back(members: Seq<(Seq<char>, Json)>, k: Seq<char>)
    requires
        keys_differ(members),
    ensures
        ({
            let r = seen(value::cleaned(Json::Object(members)));
            &&& r is Object
            &&& r->Object_0.contains_key(k) <==> exists|i: int|
                0 <= i < members.len() && (#[trigger] members[i]).0 == k && !(members[i].1 is Null)
            &&& forall|i: int|
                0 <= i < members.len() && (#[trigger] members[i]).0 == k && !(
                members[i].1 is Null) ==> r->Object_0[k] == seen(value::cleaned(members[i].1))
        }),
{
    let n = members.len() as int;
    lemma_written_members(members, n);
    let m = value::cleaned_members(members, n);
    if exists|i: int| 0 <= i < n && (#[trigger] members[i]).0 == k && !(members[i].1 is Null) {
        let i = choose|i: int|
            0 <= i < n && (#[trigger] members[i]).0 == k && !(members[i].1 is Null);
        assert(m.contains_key(members[i].0));
    }
}

/// What is written is what is read: a value without nulls in its objects reads as itself.
pub proof fn law_written_value_is_read_back(v: Json)
    requires
        tidy(v),
        is_whole(v),
    ensures
        seen(value::cleaned(v)) == plain(v),
    decreases v,
{
    if let Json::Object(members) = v {
        let n = members.len() as int;
        let m = value::cleaned_members(members, n);
        let pm = plain_members(members, n);
        let sm = seen(value::cleaned(v))->Object_0;
        lemma_written_members(members, n);
        lemma_members_mean(members, n);
        assert forall|k: Seq<char>| sm.contains_key(k) == pm.contains_key(k) by {
            if m.contains_key(k) {
                let i = choose|i: int|
                    0 <= i < n && (#[trigger] members[i]).0 == k && !(members[i].1 is Null);
                assert(pm.contains_key(members[i].0));
            }
            if pm.contains_key(k) {
                let i = choose|i: int| 0 <= i < n && (#[trigger] members[i]).0 == k;
                assert(is_whole(members[i].1));
                assert(m.contains_key(members[i].0));
            }
        }
        assert forall|k: Seq<char>| sm.contains_key(k) implies sm[k] == pm[k] by {
            assert(pm.contains_key(k));
            let i = choose|i: int| 0 <= i < n && (#[trigger] members[i]).0 == k;
            assert(is_whole(members[i].1));
            assert(tidy(members[i].1));
            assert(decreases_to!(v => v->Object_0));
            assert(decreases_to!(members => members[i]));
            assert(decreases_to!(members[i] => members[i].1));
            law_written_value_is_read_back(members[i].1);
        }
        assert(sm =~= pm);
    }
}

/// A value keeps its data in plain form: scalars are themselves, an array has its elements
/// in order, and an object has exactly its keys, each with its member.
pub proof fn law_plain_form_keeps_the_data(v: Json)
    requires
        tidy(v),
    ensures
        match v {
            Json::Null => plain(v) == Plain::Null,
            Json::Bool(b) => plain(v) == Plain::Bool(b),
            Json::Number(x) => plain(v) == Plain::Number(x),
            Json::String(s) => plain(v) == Plain::String(s),
            Json::Array(items) => plain(v) matches Plain::Array(x) && x.len() == items.len()
                && forall|i: int| 0 <= i < items.len() ==> #[trigger] x[i] == plain(items[i]),
            Json::Object(members) => plain(v) matches Plain::Object(x) && x.dom().len()
                == members.len() && forall|i: int|
                0 <= i < members.len() ==> x.contains_key((#[trigger] members[i]).0)
                    && x[members[i].0] == plain(members[i].1),
        },
{
    if let Json::Object(members) = v {
        lemma_members_mean(members, members.len() as int);
    }
}

/// What is not loaded reads as null, and what is loaded reads as what it is.
pub proof fn law_readers_see_what_is_loaded(n: Shape)
    ensures
        n is Sentinel || n is Null <==> seen(n) is Null,
        n matches Shape::Bool(b) ==> seen(n) == Plain::Bool(b),
        n matches Shape::Number(x) ==> seen(n) == Plain::Number(x),
        n matches Shape::String(s) ==> seen(n) == Plain::String(s),
        n matches Shape::Object(m) ==> {
            &&& seen(n) is Object
            &&& seen(n)->Object_0.dom() =~= m.dom()
            &&& forall|k: Seq<char>| #[trigger]
                m.contains_key(k) ==> seen(n)->Object_0[k] == seen(m[k])
        },
{
}

} // verus!
