//! The way between the library's values and those of `serde_json`.
use crate::plain;
use crate::plain::Plain;
use crate::value;
use crate::value::{Member, JsonValue};
use vstd::prelude::*;

verus! {

/// A JSON value of `serde_json`.
#[verifier::external_type_specification]
#[verifier::external_body]
pub struct ExSerdeValue(serde_json::Value);

/// The members of a JSON object of `serde_json`.
#[verifier::external_type_specification]
#[verifier::external_body]
#[verifier::reject_recursive_types(K)]
#[verifier::reject_recursive_types(V)]
pub struct ExSerdeMap<K, V>(serde_json::Map<K, V>);

/// The data that a value of `serde_json` holds.
pub uninterp spec fn held_json(v: serde_json::Value) -> Plain;

/// The data that the members of an object of `serde_json` hold.
pub uninterp spec fn held_members(
    m: serde_json::Map<String, serde_json::Value>,
) -> Map<Seq<char>, Plain>;

/// A value of `serde_json`, opened by one level.
pub enum Opened {
    Null,
    Bool(bool),
    Number(serde_json::Number),
    String(String),
    Array(Vec<serde_json::Value>),
    Object(serde_json::Map<String, serde_json::Value>),
}

/// The first `n` listed members, later ones in place of earlier ones.
pub open spec fn listed_members(
    entries: Seq<(String, serde_json::Value)>,
    n: int,
) -> Map<Seq<char>, Plain>
    decreases n,
{
    if n <= 0 || n > entries.len() {
        Map::empty()
    } else {
        listed_members(entries, n - 1).insert(entries[n - 1].0@, held_json(entries[n - 1].1))
    }
}

/// The data of an opened value.
pub open spec fn opened_data(o: Opened) -> Plain {
    match o {
        Opened::Null => Plain::Null,
        Opened::Bool(b) => Plain::Bool(b),
        Opened::Number(n) => Plain::Number(n),
        Opened::String(s) => Plain::String(s@),
        Opened::Array(items) => Plain::Array(
            Seq::new(items@.len(), |i: int| held_json(items@[i])),
        ),
        Opened::Object(m) => Plain::Object(held_members(m)),
    }
}

/// Whether no key is listed twice.
pub open spec fn keys_distinct(entries: Seq<(String, serde_json::Value)>) -> bool {
    forall|i: int, j: int|
        0 <= i < j < entries.len() ==> (#[trigger] entries[i]).0@ != (#[trigger] entries[j]).0@
}

/// Opens a `serde_json::Value`: its variants hold what the opened value shows.
#[verifier::external_body]
fn open_json(v: serde_json::Value) -> (r: Opened)
    ensures
        opened_data(r) == held_json(v),
{
    match v {
        serde_json::Value::Null => Opened::Null,
        serde_json::Value::Bool(b) => Opened::Bool(b),
        serde_json::Value::Number(n) => Opened::Number(n),
        serde_json::Value::String(s) => Opened::String(s),
        serde_json::Value::Array(items) => Opened::Array(items),
        serde_json::Value::Object(members) => Opened::Object(members),
    }
}

/// Makes a `serde_json::Value` whose variant holds what the opened value shows.
#[verifier::external_body]
fn close_json(o: Opened) -> (r: serde_json::Value)
    ensures
        held_json(r) == opened_data(o),
{
    match o {
        Opened::Null => serde_json::Value::Null,
        Opened::Bool(b) => serde_json::Value::Bool(b),
        Opened::Number(n) => serde_json::Value::Number(n),
        Opened::String(s) => serde_json::Value::String(s),
        Opened::Array(items) => serde_json::Value::Array(items),
        Opened::Object(members) => serde_json::Value::Object(members),
    }
}

/// `serde_json::Map::new`: no members.
#[verifier::external_body]
fn no_members() -> (r: serde_json::Map<String, serde_json::Value>)
    ensures
        (held_members(r) == Map::<Seq<char>, Plain>::empty()),
{
    serde_json::Map::new()
}

/// `serde_json::Map::insert`: the key gets the value, in place of one that it had; the
/// other members stay.
#[verifier::external_body]
fn put_member(
    m: &mut serde_json::Map<String, serde_json::Value>,
    key: String,
    value: serde_json::Value,
)
    ensures
        held_members(*final(m)) == held_members(*old(m)).insert(key@, held_json(value)),
{
    m.insert(key, value);
}

/// `serde_json::Map::into_iter`: every member once. The order in which they come is left
/// open.
#[verifier::external_body]
fn list_members(
    m: serde_json::Map<String, serde_json::Value>,
) -> (r: Vec<(String, serde_json::Value)>)
    ensures
        keys_distinct(r@),
        listed_members(r@, r@.len() as int) == held_members(m),
{
    m.into_iter().collect()
}

/// Names how `serde_json` shows a value to a developer.
pub uninterp spec fn value_debug(v: Plain) -> Seq<char>;

/// The `Debug` form of a `serde_json::Value`: the members of objects come in key order,
/// so that the text depends on the data alone.
#[verifier::external_body]
fn debug_value(v: &serde_json::Value) -> (r: String)
    ensures
        r@ == value_debug(held_json(*v)),
{
    format!("{:?}", v)
}

/// Names how `serde_json` shows the members of an object to a developer.
pub uninterp spec fn members_debug(v: Plain) -> Seq<char>;

/// The `Debug` form of the `serde_json::Map` in an object: the members come in key order,
/// so that the text depends on the data alone.
#[verifier::external_body]
fn debug_members(v: &serde_json::Value) -> (r: String)
    requires
        held_json(*v) is Object,
    ensures
        r@ == members_debug(held_json(*v)),
{
    match v {
        serde_json::Value::Object(map) => format!("{:?}", map),
        other => format!("{:?}", other),
    }
}

/// How a value is shown to a developer.
pub fn show_value(v: &JsonValue) -> (r: String)
    ensures
        r@ == value_debug(plain::plain(v@)),
{
    debug_value(&export_json(v))
}

/// How members are shown to a developer.
pub fn show_members(members: Vec<Member>) -> (r: String)
    ensures
        r@ == members_debug(plain::plain(value::Json::Object(value::members_json(members@)))),
{
    debug_members(&export_json(&JsonValue::Object(members)))
}

/// A listed member is the one that counts when its key is listed once.
proof fn lemma_listed_at(entries: Seq<(String, serde_json::Value)>, n: int, i: int)
    requires
        keys_distinct(entries),
        0 <= i < n <= entries.len(),
    ensures
        listed_members(entries, n).contains_key(entries[i].0@),
        listed_members(entries, n)[entries[i].0@] == held_json(entries[i].1),
    decreases n,
{
    if i < n - 1 {
        lemma_listed_at(entries, n - 1, i);
        assert(entries[i].0@ != entries[n - 1].0@);
    }
}

/// A value of `serde_json` as a value of the library.
pub fn import_json(v: serde_json::Value) -> (r: JsonValue)
    ensures
        plain::plain(r@) == held_json(v),
    decreases held_json(v), 1int,
{
    let ghost data = held_json(v);
    match open_json(v) {
        Opened::Null => JsonValue::Null,
        Opened::Bool(b) => JsonValue::Bool(b),
        Opened::Number(n) => JsonValue::Number(n),
        Opened::String(s) => JsonValue::String(s),
        Opened::Array(items) => {
            assert forall|i: int| 0 <= i < items@.len() implies decreases_to!(
                data => held_json(#[trigger] items@[i])
            ) by {
                assert(data->Array_0[i] == held_json(items@[i]));
                assert(decreases_to!(data->Array_0 => data->Array_0[i]));
                assert(decreases_to!(data => data->Array_0));
            }
            let out = import_items(items, Ghost(data));
            assert forall|i: int| 0 <= i < out@.len() implies plain::plain(
                #[trigger] value::items_json(out@)[i],
            ) == data->Array_0[i] by {
                assert(value::items_json(out@)[i] == out@[i]@);
            }
            assert(plain::plain_items(value::items_json(out@)) =~= data->Array_0);
            JsonValue::Array(out)
        },
        Opened::Object(members) => {
            let entries = list_members(members);
            assert forall|i: int| 0 <= i < entries@.len() implies decreases_to!(
                data => held_json((#[trigger] entries@[i]).1)
            ) by {
                lemma_listed_at(entries@, entries@.len() as int, i);
                let k = entries@[i].0@;
                assert(data->Object_0[k] == held_json(entries@[i].1));
                assert(decreases_to!(data => data->Object_0[k]));
            }
            let out = import_entries(entries, Ghost(data));
            JsonValue::Object(out)
        },
    }
}

/// The elements of an array as values of the library.
fn import_items(items: Vec<serde_json::Value>, Ghost(whole): Ghost<Plain>) -> (r: Vec<JsonValue>)
    requires
        forall|i: int|
            0 <= i < items@.len() ==> decreases_to!(whole => held_json(#[trigger] items@[i])),
    ensures
        r@.len() == items@.len(),
        forall|i: int| 0 <= i < r@.len() ==> plain::plain(#[trigger] r@[i]@) == held_json(items@[i]),
    decreases whole, 0int,
{
    let ghost all = items@;
    let mut rest = items;
    let mut back: Vec<JsonValue> = Vec::new();
    assert(all.take(all.len() as int) =~= all);
    while rest.len() > 0
        invariant
            rest@ == all.take(rest@.len() as int),
            rest@.len() + back@.len() == all.len(),
            forall|i: int|
                0 <= i < all.len() ==> decreases_to!(whole => held_json(#[trigger] all[i])),
            forall|i: int|
                0 <= i < back@.len() ==> plain::plain(#[trigger] back@[i]@) == held_json(
                    all[all.len() - 1 - i],
                ),
        decreases rest@.len(),
    {
        let ghost n = rest@.len() as int;
        match rest.pop() {
            Some(x) => {
                assert(x == all[n - 1]);
                assert(rest@ =~= all.take(n - 1));
                let v = import_json(x);
                back.push(v);
            },
            None => {},
        }
    }
    let mut out: Vec<JsonValue> = Vec::new();
    while back.len() > 0
        invariant
            out@.len() + back@.len() == all.len(),
            forall|i: int|
                0 <= i < back@.len() ==> plain::plain(#[trigger] back@[i]@) == held_json(
                    all[all.len() - 1 - i],
                ),
            forall|i: int|
                0 <= i < out@.len() ==> plain::plain(#[trigger] out@[i]@) == held_json(all[i]),
        decreases back@.len(),
    {
        let ghost before = back@;
        match back.pop() {
            Some(v) => {
                assert(v == before[before.len() - 1]);
                out.push(v);
            },
            None => {},
        }
    }
    out
}

/// The members of an object as members of the library.
fn import_entries(
    entries: Vec<(String, serde_json::Value)>,
    Ghost(whole): Ghost<Plain>,
) -> (r: Vec<Member>)
    requires
        forall|i: int|
            0 <= i < entries@.len() ==> decreases_to!(
                whole => held_json((#[trigger] entries@[i]).1)
            ),
    ensures
        plain::plain_members(value::members_json(r@), r@.len() as int) == listed_members(
            entries@,
            entries@.len() as int,
        ),
    decreases whole, 0int,
{
    let ghost all = entries@;
    let mut rest = entries;
    let mut back: Vec<Member> = Vec::new();
    assert(all.take(all.len() as int) =~= all);
    while rest.len() > 0
        invariant
            rest@ == all.take(rest@.len() as int),
            rest@.len() + back@.len() == all.len(),
            forall|i: int|
                0 <= i < all.len() ==> decreases_to!(whole => held_json((#[trigger] all[i]).1)),
            forall|i: int|
                0 <= i < back@.len() ==> (#[trigger] back@[i]).key@ == all[all.len() - 1 - i].0@
                    && plain::plain(back@[i].value@) == held_json(all[all.len() - 1 - i].1),
        decreases rest@.len(),
    {
        let ghost n = rest@.len() as int;
        match rest.pop() {
            Some((key, x)) => {
                assert((key, x) == all[n - 1]);
                assert(rest@ =~= all.take(n - 1));
                let v = import_json(x);
                back.push(Member { key, value: v });
            },
            None => {},
        }
    }
    let mut out: Vec<Member> = Vec::new();
    while back.len() > 0
        invariant
            out@.len() + back@.len() == all.len(),
            forall|i: int|
                0 <= i < back@.len() ==> (#[trigger] back@[i]).key@ == all[all.len() - 1 - i].0@
                    && plain::plain(back@[i].value@) == held_json(all[all.len() - 1 - i].1),
            forall|i: int|
                0 <= i < out@.len() ==> (#[trigger] out@[i]).key@ == all[i].0@ && plain::plain(
                    out@[i].value@,
                ) == held_json(all[i].1),
        decreases back@.len(),
    {
        let ghost before = back@;
        match back.pop() {
            Some(m) => {
                assert(m == before[before.len() - 1]);
                out.push(m);
            },
            None => {},
        }
    }
    proof {
        lemma_members_alike(out@, all, out@.len() as int);
    }
    out
}

/// Members that hold the same data one by one hold the same data together.
proof fn lemma_members_alike(
    ms: Seq<Member>,
    entries: Seq<(String, serde_json::Value)>,
    n: int,
)
    requires
        ms.len() == entries.len(),
        0 <= n <= ms.len(),
        forall|i: int|
            0 <= i < ms.len() ==> (#[trigger] ms[i]).key@ == entries[i].0@ && plain::plain(
                ms[i].value@,
            ) == held_json(entries[i].1),
    ensures
        plain::plain_members(value::members_json(ms), n) == listed_members(entries, n),
    decreases n,
{
    if n > 0 {
        lemma_members_alike(ms, entries, n - 1);
        assert(ms[n - 1].key@ == entries[n - 1].0@);
        assert(value::members_json(ms)[n - 1] == (ms[n - 1].key@, ms[n - 1].value@));
    }
}

/// A value of the library as a value of `serde_json`.
pub fn export_json(v: &JsonValue) -> (r: serde_json::Value)
    ensures
        held_json(r) == plain::plain(v@),
    decreases v,
{
    match v {
        JsonValue::Null => close_json(Opened::Null),
        JsonValue::Bool(b) => close_json(Opened::Bool(*b)),
        JsonValue::Number(n) => close_json(Opened::Number(n.clone())),
        JsonValue::String(s) => close_json(Opened::String(s.clone())),
        JsonValue::Array(items) => {
            let mut out: Vec<serde_json::Value> = Vec::new();
            let mut i: usize = 0;
            while i < items.len()
                invariant
                    i <= items@.len(),
                    *v == JsonValue::Array(*items),
                    out@.len() == i,
                    forall|j: int|
                        0 <= j < i ==> held_json(#[trigger] out@[j]) == plain::plain(items@[j]@),
                decreases items@.len() - i,
            {
                assert(decreases_to!(*v => v->Array_0));
                assert(decreases_to!(v->Array_0 => v->Array_0@));
                assert(decreases_to!(items@ => items@[i as int]));
                out.push(export_json(&items[i]));
                i = i + 1;
            }
            assert(v@->Array_0 == value::items_json(items@));
            assert(Seq::new(out@.len(), |k: int| held_json(out@[k])) =~= plain::plain_items(
                value::items_json(items@),
            ));
            close_json(Opened::Array(out))
        },
        JsonValue::Object(members) => {
            let mut out = no_members();
            let ghost ms = value::members_json(members@);
            let mut i: usize = 0;
            while i < members.len()
                invariant
                    i <= members@.len(),
                    *v == JsonValue::Object(*members),
                    ms == value::members_json(members@),
                    held_members(out) == plain::plain_members(ms, i as int),
                decreases members@.len() - i,
            {
                assert(decreases_to!(*v => v->Object_0));
                assert(decreases_to!(v->Object_0 => v->Object_0@));
                assert(decreases_to!(members@ => members@[i as int]));
                assert(decreases_to!(members@[i as int] => members@[i as int].value));
                let x = export_json(&members[i].value);
                assert(ms[i as int] == (members@[i as int].key@, members@[i as int].value@));
                put_member(&mut out, members[i].key.clone(), x);
                i = i + 1;
            }
            close_json(Opened::Object(out))
        },
    }
}

} // verus!
