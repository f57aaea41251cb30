//! How large the children of a one-level read are, as far as that is known without
//! loading them.
use crate::node::cleaned_node;
use crate::path;
use crate::path::Path;
use crate::promotion::ShallowChild;
use crate::replay;
use crate::replay::{Edit, Entry, WalOp};
use crate::size;
use crate::size::estimate_node_bytes;
use crate::text::same_text;
use crate::value;
use crate::value::{Json, JsonValue, Member};
use crate::wal;
use crate::wal::WalEntry;
use vstd::prelude::*;

verus! {

/// The size of a child.
pub struct SizeNote {
    pub key: String,
    pub size: u64,
}

impl View for SizeNote {
    type V = (Seq<char>, nat);

    open spec fn view(&self) -> (Seq<char>, nat) {
        (self.key@, self.size as nat)
    }
}

/// What a list of sizes means.
pub open spec fn notes(s: Seq<SizeNote>) -> Seq<(Seq<char>, nat)> {
    s.map_values(|n: SizeNote| n@)
}

/// The last size noted for a child; zero where none is.
pub open spec fn noted_size(s: Seq<(Seq<char>, nat)>, k: Seq<char>) -> nat
    decreases s.len(),
{
    if s.len() == 0 {
        0
    } else if s.last().0 == k {
        s.last().1
    } else {
        noted_size(s.drop_last(), k)
    }
}

/// The sizes that the blob gives for the children it lists; a leaf has none.
pub open spec fn listed_sizes(s: Seq<ShallowChild>) -> Seq<(Seq<char>, nat)> {
    s.map_values(
        |c: ShallowChild|
            (
                c.key@,
                if c.value is None {
                    c.size as nat
                } else {
                    0
                },
            ),
    )
}

/// Whether a path lies one level below another.
pub open spec fn is_child_of(q: Seq<Seq<char>>, p: Seq<Seq<char>>) -> bool {
    q.len() == p.len() + 1 && path::is_prefix(p, q)
}

/// The sizes of the children at `p` after something was written at `q`. Whatever is
/// written at a child or above takes away what was known.
pub open spec fn after_write_at(
    s: Seq<(Seq<char>, nat)>,
    q: Seq<Seq<char>>,
    p: Seq<Seq<char>>,
) -> Seq<(Seq<char>, nat)> {
    if path::is_prefix(q, p) {
        Seq::empty()
    } else if is_child_of(q, p) {
        s.push((q.last(), 0))
    } else {
        s
    }
}

/// The sizes of the children at `p` after the first `n` steps of a write.
pub open spec fn after_edits(
    s: Seq<(Seq<char>, nat)>,
    edits: Seq<Edit>,
    n: int,
    p: Seq<Seq<char>>,
) -> Seq<(Seq<char>, nat)>
    decreases n,
{
    if n <= 0 || n > edits.len() {
        s
    } else {
        after_write_at(after_edits(s, edits, n - 1, p), edits[n - 1].path, p)
    }
}

/// The sizes of the children at `p` after a logged write. A merge at a child notes the
/// size of what is merged.
pub open spec fn after_entry(
    s: Seq<(Seq<char>, nat)>,
    e: Entry,
    p: Seq<Seq<char>>,
) -> Seq<(Seq<char>, nat)> {
    match (e.op, e.value) {
        (WalOp::Update, Some(Json::Object(members))) if is_child_of(e.path, p) => s.push(
            (
                e.path.last(),
                value::held(size::shape_size(value::cleaned(Json::Object(members)))) as nat,
            ),
        ),
        _ => after_edits(
            s,
            replay::entry_edits(e),
            replay::entry_edits(e).len() as int,
            p,
        ),
    }
}

/// The sizes of the children at `p` after a log of writes.
pub open spec fn after_log(
    s: Seq<(Seq<char>, nat)>,
    entries: Seq<Entry>,
    p: Seq<Seq<char>>,
) -> Seq<(Seq<char>, nat)>
    decreases entries.len(),
{
    if entries.len() == 0 {
        s
    } else {
        after_entry(after_log(s, entries.drop_last(), p), entries.last(), p)
    }
}

/// The last size noted for a child.
pub fn size_of(list: &Vec<SizeNote>, k: &str) -> (r: u64)
    ensures
        r == noted_size(notes(list@), k@),
{
    let ghost s = notes(list@);
    let mut i: usize = list.len();
    assert(s.take(i as int) =~= s);
    while i > 0
        invariant
            i <= list@.len(),
            s == notes(list@),
            noted_size(s, k@) == noted_size(s.take(i as int), k@),
        decreases i,
    {
        let n = &list[i - 1];
        assert(s.take(i as int).last() == n@);
        assert(s.take(i as int).drop_last() =~= s.take(i - 1));
        if same_text(n.key.as_str(), k) {
            return n.size;
        }
        i = i - 1;
    }
    0
}

/// Notes a size.
fn note(list: &mut Vec<SizeNote>, key: &str, size: u64)
    ensures
        notes(final(list)@) == notes(old(list)@).push((key@, size as nat)),
{
    let n = SizeNote { key: key.to_owned(), size };
    list.push(n);
    assert(notes(list@) =~= notes(old(list)@).push((key@, size as nat)));
}

/// Whether a path lies one level below another.
fn lies_under(q: &Path, p: &Path) -> (r: bool)
    ensures
        r == is_child_of(q@, p@),
{
    q.segments.len() > 0 && q.segments.len() - 1 == p.segments.len() && p.leads_to(q)
}

/// Takes in that something was written at `q`.
fn note_write(list: &mut Vec<SizeNote>, q: &Path, p: &Path)
    ensures
        notes(final(list)@) == after_write_at(notes(old(list)@), q@, p@),
{
    if q.leads_to(p) {
        list.clear();
        assert(notes(list@) =~= Seq::empty());
    } else if lies_under(q, p) {
        let last: usize = q.segments.len() - 1;
        note(list, q.segments[last].as_str(), 0);
    }
}

/// Takes in the steps of a merge.
fn note_merge(list: &mut Vec<SizeNote>, base: &Path, members: &Vec<Member>, p: &Path)
    ensures
        notes(final(list)@) == after_edits(
            notes(old(list)@),
            replay::merge_edits(base@, value::members_json(members@)),
            members@.len() as int,
            p@,
        ),
{
    let ghost edits = replay::merge_edits(base@, value::members_json(members@));
    let mut i: usize = 0;
    while i < members.len()
        invariant
            i <= members@.len(),
            edits == replay::merge_edits(base@, value::members_json(members@)),
            notes(list@) == after_edits(notes(old(list)@), edits, i as int, p@),
        decreases members@.len() - i,
    {
        let m = &members[i];
        assert(value::members_json(members@)[i as int].0 == m.key@);
        let below = Path::parse(m.key.as_str());
        let q = base.join(&below);
        assert(edits[i as int].path == q@);
        note_write(list, &q, p);
        i = i + 1;
    }
}

/// Takes in a logged write.
fn note_entry(list: &mut Vec<SizeNote>, e: &WalEntry, p: &Path)
    ensures
        notes(final(list)@) == after_entry(notes(old(list)@), e@.write, p@),
{
    let at = Path::parse(e.path.as_str());
    let ghost edits = replay::entry_edits(e@.write);
    match e.op {
        WalOp::Update => {
            match &e.value {
                Some(v) => match v {
                    JsonValue::Object(members) => {
                        assert(v@ == Json::Object(value::members_json(members@)));
                        if lies_under(&at, p) {
                            let merged = cleaned_node(v);
                            let last: usize = at.segments.len() - 1;
                            note(
                                list,
                                at.segments[last].as_str(),
                                estimate_node_bytes(&merged) as u64,
                            );
                        } else {
                            note_merge(list, &at, members, p);
                        }
                    },
                    _ => {
                        assert(edits.len() == 0);
                    },
                },
                None => {
                    assert(edits.len() == 0);
                },
            }
        },
        _ => {
            assert(edits.len() == 1 && edits[0].path == at@);
            reveal_with_fuel(after_edits, 2);
            note_write(list, &at, p);
        },
    }
}

/// The sizes of the children at `p`: those that the blob lists, with the log on top.
pub fn child_sizes(listed: &Vec<ShallowChild>, log: &Vec<WalEntry>, p: &Path) -> (r: Vec<
    SizeNote,
>)
    ensures
        notes(r@) == after_log(listed_sizes(listed@), wal::entries_view(log@), p@),
{
    let mut out: Vec<SizeNote> = Vec::new();
    let mut i: usize = 0;
    assert(notes(out@) =~= listed_sizes(listed@).take(0));
    while i < listed.len()
        invariant
            i <= listed@.len(),
            notes(out@) == listed_sizes(listed@).take(i as int),
        decreases listed@.len() - i,
    {
        let c = &listed[i];
        let size: u64 = if c.value.is_none() {
            c.size
        } else {
            0
        };
        note(&mut out, c.key.as_str(), size);
        assert(listed_sizes(listed@).take(i + 1) =~= listed_sizes(listed@).take(i as int).push(
            (c.key@, size as nat),
        ));
        i = i + 1;
    }
    assert(listed_sizes(listed@).take(i as int) =~= listed_sizes(listed@));
    let ghost s0 = listed_sizes(listed@);
    let ghost entries = wal::entries_view(log@);
    let mut j: usize = 0;
    assert(entries.take(0) =~= Seq::<Entry>::empty());
    while j < log.len()
        invariant
            j <= log@.len(),
            entries == wal::entries_view(log@),
            notes(out@) == after_log(s0, entries.take(j as int), p@),
        decreases log@.len() - j,
    {
        note_entry(&mut out, &log[j], p);
        proof {
            assert(entries.take(j + 1).drop_last() =~= entries.take(j as int));
            assert(entries.take(j + 1).last() == log@[j as int]@.write);
        }
        j = j + 1;
    }
    assert(entries.take(j as int) =~= entries);
    out
}

/// The last note on a child counts, and a child without a note has no size.
pub proof fn law_last_note_counts(s: Seq<(Seq<char>, nat)>, k: Seq<char>, i: int)
    ensures
        0 <= i < s.len() && s[i].0 == k && (forall|j: int|
            i < j < s.len() ==> (#[trigger] s[j]).0 != k) ==> noted_size(s, k) == s[i].1,
        (forall|j: int| 0 <= j < s.len() ==> (#[trigger] s[j]).0 != k) ==> noted_size(s, k) == 0,
    decreases s.len(),
{
    if s.len() > 0 {
        law_last_note_counts(s.drop_last(), k, i);
        assert(s[s.len() - 1] == s.last());
        assert(forall|j: int| 0 <= j < s.len() - 1 ==> (#[trigger] s.drop_last()[j]) == s[j]);
        if 0 <= i < s.len() && s[i].0 == k && (forall|j: int|
            i < j < s.len() ==> (#[trigger] s[j]).0 != k) {
            if i < s.len() - 1 {
                assert(s[s.len() - 1].0 != k);
                assert(s.drop_last()[i] == s[i]);
            }
        }
        if forall|j: int| 0 <= j < s.len() ==> (#[trigger] s[j]).0 != k {
            assert(s[s.len() - 1].0 != k);
        }
    }
}

/// A write makes the sizes that it touches unknown: its own, where it lands on a child, and
/// all of them, where it lands on the parent or above. It touches no other.
pub proof fn law_writes_make_sizes_unknown(
    s: Seq<(Seq<char>, nat)>,
    q: Seq<Seq<char>>,
    p: Seq<Seq<char>>,
    k: Seq<char>,
)
    ensures
        path::is_prefix(q, p) ==> noted_size(after_write_at(s, q, p), k) == 0,
        q == p.push(k) ==> noted_size(after_write_at(s, q, p), k) == 0,
        !path::is_prefix(q, p) && q != p.push(k) ==> noted_size(after_write_at(s, q, p), k)
            == noted_size(s, k),
{
    assert(p.push(k).take(p.len() as int) =~= p);
    if is_child_of(q, p) && !path::is_prefix(q, p) {
        let after = s.push((q.last(), 0));
        assert(after.drop_last() =~= s);
        if q.last() == k {
            assert(q =~= p.push(k)) by {
                assert(q.take(p.len() as int) =~= p);
                assert(forall|i: int| 0 <= i < p.len() ==> q[i] == q.take(p.len() as int)[i]);
            }
        } else if q == p.push(k) {
            assert(q.last() == k);
        }
    }
}

/// A child that was read together with its value has no size of its own, and one of which
/// only the key was read has the size that was listed with it.
pub proof fn law_listed_sizes(s: Seq<ShallowChild>, i: int)
    requires
        0 <= i < s.len(),
        forall|j: int| i < j < s.len() ==> (#[trigger] s[j]).key@ != s[i].key@,
    ensures
        s[i].value is None ==> noted_size(listed_sizes(s), s[i].key@) == s[i].size,
        s[i].value is Some ==> noted_size(listed_sizes(s), s[i].key@) == 0,
{
    let l = listed_sizes(s);
    assert forall|j: int| i < j < l.len() implies (#[trigger] l[j]).0 != s[i].key@ by {
        assert(l[j].0 == s[j].key@);
    }
    law_last_note_counts(l, s[i].key@, i);
}

/// Sizes follow the log entry by entry. An entry that sets or removes a path touches what a
/// write there touches.
pub proof fn law_sizes_follow_the_log(
    s: Seq<(Seq<char>, nat)>,
    entries: Seq<Entry>,
    e: Entry,
    p: Seq<Seq<char>>,
    k: Seq<char>,
)
    ensures
        after_log(s, Seq::empty(), p) == s,
        after_log(s, entries.push(e), p) == after_entry(after_log(s, entries, p), e, p),
        (e.op is Delete || (e.op is Assign && e.value is Some)) && (path::is_prefix(e.path, p)
            || e.path == p.push(k)) ==> noted_size(after_log(s, entries.push(e), p), k) == 0,
        (e.op is Delete || (e.op is Assign && e.value is Some)) && !path::is_prefix(e.path, p)
            && e.path != p.push(k) ==> noted_size(after_log(s, entries.push(e), p), k)
            == noted_size(after_log(s, entries, p), k),
{
    assert(entries.push(e).drop_last() =~= entries);
    let before = after_log(s, entries, p);
    if e.op is Delete || (e.op is Assign && e.value is Some) {
        let edits = replay::entry_edits(e);
        assert(edits.len() == 1 && edits[0].path == e.path);
        reveal_with_fuel(after_edits, 2);
        assert(after_edits(before, edits, 0, p) == before);
        assert(after_entry(before, e, p) == after_write_at(before, e.path, p));
        law_writes_make_sizes_unknown(before, e.path, p, k);
    }
}

} // verus!
