//! Pending log entries and the path index over them.
use crate::order;
use crate::order::comes_before;
use crate::path;
use crate::path::Path;
use crate::replay;
use crate::replay::{Entry, WalOp};
use crate::value;
use crate::value::{copy_members, copy_opt_value, copy_value, Json, Member, JsonValue};
use vstd::multiset::Multiset;
use vstd::prelude::*;

verus! {

broadcast use vstd::seq_lib::group_to_multiset_ensures;

/// A write as the log keeps it.
pub struct WalEntry {
    pub op: WalOp,
    pub path: String,
    pub value: Option<JsonValue>,
    pub sequence: i64,
}

/// What an entry of the log says: a write, and the number under which the log holds it.
pub ghost struct Record {
    pub sequence: i64,
    pub write: Entry,
}

impl View for WalEntry {
    type V = Record;

    open spec fn view(&self) -> Record {
        Record {
            sequence: self.sequence,
            write: Entry {
                op: self.op,
                path: path::segments(self.path@),
                value: value::opt_json(self.value),
            },
        }
    }
}

impl WalEntry {
    /// An entry that sets a path to a value.
    pub fn assign(path: &str, value: &JsonValue) -> (r: WalEntry)
        ensures
            r.op is Assign,
            r.path@ == path@,
            value::opt_json(r.value) == Some(value@),
            r.sequence == 0,
    {
        WalEntry {
            op: WalOp::Assign,
            path: path.to_owned(),
            value: Some(copy_value(value)),
            sequence: 0,
        }
    }

    /// An entry that merges members at a path.
    pub fn update(path: &str, members: &Vec<Member>) -> (r: WalEntry)
        ensures
            r.op is Update,
            r.path@ == path@,
            value::opt_json(r.value) == Some(Json::Object(value::members_json(members@))),
            r.sequence == 0,
    {
        WalEntry {
            op: WalOp::Update,
            path: path.to_owned(),
            value: Some(JsonValue::Object(copy_members(members))),
            sequence: 0,
        }
    }

    /// An entry that removes a path.
    pub fn delete(path: &str) -> (r: WalEntry)
        ensures
            r.op is Delete,
            r.path@ == path@,
            value::opt_json(r.value) is None,
            r.sequence == 0,
    {
        WalEntry { op: WalOp::Delete, path: path.to_owned(), value: None, sequence: 0 }
    }

    /// A copy of this entry.
    pub fn copy(&self) -> (r: WalEntry)
        ensures
            r@ == self@,
            r.path@ == self.path@,
    {
        WalEntry {
            op: self.op,
            path: self.path.clone(),
            value: copy_opt_value(&self.value),
            sequence: self.sequence,
        }
    }
}

/// What a list of entries says.
pub open spec fn records_view(entries: Seq<WalEntry>) -> Seq<Record> {
    entries.map_values(|e: WalEntry| e@)
}

/// The writes of a list of entries.
pub open spec fn entries_view(entries: Seq<WalEntry>) -> Seq<Entry> {
    entries.map_values(|e: WalEntry| e@.write)
}

/// The indices kept for one path.
pub struct PathGroup {
    pub path: Path,
    pub indices: Vec<usize>,
}

/// The groups of an index, each a path and its indices in order of arrival.
pub open spec fn groups_view(g: Seq<PathGroup>) -> Seq<(Seq<Seq<char>>, Seq<usize>)> {
    g.map_values(|x: PathGroup| (x.path@, x.indices@))
}

/// Index over pending log entries: which entries concern which path.
pub struct WalIndex {
    pub by_path: Vec<PathGroup>,
}

impl View for WalIndex {
    type V = Seq<(Seq<Seq<char>>, Seq<usize>)>;

    open spec fn view(&self) -> Seq<(Seq<Seq<char>>, Seq<usize>)> {
        groups_view(self.by_path@)
    }
}

/// How often each index occurs in groups whose paths touch `p`.
pub open spec fn gathered(
    groups: Seq<(Seq<Seq<char>>, Seq<usize>)>,
    p: Seq<Seq<char>>,
) -> Multiset<usize>
    decreases groups.len(),
{
    if groups.len() == 0 {
        Multiset::empty()
    } else {
        let rest = gathered(groups.drop_last(), p);
        if path::related(groups.last().0, p) {
            rest.add(groups.last().1.to_multiset())
        } else {
            rest
        }
    }
}

/// How often each index occurs in all groups.
pub open spec fn total(groups: Seq<(Seq<Seq<char>>, Seq<usize>)>) -> Multiset<usize>
    decreases groups.len(),
{
    if groups.len() == 0 {
        Multiset::empty()
    } else {
        total(groups.drop_last()).add(groups.last().1.to_multiset())
    }
}

/// Whether the list ascends.
pub open spec fn ascending(s: Seq<usize>) -> bool {
    forall|i: int, j: int| 0 <= i <= j < s.len() ==> s[i] <= s[j]
}

/// Whether groups are listed in the order of their paths, which are all different.
pub open spec fn in_order(groups: Seq<(Seq<Seq<char>>, Seq<usize>)>) -> bool {
    forall|i: int, j: int|
        0 <= i < j < groups.len() ==> order::before(
            (#[trigger] groups[i]).0,
            (#[trigger] groups[j]).0,
        )
}

/// How many groups in front have paths that come before `p`.
pub open spec fn rank(groups: Seq<(Seq<Seq<char>>, Seq<usize>)>, p: Seq<Seq<char>>) -> int
    decreases groups.len(),
{
    if groups.len() == 0 || !order::before(groups[0].0, p) {
        0
    } else {
        1 + rank(groups.skip(1), p)
    }
}

/// Groups with one index added for a path: at the end of that path's group, or as a new
/// group at its place.
pub open spec fn added(
    groups: Seq<(Seq<Seq<char>>, Seq<usize>)>,
    p: Seq<Seq<char>>,
    index: usize,
) -> Seq<(Seq<Seq<char>>, Seq<usize>)> {
    let r = rank(groups, p);
    if 0 <= r < groups.len() && groups[r].0 == p {
        groups.update(r, (p, groups[r].1.push(index)))
    } else {
        groups.insert(r, (p, seq![index]))
    }
}

/// The index of a list of entries: each added in turn.
pub open spec fn built(entries: Seq<Entry>) -> Seq<(Seq<Seq<char>>, Seq<usize>)>
    decreases entries.len(),
{
    if entries.len() == 0 {
        Seq::empty()
    } else {
        added(
            built(entries.drop_last()),
            entries.last().path,
            (entries.len() - 1) as usize,
        )
    }
}

/// Where the paths in front come before `p` and the next one does not is its rank.
proof fn lemma_rank(groups: Seq<(Seq<Seq<char>>, Seq<usize>)>, p: Seq<Seq<char>>, r: int)
    requires
        0 <= r <= groups.len(),
        forall|g: int| 0 <= g < r ==> order::before((#[trigger] groups[g]).0, p),
        r < groups.len() ==> !order::before(groups[r].0, p),
    ensures
        rank(groups, p) == r,
    decreases groups.len(),
{
    if r > 0 {
        assert(order::before(groups[0].0, p));
        let rest = groups.skip(1);
        assert forall|g: int| 0 <= g < r - 1 implies order::before((#[trigger] rest[g]).0, p) by {
            assert(rest[g] == groups[g + 1]);
        }
        lemma_rank(rest, p, r - 1);
    }
}

/// The rank divides the paths into those that come before `p` and the others.
proof fn lemma_rank_divides(groups: Seq<(Seq<Seq<char>>, Seq<usize>)>, p: Seq<Seq<char>>)
    requires
        in_order(groups),
    ensures
        0 <= rank(groups, p) <= groups.len(),
        forall|g: int| 0 <= g < rank(groups, p) ==> order::before((#[trigger] groups[g]).0, p),
        forall|g: int|
            rank(groups, p) <= g < groups.len() ==> !order::before((#[trigger] groups[g]).0, p),
    decreases groups.len(),
{
    if groups.len() > 0 {
        let rest = groups.skip(1);
        assert forall|i: int, j: int| 0 <= i < j < rest.len() implies order::before(
            (#[trigger] rest[i]).0,
            (#[trigger] rest[j]).0,
        ) by {
            assert(rest[i] == groups[i + 1] && rest[j] == groups[j + 1]);
        }
        if order::before(groups[0].0, p) {
            lemma_rank_divides(rest, p);
            assert forall|g: int| 0 <= g < rank(groups, p) implies order::before(
                (#[trigger] groups[g]).0,
                p,
            ) by {
                if g > 0 {
                    assert(rest[g - 1] == groups[g]);
                }
            }
            assert forall|g: int| rank(groups, p) <= g < groups.len() implies !order::before(
                (#[trigger] groups[g]).0,
                p,
            ) by {
                assert(rest[g - 1] == groups[g]);
            }
        } else {
            assert forall|g: int| 0 <= g < groups.len() implies !order::before(
                (#[trigger] groups[g]).0,
                p,
            ) by {
                if g > 0 && order::before(groups[g].0, p) {
                    assert(order::before(groups[0].0, groups[g].0));
                    order::lemma_chain(groups[0].0, groups[g].0, p);
                }
            }
        }
    }
}

/// Adding an index keeps the groups in order.
proof fn lemma_added_in_order(
    groups: Seq<(Seq<Seq<char>>, Seq<usize>)>,
    p: Seq<Seq<char>>,
    index: usize,
)
    requires
        in_order(groups),
    ensures
        in_order(added(groups, p, index)),
{
    lemma_rank_divides(groups, p);
    let r = rank(groups, p);
    let after = added(groups, p, index);
    assert forall|i: int, j: int| 0 <= i < j < after.len() implies order::before(
        (#[trigger] after[i]).0,
        (#[trigger] after[j]).0,
    ) by {
        if r < groups.len() && groups[r].0 == p {
            assert(after[i].0 == groups[i].0 && after[j].0 == groups[j].0);
        } else {
            if j == r {
                assert(after[i] == groups[i]);
            } else if i == r {
                assert(after[j] == groups[j - 1]);
                order::lemma_order(groups[j - 1].0, p);
                if groups[j - 1].0 == p {
                    assert(order::before(groups[r].0, groups[j - 1].0) || r == j - 1);
                }
            } else {
                let x = if i < r {
                    i
                } else {
                    i - 1
                };
                let y = if j < r {
                    j
                } else {
                    j - 1
                };
                assert(after[i] == groups[x] && after[j] == groups[y]);
            }
        }
    }
}

/// An index that was built is in order and complete.
pub proof fn lemma_built(entries: Seq<Entry>)
    requires
        entries.len() <= usize::MAX,
    ensures
        in_order(built(entries)),
        indexes(built(entries), entries),
    decreases entries.len(),
{
    if entries.len() > 0 {
        let rest = entries.drop_last();
        let e = entries.last();
        lemma_built(rest);
        lemma_added_in_order(built(rest), e.path, rest.len() as usize);
        lemma_added_indexes(built(rest), rest, e);
        assert(rest.push(e) =~= entries);
    }
}

/// Whether groups are the index of a list of entries: each entry once, under its path.
pub open spec fn indexes(groups: Seq<(Seq<Seq<char>>, Seq<usize>)>, entries: Seq<Entry>) -> bool {
    &&& forall|g: int, j: int|
        0 <= g < groups.len() && 0 <= j < groups[g].1.len() ==> (#[trigger] groups[g].1[j])
            < entries.len() && entries[groups[g].1[j] as int].path == groups[g].0
    &&& forall|i: usize| i < entries.len() ==> #[trigger] total(groups).count(i) == 1
}

/// The entries at the given positions.
pub open spec fn picked(entries: Seq<Entry>, indices: Seq<usize>) -> Seq<Entry> {
    Seq::new(indices.len(), |j: int| entries[indices[j] as int])
}

/// An index past the end occurs nowhere.
pub proof fn lemma_total_bound(
    groups: Seq<(Seq<Seq<char>>, Seq<usize>)>,
    entries: Seq<Entry>,
    i: usize,
)
    requires
        forall|g: int, j: int|
            0 <= g < groups.len() && 0 <= j < groups[g].1.len() ==> (#[trigger] groups[g].1[j])
                < entries.len(),
        i >= entries.len(),
    ensures
        total(groups).count(i) == 0,
    decreases groups.len(),
{
    if groups.len() > 0 {
        let rest = groups.drop_last();
        assert forall|g: int, j: int|
            0 <= g < rest.len() && 0 <= j < rest[g].1.len() implies (#[trigger] rest[g].1[j])
            < entries.len() by {
            assert(groups[g].1[j] < entries.len());
        }
        lemma_total_bound(rest, entries, i);
        let last = groups.last().1;
        if last.to_multiset().count(i) > 0 {
            assert(last.contains(i));
            let j = choose|j: int| 0 <= j < last.len() && last[j] == i;
            assert(groups[groups.len() - 1].1[j] < entries.len());
        }
    }
}

/// Every index occurs in the touching groups as often as in all, or not at all.
pub proof fn lemma_gathered_count(
    groups: Seq<(Seq<Seq<char>>, Seq<usize>)>,
    entries: Seq<Entry>,
    p: Seq<Seq<char>>,
    i: usize,
)
    requires
        forall|g: int, j: int|
            0 <= g < groups.len() && 0 <= j < groups[g].1.len() ==> (#[trigger] groups[g].1[j])
                < entries.len() && entries[groups[g].1[j] as int].path == groups[g].0,
    ensures
        gathered(groups, p).count(i) == if i < entries.len() && replay::affects(
            entries[i as int],
            p,
        ) {
            total(groups).count(i)
        } else {
            0
        },
    decreases groups.len(),
{
    if groups.len() > 0 {
        let rest = groups.drop_last();
        assert forall|g: int, j: int|
            0 <= g < rest.len() && 0 <= j < rest[g].1.len() implies (#[trigger] rest[g].1[j])
            < entries.len() && entries[rest[g].1[j] as int].path == rest[g].0 by {
            assert(groups[g].1[j] < entries.len());
        }
        lemma_gathered_count(rest, entries, p, i);
        let last = groups.last().1;
        if last.to_multiset().count(i) > 0 {
            assert(last.contains(i));
            let j = choose|j: int| 0 <= j < last.len() && last[j] == i;
            assert(groups[groups.len() - 1].1[j] < entries.len());
        }
    }
}

/// An ascending list that holds each affecting position once picks the affecting entries.
pub proof fn lemma_picked_affecting(entries: Seq<Entry>, p: Seq<Seq<char>>, indices: Seq<usize>)
    requires
        ascending(indices),
        forall|i: usize|
            #[trigger]
            indices.to_multiset().count(i) == if i < entries.len() && replay::affects(
                entries[i as int],
                p,
            ) {
                1nat
            } else {
                0nat
            },
        entries.len() <= usize::MAX,
    ensures
        picked(entries, indices) == replay::affecting(entries, p),
        forall|j: int| 0 <= j < indices.len() ==> (#[trigger] indices[j]) < entries.len(),
    decreases entries.len(),
{
    assert forall|j: int| 0 <= j < indices.len() implies (#[trigger] indices[j])
        < entries.len() by {
        assert(indices.contains(indices[j]));
        assert(indices.to_multiset().count(indices[j]) > 0);
    }
    if entries.len() == 0 {
        if indices.len() > 0 {
            assert(indices[0] < entries.len());
        }
        assert(picked(entries, indices) =~= Seq::<Entry>::empty());
    } else {
        let n = (entries.len() - 1) as usize;
        let before = entries.drop_last();
        if replay::affects(entries.last(), p) {
            assert(indices.to_multiset().count(n) == 1);
            assert(indices.contains(n));
            let at = choose|j: int| 0 <= j < indices.len() && indices[j] == n;
            assert(indices[at] <= indices.last());
            assert(indices[indices.len() - 1] < entries.len());
            assert(indices.last() == n);
            let fewer = indices.drop_last();
            assert(fewer =~= indices.remove(indices.len() - 1));
            assert(fewer.to_multiset() == indices.to_multiset().remove(n));
            assert forall|i: usize|
                #[trigger]
                fewer.to_multiset().count(i) == if i < before.len() && replay::affects(
                    before[i as int],
                    p,
                ) {
                    1nat
                } else {
                    0nat
                } by {
                assert(indices.to_multiset().count(i) == if i < entries.len() && replay::affects(
                    entries[i as int],
                    p,
                ) {
                    1nat
                } else {
                    0nat
                });
            }
            lemma_picked_affecting(before, p, fewer);
            assert(picked(entries, indices) =~= picked(before, fewer).push(entries.last()));
        } else {
            assert forall|i: usize|
                #[trigger]
                indices.to_multiset().count(i) == if i < before.len() && replay::affects(
                    before[i as int],
                    p,
                ) {
                    1nat
                } else {
                    0nat
                } by {
                if i < before.len() {
                    assert(before[i as int] == entries[i as int]);
                }
            }
            lemma_picked_affecting(before, p, indices);
            assert(picked(entries, indices) =~= picked(before, indices));
        }
    }
}

/// Changing one group changes the totals by the change of that group.
pub proof fn lemma_total_update(
    groups: Seq<(Seq<Seq<char>>, Seq<usize>)>,
    i: int,
    p: Seq<Seq<char>>,
    index: usize,
)
    requires
        0 <= i < groups.len(),
    ensures
        total(groups.update(i, (p, groups[i].1.push(index)))) == total(groups).insert(index),
    decreases groups.len(),
{
    let after = groups.update(i, (p, groups[i].1.push(index)));
    if i == groups.len() - 1 {
        assert(after.drop_last() =~= groups.drop_last());
    } else {
        assert(after.drop_last() =~= groups.drop_last().update(
            i,
            (p, groups.drop_last()[i].1.push(index)),
        ));
        lemma_total_update(groups.drop_last(), i, p, index);
    }
    assert(total(after) =~= total(groups).insert(index));
}

/// A new group adds its indices to the totals.
proof fn lemma_total_insert(
    groups: Seq<(Seq<Seq<char>>, Seq<usize>)>,
    i: int,
    p: Seq<Seq<char>>,
    index: usize,
)
    requires
        0 <= i <= groups.len(),
    ensures
        total(groups.insert(i, (p, seq![index]))) == total(groups).insert(index),
    decreases groups.len(),
{
    let after = groups.insert(i, (p, seq![index]));
    if i == groups.len() {
        assert(after.drop_last() =~= groups);
        assert(seq![index] =~= Seq::<usize>::empty().push(index));
    } else {
        assert(after.drop_last() =~= groups.drop_last().insert(i, (p, seq![index])));
        assert(after.last() == groups.last());
        lemma_total_insert(groups.drop_last(), i, p, index);
    }
    assert(total(after) =~= total(groups).insert(index));
}

/// Adding the next entry's position keeps an index complete.
pub proof fn lemma_added_indexes(
    before: Seq<(Seq<Seq<char>>, Seq<usize>)>,
    entries: Seq<Entry>,
    e: Entry,
)
    requires
        in_order(before),
        indexes(before, entries),
        entries.len() < usize::MAX,
    ensures
        indexes(added(before, e.path, entries.len() as usize), entries.push(e)),
{
    let n = entries.len() as usize;
    let more = entries.push(e);
    let r = rank(before, e.path);
    let after = added(before, e.path, n);
    lemma_rank_divides(before, e.path);
    let present = r < before.len() && before[r].0 == e.path;
    if present {
        lemma_total_update(before, r, e.path, n);
    } else {
        lemma_total_insert(before, r, e.path, n);
    }
    lemma_total_bound(before, entries, n);
    assert forall|i: usize| i < more.len() implies #[trigger] total(after).count(i) == 1 by {
        if i < entries.len() {
            assert(total(before).count(i) == 1);
        }
    }
    assert forall|g: int, j: int|
        0 <= g < after.len() && 0 <= j < after[g].1.len() implies (#[trigger] after[g].1[j])
        < more.len() && more[after[g].1[j] as int].path == after[g].0 by {
        if present {
            if j < before[g].1.len() {
                assert(before[g].1[j] < entries.len());
            }
        } else if g != r {
            let x = if g < r {
                g
            } else {
                g - 1
            };
            assert(after[g] == before[x]);
            assert(before[x].1[j] < entries.len());
        }
    }
}

/// Groups that do not concern a path add nothing to what is gathered.
proof fn lemma_gathered_skip(
    groups: Seq<(Seq<Seq<char>>, Seq<usize>)>,
    a: int,
    b: int,
    p: Seq<Seq<char>>,
)
    requires
        0 <= a <= b <= groups.len(),
        forall|g: int| a <= g < b ==> !path::related((#[trigger] groups[g]).0, p),
    ensures
        gathered(groups.take(b), p) == gathered(groups.take(a), p),
    decreases b - a,
{
    if a < b {
        lemma_gathered_skip(groups, a, b - 1, p);
        assert(groups.take(b).drop_last() =~= groups.take(b - 1));
        assert(groups.take(b).last() == groups[b - 1]);
    }
}

/// `slice::sort_unstable`: the same items, in ascending order.
#[verifier::external_body]
fn sort_indices(v: &mut Vec<usize>)
    ensures
        ascending(final(v)@),
        final(v)@.to_multiset() == old(v)@.to_multiset(),
{
    v.sort_unstable()
}

/// Adds indices to a list.
fn extend_with(out: &mut Vec<usize>, more: &Vec<usize>)
    ensures
        final(out)@ == old(out)@ + more@,
{
    let mut j: usize = 0;
    while j < more.len()
        invariant
            j <= more@.len(),
            out@ == old(out)@ + more@.take(j as int),
        decreases more@.len() - j,
    {
        out.push(more[j]);
        assert(more@.take(j + 1) =~= more@.take(j as int).push(more@[j as int]));
        j = j + 1;
    }
    assert(more@.take(j as int) =~= more@);
}

impl WalIndex {
    /// An index of nothing.
    pub fn new() -> (r: WalIndex)
        ensures
            r.inv(),
            r@ == Seq::<(Seq<Seq<char>>, Seq<usize>)>::empty(),
    {
        let r = WalIndex { by_path: Vec::new() };
        assert(r@ =~= Seq::<(Seq<Seq<char>>, Seq<usize>)>::empty());
        r
    }

    /// Whether the groups are in order.
    pub open spec fn inv(&self) -> bool {
        in_order(self@)
    }

    /// How many groups have paths that come before a path.
    fn rank_of(&self, key: &Path) -> (r: usize)
        requires
            self.inv(),
        ensures
            r == rank(self@, key@),
            r <= self.by_path@.len(),
    {
        let mut lo: usize = 0;
        let mut hi: usize = self.by_path.len();
        while lo < hi
            invariant
                lo <= hi <= self.by_path@.len(),
                in_order(self@),
                forall|g: int| 0 <= g < lo ==> order::before((#[trigger] self@[g]).0, key@),
                forall|g: int|
                    hi <= g < self@.len() ==> !order::before((#[trigger] self@[g]).0, key@),
            decreases hi - lo,
        {
            let mid: usize = lo + (hi - lo) / 2;
            let ghost here = self@[mid as int].0;
            assert(here == self.by_path@[mid as int].path@);
            if comes_before(&self.by_path[mid].path, key) {
                proof {
                    assert forall|g: int| 0 <= g < mid + 1 implies order::before(
                        (#[trigger] self@[g]).0,
                        key@,
                    ) by {
                        if g < mid {
                            assert(order::before(self@[g].0, here));
                            order::lemma_chain(self@[g].0, here, key@);
                        }
                    }
                }
                lo = mid + 1;
            } else {
                proof {
                    assert forall|g: int| mid <= g < self@.len() implies !order::before(
                        (#[trigger] self@[g]).0,
                        key@,
                    ) by {
                        if g > mid && order::before(self@[g].0, key@) {
                            assert(order::before(here, self@[g].0));
                            order::lemma_chain(here, self@[g].0, key@);
                        }
                    }
                }
                hi = mid;
            }
        }
        proof {
            lemma_rank(self@, key@, lo as int);
        }
        lo
    }

    /// Notes one entry position for a path text.
    pub fn add(&mut self, path: &str, index: usize)
        requires
            old(self).inv(),
        ensures
            final(self).inv(),
            final(self)@ == added(old(self)@, path::segments(path@), index),
    {
        let key = Path::parse(path);
        let ghost before = self@;
        proof {
            lemma_added_in_order(before, key@, index);
        }
        let r = self.rank_of(&key);
        if r < self.by_path.len() {
            assert(before[r as int] == (
                self.by_path@[r as int].path@,
                self.by_path@[r as int].indices@,
            ));
            if self.by_path[r].path.same(&key) {
                self.by_path[r].indices.push(index);
                assert(self@ =~= before.update(r as int, (key@, before[r as int].1.push(index))));
                return;
            }
        }
        let mut indices: Vec<usize> = Vec::new();
        indices.push(index);
        assert(indices@ =~= seq![index]);
        self.by_path.insert(r, PathGroup { path: key, indices });
        assert(self@ =~= before.insert(r as int, (key@, seq![index])));
    }

    /// Builds the index of a list of entries from scratch: nothing of the old one is left.
    pub fn rebuild(&mut self, entries: &Vec<WalEntry>)
        ensures
            final(self).inv(),
            final(self)@ == built(entries_view(entries@)),
            indexes(final(self)@, entries_view(entries@)),
    {
        self.by_path = Vec::new();
        assert(self@ =~= Seq::<(Seq<Seq<char>>, Seq<usize>)>::empty());
        let ghost all = entries_view(entries@);
        let mut i: usize = 0;
        assert(all.take(0) =~= Seq::<Entry>::empty());
        while i < entries.len()
            invariant
                i <= entries@.len(),
                all == entries_view(entries@),
                self.inv(),
                self@ == built(all.take(i as int)),
            decreases entries@.len() - i,
        {
            self.add(entries[i].path.as_str(), i);
            proof {
                assert(all.take(i + 1).drop_last() =~= all.take(i as int));
                assert(all.take(i + 1).last() == entries@[i as int]@.write);
            }
            i = i + 1;
        }
        assert(all.take(i as int) =~= all);
        let n = entries.len();
        proof {
            assert(n == all.len());
            lemma_built(all);
        }
    }

    /// The positions of all entries that concern a path: entries at it, above it or
    /// below it, in ascending order.
    pub fn find_affecting(&self, path: &str) -> (r: Vec<usize>)
        requires
            self.inv(),
        ensures
            ascending(r@),
            r@.to_multiset() == gathered(self@, path::segments(path@)),
    {
        let p = Path::parse(path);
        let ghost groups = self@;
        let mut out: Vec<usize> = Vec::new();
        let mut lo: usize = 0;
        let mut d: usize = 0;
        let depth = p.segments.len();
        assert(groups.take(0) =~= Seq::<(Seq<Seq<char>>, Seq<usize>)>::empty());
        assert(out@.to_multiset() =~= Multiset::<usize>::empty());
        while d < depth
            invariant
                d <= depth == p@.len(),
                lo <= self.by_path@.len(),
                groups == self@,
                in_order(groups),
                d > 0 ==> forall|g: int|
                    lo <= g < groups.len() ==> order::before(
                        p@.take(d - 1),
                        (#[trigger] groups[g]).0,
                    ),
                forall|g: int|
                    0 <= g < lo ==> order::before((#[trigger] groups[g]).0, p@.take(d as int)),
                d == 0 ==> lo == 0,
                out@.to_multiset() == gathered(groups.take(lo as int), p@),
            decreases depth - d,
        {
            let above = p.take(d);
            let r = self.rank_of(&above);
            proof {
                self.lemma_way(p@, d as int, lo as int);
            }
            lo = r;
            if r < self.by_path.len() {
                assert(groups[r as int] == (
                    self.by_path@[r as int].path@,
                    self.by_path@[r as int].indices@,
                ));
                if self.by_path[r].path.same(&above) {
                    proof {
                        assert(groups.take(r + 1).drop_last() =~= groups.take(r as int));
                        assert(groups.take(r + 1).last() == groups[r as int]);
                        assert(p@.take(above@.len() as int) =~= above@);
                    }
                    proof {
                        vstd::seq_lib::lemma_multiset_commutative(out@, groups[r as int].1);
                    }
                    extend_with(&mut out, &self.by_path[r].indices);
                    lo = r + 1;
                }
            }
            proof {
                assert forall|g: int| lo <= g < groups.len() implies order::before(
                    above@,
                    (#[trigger] groups[g]).0,
                ) by {
                    order::lemma_order(groups[g].0, above@);
                    if groups[g].0 == above@ && r < g {
                        assert(order::before(groups[r as int].0, groups[g].0));
                    }
                }
                let next = p@.take(d + 1);
                assert(next.take(d as int) =~= above@);
                order::lemma_prefix_first(above@, next);
                lemma_rank_divides(groups, above@);
                assert forall|g: int| 0 <= g < lo implies order::before(
                    (#[trigger] groups[g]).0,
                    next,
                ) by {
                    if g < r {
                        order::lemma_chain(groups[g].0, above@, next);
                    }
                }
            }
            d = d + 1;
        }
        let r = self.rank_of(&p);
        proof {
            assert(p@.take(depth as int) =~= p@);
            self.lemma_way(p@, depth as int, lo as int);
        }
        let mut g: usize = r;
        while g < self.by_path.len() && p.leads_to(&self.by_path[g].path)
            invariant
                r <= g <= self.by_path@.len(),
                groups == self@,
                out@.to_multiset() == gathered(groups.take(g as int), p@),
            decreases self.by_path@.len() - g,
        {
            assert(groups[g as int] == (
                self.by_path@[g as int].path@,
                self.by_path@[g as int].indices@,
            ));
            assert(groups.take(g + 1).drop_last() =~= groups.take(g as int));
            assert(groups.take(g + 1).last() == groups[g as int]);
            proof {
                vstd::seq_lib::lemma_multiset_commutative(out@, groups[g as int].1);
            }
            extend_with(&mut out, &self.by_path[g].indices);
            g = g + 1;
        }
        proof {
            lemma_rank_divides(groups, p@);
            assert forall|x: int| g <= x < groups.len() implies !path::related(
                (#[trigger] groups[x]).0,
                p@,
            ) by {
                let far = groups[x].0;
                let near = groups[g as int].0;
                assert(near == self.by_path@[g as int].path@);
                if path::is_prefix(far, p@) && far != p@ {
                    order::lemma_prefix_first(far, p@);
                } else if path::related(far, p@) {
                    if far == p@ {
                        assert(p@.take(p@.len() as int) =~= p@);
                    }
                    if x > g {
                        assert(order::before(near, far));
                        order::lemma_between(p@, near, far);
                    }
                }
            }
            lemma_gathered_skip(groups, g as int, groups.len() as int, p@);
            assert(groups.take(groups.len() as int) =~= groups);
        }
        sort_indices(&mut out);
        out
    }

    /// Nothing between one step on the way to a path and the next concerns it.
    proof fn lemma_way(&self, p: Seq<Seq<char>>, d: int, lo: int)
        requires
            in_order(self@),
            0 <= d <= p.len(),
            0 <= lo <= self@.len(),
            d > 0 ==> forall|g: int|
                lo <= g < self@.len() ==> order::before(p.take(d - 1), (#[trigger] self@[g]).0),
            forall|g: int| 0 <= g < lo ==> order::before((#[trigger] self@[g]).0, p.take(d)),
            d == 0 ==> lo == 0,
        ensures
            lo <= rank(self@, p.take(d)) <= self@.len(),
            gathered(self@.take(rank(self@, p.take(d))), p) == gathered(self@.take(lo), p),
            forall|g: int|
                rank(self@, p.take(d)) <= g < self@.len() ==> !order::before(
                    (#[trigger] self@[g]).0,
                    p.take(d),
                ),
    {
        let here = p.take(d);
        lemma_rank_divides(self@, here);
        let r = rank(self@, here);
        assert(r < lo ==> order::before(self@[r].0, here));
        assert forall|g: int| lo <= g < r implies !path::related((#[trigger] self@[g]).0, p) by {
            order::lemma_gap(p, d, self@[g].0);
        }
        lemma_gathered_skip(self@, lo, r, p);
    }
}

/// Over a complete index, the positions found are those of the affecting entries, in
/// log order, each once.
pub proof fn law_affecting_complete(
    groups: Seq<(Seq<Seq<char>>, Seq<usize>)>,
    entries: Seq<Entry>,
    p: Seq<Seq<char>>,
    found: Seq<usize>,
)
    requires
        indexes(groups, entries),
        entries.len() <= usize::MAX,
        ascending(found),
        found.to_multiset() == gathered(groups, p),
    ensures
        picked(entries, found) == replay::affecting(entries, p),
        forall|j: int| 0 <= j < found.len() ==> (#[trigger] found[j]) < entries.len(),
{
    assert forall|i: usize|
        #[trigger]
        found.to_multiset().count(i) == if i < entries.len() && replay::affects(
            entries[i as int],
            p,
        ) {
            1nat
        } else {
            0nat
        } by {
        lemma_gathered_count(groups, entries, p, i);
        if i < entries.len() {
            assert(total(groups).count(i) == 1);
        }
    }
    lemma_picked_affecting(entries, p, found);
}

/// An ascending list that holds every number below `n` once, and no other, counts up to it.
proof fn lemma_counts_up(found: Seq<usize>, n: int)
    requires
        0 <= n <= usize::MAX,
        ascending(found),
        forall|i: usize|
            #[trigger] found.to_multiset().count(i) == if i < n {
                1nat
            } else {
                0nat
            },
    ensures
        found == Seq::new(n as nat, |i: int| i as usize),
    decreases n,
{
    broadcast use vstd::seq_lib::group_to_multiset_ensures;

    if n == 0 {
        if found.len() > 0 {
            assert(found.contains(found[0]));
            assert(found.to_multiset().count(found[0]) > 0);
        }
    } else {
        let top = (n - 1) as usize;
        assert(found.to_multiset().count(top) == 1);
        assert(found.contains(top));
        let j = choose|j: int| 0 <= j < found.len() && found[j] == top;
        assert(found[j] <= found.last());
        assert(found.contains(found.last()));
        assert(found.to_multiset().count(found.last()) > 0);
        let rest = found.drop_last();
        assert(found =~= rest.push(found.last()));
        assert forall|i: usize|
            #[trigger] rest.to_multiset().count(i) == if i < n - 1 {
                1nat
            } else {
                0nat
            } by {
            assert(found.to_multiset().count(i) == if i < n {
                1nat
            } else {
                0nat
            });
        }
        lemma_counts_up(rest, n - 1);
    }
    assert(found =~= Seq::new(n as nat, |i: int| i as usize));
}

/// Everything concerns the root: over a complete index a search for it finds all positions.
pub proof fn law_all_affect_the_root(
    groups: Seq<(Seq<Seq<char>>, Seq<usize>)>,
    entries: Seq<Entry>,
    found: Seq<usize>,
)
    requires
        indexes(groups, entries),
        entries.len() <= usize::MAX,
        ascending(found),
        found.to_multiset() == gathered(groups, Seq::empty()),
    ensures
        found == Seq::new(entries.len(), |i: int| i as usize),
{
    let root = Seq::<Seq<char>>::empty();
    assert forall|i: usize|
        #[trigger] found.to_multiset().count(i) == if i < entries.len() {
            1nat
        } else {
            0nat
        } by {
        lemma_gathered_count(groups, entries, root, i);
        if i < entries.len() {
            assert(total(groups).count(i) == 1);
            assert(entries[i as int].path.take(0) =~= root);
        }
    }
    lemma_counts_up(found, entries.len() as int);
}

} // verus!
