//! The data a database holds in memory: the tree, what of it is loaded, and the log
//! entries that the blob does not hold yet.
use crate::path;
use crate::path::Path;
use crate::replay;
use crate::replay::Entry;
use crate::sentinel;
use crate::sentinel::PathSet;
use crate::shape;
use crate::shape::Shape;
use crate::tree::Tree;
use crate::value;
use crate::value::{Json, Member, JsonValue};
use crate::wal;
use crate::wal::{Record, WalEntry, WalIndex};
use vstd::prelude::*;

verus! {

/// When a path was last loaded or used, in milliseconds.
pub struct Promoted {
    pub path: Path,
    pub at: u64,
}

/// The times on a list.
pub open spec fn times(s: Seq<Promoted>) -> Map<Seq<Seq<char>>, u64>
    decreases s.len(),
{
    if s.len() == 0 {
        Map::empty()
    } else {
        times(s.drop_last()).insert(s.last().path@, s.last().at)
    }
}

/// Whether no path is on the list twice.
pub open spec fn distinct(s: Seq<Promoted>) -> bool {
    forall|i: int, j: int|
        0 <= i < j < s.len() ==> (#[trigger] s[i]).path@ != (#[trigger] s[j]).path@
}

/// What became of handing an entry to the log writer.
#[derive(Clone, Copy, PartialEq, Eq, Structural)]
pub enum AppendOutcome {
    /// There is no log to write to.
    NoWriter,
    /// The entry was taken under a sequence number and took some bytes.
    Appended { sequence: i64, bytes: u64 },
    /// The writer failed.
    Failed,
}

/// The tree, the tracking of what is loaded, and the pending log.
pub struct Store {
    pub tree: Tree,
    pub blob_backed: bool,
    pub sentinel_paths: PathSet,
    pub promoted_paths: Vec<Promoted>,
    pub pending_wal_entries: Vec<WalEntry>,
    pub wal_index: WalIndex,
    /// Log sequence number through which the blob is up to date.
    pub blob_sequence: i64,
}

impl Store {
    /// Every sentinel is tracked, the index is that of the pending entries, and no
    /// path has two times.
    pub open spec fn inv(&self) -> bool {
        &&& sentinel::all_tracked(self.tree@, self.sentinel_paths@)
        &&& self.wal_index@ == wal::built(self.log())
        &&& self.wal_index.inv()
        &&& self.sentinel_paths.inv()
        &&& wal::indexes(self.wal_index@, self.log())
        &&& distinct(self.promoted_paths@)
    }

    /// The pending log.
    pub open spec fn log(&self) -> Seq<Entry> {
        wal::entries_view(self.pending_wal_entries@)
    }

    /// The pending log with the numbers of its entries.
    pub open spec fn records(&self) -> Seq<Record> {
        wal::records_view(self.pending_wal_entries@)
    }

    /// Whether only the tree and the sentinel tracking may differ.
    pub open spec fn same_but_tree(&self, other: &Store) -> bool {
        &&& self.blob_backed == other.blob_backed
        &&& self.promoted_paths == other.promoted_paths
        &&& self.pending_wal_entries == other.pending_wal_entries
        &&& self.wal_index == other.wal_index
        &&& self.blob_sequence == other.blob_sequence
    }

    /// Whether the pending log and where it starts are the same.
    pub open spec fn same_log(&self, other: &Store) -> bool {
        &&& self.blob_backed == other.blob_backed
        &&& self.pending_wal_entries == other.pending_wal_entries
        &&& self.wal_index == other.wal_index
        &&& self.blob_sequence == other.blob_sequence
    }

    /// A store without a blob behind it.
    pub fn new() -> (r: Store)
        ensures
            r.inv(),
            r.tree@ == Shape::Null,
            !r.blob_backed,
            r.log() == Seq::<Entry>::empty(),
            r.promoted_paths@.len() == 0,
            r.sentinel_paths@ == Set::<Seq<Seq<char>>>::empty(),
            r.wal_index@ == Seq::<(Seq<Seq<char>>, Seq<usize>)>::empty(),
            r.blob_sequence == 0,
    {
        let r = Store {
            tree: Tree::new(),
            blob_backed: false,
            sentinel_paths: PathSet::new(),
            promoted_paths: Vec::new(),
            pending_wal_entries: Vec::new(),
            wal_index: WalIndex::new(),
            blob_sequence: 0,
        };
        proof {
            assert(r.log() =~= Seq::<Entry>::empty());
            assert forall|p: Seq<Seq<char>>| #[trigger] shape::sentinel_at(
                r.tree@,
                p,
            ) implies r.sentinel_paths@.contains(p) by {
                assert(shape::kids(Shape::Null) =~= Map::empty());
            }
        }
        r
    }

    /// Turns to a blob: nothing is loaded yet, and the given entries lie on top of it.
    pub fn attach_blob(&mut self, blob_sequence: i64, entries: Vec<WalEntry>)
        requires
            old(self).inv(),
        ensures
            final(self).inv(),
            final(self).blob_backed,
            final(self).tree@ == Shape::Sentinel(Map::empty()),
            final(self).sentinel_paths@ == old(self).sentinel_paths@.insert(Seq::empty()),
            final(self).promoted_paths == old(self).promoted_paths,
            final(self).pending_wal_entries@ == entries@,
            final(self).blob_sequence == blob_sequence,
    {
        let root = Path::root();
        self.tree = Tree::new_sentinel();
        self.sentinel_paths.insert(&root);
        self.wal_index.rebuild(&entries);
        self.pending_wal_entries = entries;
        self.blob_sequence = blob_sequence;
        self.blob_backed = true;
        proof {
            assert forall|p: Seq<Seq<char>>| #[trigger] shape::sentinel_at(
                self.tree@,
                p,
            ) implies self.sentinel_paths@.contains(p) by {
                if p.len() > 0 {
                    assert(shape::at(self.tree@, p) is None);
                } else {
                    assert(p =~= root@);
                }
            }
        }
    }

    /// Notes that a path was loaded or used just now.
    pub fn note_promoted(&mut self, p: &Path, now: u64)
        requires
            distinct(old(self).promoted_paths@),
        ensures
            distinct(final(self).promoted_paths@),
            times(final(self).promoted_paths@) == times(old(self).promoted_paths@).insert(p@, now),
            final(self).same_log(old(self)),
            final(self).tree == old(self).tree,
            final(self).sentinel_paths == old(self).sentinel_paths,
    {
        let mut i: usize = 0;
        while i < self.promoted_paths.len()
            invariant
                i <= self.promoted_paths@.len(),
                *self == *old(self),
                distinct(self.promoted_paths@),
                forall|j: int| 0 <= j < i ==> (#[trigger] self.promoted_paths@[j]).path@ != p@,
            decreases self.promoted_paths@.len() - i,
        {
            if self.promoted_paths[i].path.same(p) {
                let ghost before = self.promoted_paths@;
                self.promoted_paths[i].at = now;
                proof {
                    assert(self.promoted_paths@ =~= before.update(
                        i as int,
                        self.promoted_paths@[i as int],
                    ));
                    lemma_times_update(before, i as int, self.promoted_paths@[i as int]);
                    assert forall|a: int, b: int|
                        0 <= a < b < self.promoted_paths@.len() implies (
                    #[trigger] self.promoted_paths@[a]).path@ != (
                    #[trigger] self.promoted_paths@[b]).path@ by {
                        assert(before[a].path@ != before[b].path@);
                    }
                }
                return;
            }
            i = i + 1;
        }
        let copy = p.copy();
        let ghost before = self.promoted_paths@;
        self.promoted_paths.push(Promoted { path: copy, at: now });
        assert(self.promoted_paths@.drop_last() =~= before);
    }

    /// Notes the use of a path that is known as loaded; others stay as they are.
    pub fn touch(&mut self, p: &Path, now: u64)
        requires
            distinct(old(self).promoted_paths@),
        ensures
            distinct(final(self).promoted_paths@),
            times(final(self).promoted_paths@) == (if times(
                old(self).promoted_paths@,
            ).contains_key(p@) {
                times(old(self).promoted_paths@).insert(p@, now)
            } else {
                times(old(self).promoted_paths@)
            }),
            final(self).same_log(old(self)),
            final(self).tree == old(self).tree,
            final(self).sentinel_paths == old(self).sentinel_paths,
    {
        let known = self.is_promoted(p);
        if known {
            self.note_promoted(p, now);
        }
    }

    /// Whether a path has a time.
    pub fn is_promoted(&self, p: &Path) -> (r: bool)
        ensures
            r == times(self.promoted_paths@).contains_key(p@),
    {
        let mut i: usize = 0;
        assert(self.promoted_paths@.take(0) =~= Seq::<Promoted>::empty());
        while i < self.promoted_paths.len()
            invariant
                i <= self.promoted_paths@.len(),
                !times(self.promoted_paths@.take(i as int)).contains_key(p@),
            decreases self.promoted_paths@.len() - i,
        {
            assert(self.promoted_paths@.take(i + 1).drop_last() =~= self.promoted_paths@.take(
                i as int,
            ));
            assert(self.promoted_paths@.take(i + 1).last() == self.promoted_paths@[i as int]);
            if self.promoted_paths[i].path.same(p) {
                proof {
                    lemma_times_contains(self.promoted_paths@, i as int);
                }
                return true;
            }
            i = i + 1;
        }
        assert(self.promoted_paths@.take(i as int) =~= self.promoted_paths@);
        false
    }

    /// Writes a value at a path; null removes.
    pub fn write_value(&mut self, p: &Path, v: &JsonValue)
        requires
            old(self).inv(),
        ensures
            final(self).inv(),
            final(self).same_but_tree(old(self)),
            final(self).tree@ == replay::write(
                old(self).tree@,
                p@,
                value::cleaned(v@),
                old(self).blob_backed,
            ),
            final(self).sentinel_paths@ == (if old(self).blob_backed {
                sentinel::without_below(old(self).sentinel_paths@, p@).union(
                    sentinel::sentinels_above(final(self).tree@, p@),
                )
            } else {
                old(self).sentinel_paths@
            }),
    {
        let ghost t0 = self.tree@;
        let ghost s0 = self.sentinel_paths@;
        let ghost leaf = value::cleaned(v@);
        proof {
            value::lemma_cleaned_loaded(v@);
        }
        if self.blob_backed {
            self.sentinel_paths.remove_below(p);
            self.tree.set_lazy(p, v);
            self.sentinel_paths.track_above(&self.tree, p);
            proof {
                lemma_write_tracks(t0, s0, p@, leaf, true);
            }
        } else {
            self.tree.set(p, v);
            proof {
                lemma_eager_write_tracks(t0, s0, p@, leaf);
            }
        }
    }

    /// Merges members at a path; each key is a path below it.
    pub fn merge_value(&mut self, p: &Path, members: &Vec<Member>)
        requires
            old(self).inv(),
        ensures
            final(self).inv(),
            final(self).same_but_tree(old(self)),
            final(self).tree@ == replay::write_all(
                old(self).tree@,
                replay::merge_edits(p@, value::members_json(members@)),
                old(self).blob_backed,
            ),
            forall|x: Seq<Seq<char>>| #[trigger]
                final(self).sentinel_paths@.contains(x) <==> old(self).sentinel_paths@.contains(x)
                    || (old(self).blob_backed && exists|i: int|
                    0 <= i < members@.len() && sentinel::sentinels_above(
                        final(self).tree@,
                        p@ + path::segments((#[trigger] members@[i]).key@),
                    ).contains(x)),
    {
        let ghost t0 = self.tree@;
        let ghost s0 = self.sentinel_paths@;
        let ghost edits = replay::merge_edits(p@, value::members_json(members@));
        let lazy = self.blob_backed;
        self.tree.update(p, members, lazy);
        proof {
            lemma_merge_loaded(p@, value::members_json(members@));
            lemma_edits_track(t0, s0, edits, lazy);
        }
        if lazy {
            let mut i: usize = 0;
            while i < members.len()
                invariant
                    i <= members@.len(),
                    self.same_but_tree(old(self)),
                    self.sentinel_paths.inv(),
                    self.tree@ == replay::write_all(t0, edits, lazy),
                    lazy == old(self).blob_backed,
                    forall|x: Seq<Seq<char>>| #[trigger]
                        self.sentinel_paths@.contains(x) <==> s0.contains(x) || exists|j: int|
                            0 <= j < i && sentinel::sentinels_above(
                                self.tree@,
                                p@ + path::segments((#[trigger] members@[j]).key@),
                            ).contains(x),
                decreases members@.len() - i,
            {
                let ghost before = self.sentinel_paths@;
                let rel = Path::parse(members[i].key.as_str());
                let leaf = p.join(&rel);
                self.sentinel_paths.track_above(&self.tree, &leaf);
                proof {
                    assert forall|x: Seq<Seq<char>>| #[trigger]
                        self.sentinel_paths@.contains(x) <==> s0.contains(x) || exists|j: int|
                            0 <= j < i + 1 && sentinel::sentinels_above(
                                self.tree@,
                                p@ + path::segments((#[trigger] members@[j]).key@),
                            ).contains(x) by {
                        if sentinel::sentinels_above(self.tree@, leaf@).contains(x) {
                            assert(sentinel::sentinels_above(
                                self.tree@,
                                p@ + path::segments(members@[i as int].key@),
                            ).contains(x));
                        }
                        if before.contains(x) && !s0.contains(x) {
                            let j = choose|j: int|
                                0 <= j < i && sentinel::sentinels_above(
                                    self.tree@,
                                    p@ + path::segments((#[trigger] members@[j]).key@),
                                ).contains(x);
                            assert(sentinel::sentinels_above(
                                self.tree@,
                                p@ + path::segments(members@[j].key@),
                            ).contains(x));
                        }
                    }
                }
                i = i + 1;
            }
            proof {
                assert forall|q: Seq<Seq<char>>| #[trigger] shape::sentinel_at(
                    self.tree@,
                    q,
                ) implies self.sentinel_paths@.contains(q) by {
                    if !s0.contains(q) {
                        let j = choose|j: int|
                            0 <= j < edits.len() && path::is_prefix(q, (#[trigger] edits[j]).path)
                                && q.len() < edits[j].path.len();
                        assert(edits[j].path == p@ + path::segments(members@[j].key@));
                        assert(sentinel::sentinels_above(
                            self.tree@,
                            p@ + path::segments(members@[j].key@),
                        ).contains(q));
                    }
                }
            }
        }
    }

    /// Takes away what stands at a path.
    pub fn remove_value(&mut self, p: &Path)
        requires
            old(self).inv(),
        ensures
            final(self).inv(),
            final(self).same_but_tree(old(self)),
            final(self).tree@ == shape::cut(old(self).tree@, p@),
            final(self).sentinel_paths@ == sentinel::without_below(old(self).sentinel_paths@, p@),
    {
        let ghost t0 = self.tree@;
        let ghost s0 = self.sentinel_paths@;
        self.tree.remove(p);
        self.sentinel_paths.remove_below(p);
        proof {
            lemma_cut_tracks(t0, s0, p@);
        }
    }

    /// Takes note of an entry that was handed to the log writer: only an entry that
    /// was taken becomes pending, under its sequence number.
    pub fn record_entry(&mut self, entry: WalEntry, outcome: AppendOutcome)
        requires
            old(self).inv(),
        ensures
            final(self).inv(),
            final(self).tree == old(self).tree,
            final(self).sentinel_paths == old(self).sentinel_paths,
            final(self).promoted_paths == old(self).promoted_paths,
            final(self).blob_backed == old(self).blob_backed,
            final(self).blob_sequence == old(self).blob_sequence,
            match outcome {
                AppendOutcome::Appended { sequence, .. } => {
                    let last = (WalEntry { sequence, ..entry });
                    &&& final(self).pending_wal_entries@ == old(self).pending_wal_entries@.push(
                        last,
                    )
                    &&& final(self).log() == old(self).log().push(entry@.write)
                    &&& final(self).records() == old(self).records().push(
                        Record { sequence, write: entry@.write },
                    )
                },
                _ => final(self).pending_wal_entries == old(self).pending_wal_entries,
            },
    {
        match outcome {
            AppendOutcome::Appended { sequence, .. } => {
                let ghost before = self.log();
                let ghost groups = self.wal_index@;
                let index = self.pending_wal_entries.len();
                self.wal_index.add(entry.path.as_str(), index);
                let kept = WalEntry { op: entry.op, path: entry.path, value: entry.value, sequence };
                self.pending_wal_entries.push(kept);
                let grown = self.pending_wal_entries.len();
                proof {
                    assert(kept@ == (Record { sequence, write: entry@.write }));
                    assert(self.log() =~= before.push(entry@.write));
                    assert(self.records() =~= old(self).records().push(kept@));
                    assert(grown == before.len() + 1);
                    wal::lemma_added_indexes(groups, before, entry@.write);
                    assert(self.log().drop_last() =~= before);
                }
            },
            _ => {},
        }
    }

    /// Drops the entries that the blob now holds: those up to a sequence number.
    pub fn trim_log(&mut self, sequence: i64)
        requires
            old(self).inv(),
        ensures
            final(self).inv(),
            final(self).tree == old(self).tree,
            final(self).sentinel_paths == old(self).sentinel_paths,
            final(self).promoted_paths == old(self).promoted_paths,
            final(self).blob_backed == old(self).blob_backed,
            final(self).blob_sequence == sequence,
            final(self).pending_wal_entries@ == later_than(
                old(self).pending_wal_entries@,
                sequence,
            ),
    {
        let ghost all = self.pending_wal_entries@;
        let mut kept: Vec<WalEntry> = Vec::new();
        let mut old_list: Vec<WalEntry> = Vec::new();
        std::mem::swap(&mut old_list, &mut self.pending_wal_entries);
        let mut reversed: Vec<WalEntry> = Vec::new();
        assert(all.take(all.len() as int) =~= all);
        assert(later_than(all.skip(all.len() as int), sequence) =~= Seq::<WalEntry>::empty());
        while old_list.len() > 0
            invariant
                old_list@ == all.take(old_list@.len() as int),
                old_list@.len() <= all.len(),
                reversed@.reverse() == later_than(all.skip(old_list@.len() as int), sequence),
            decreases old_list@.len(),
        {
            let ghost n = old_list@.len() as int;
            let ghost before = reversed@;
            match old_list.pop() {
                Some(e) => {
                    proof {
                        assert(e == all[n - 1]);
                        assert(all.skip(n - 1) =~= seq![e] + all.skip(n));
                        lemma_later_than_front(e, all.skip(n), sequence);
                        assert(old_list@ =~= all.take(n - 1));
                    }
                    if e.sequence > sequence {
                        reversed.push(e);
                        assert(reversed@.reverse() =~= seq![e] + before.reverse());
                    }
                },
                None => {},
            }
        }
        assert(all.skip(0) =~= all);
        let ghost wanted = later_than(all, sequence);
        while reversed.len() > 0
            invariant
                kept@ + reversed@.reverse() == wanted,
            decreases reversed@.len(),
        {
            let ghost r0 = reversed@;
            let ghost k0 = kept@;
            match reversed.pop() {
                Some(e) => {
                    kept.push(e);
                    assert(k0 + r0.reverse() =~= kept@ + reversed@.reverse());
                },
                None => {},
            }
        }
        assert(kept@ + reversed@.reverse() =~= kept@);
        self.wal_index.rebuild(&kept);
        self.pending_wal_entries = kept;
        self.blob_sequence = sequence;
    }
}

/// The entries with a sequence number above `sequence`, in order.
pub open spec fn later_than(entries: Seq<WalEntry>, sequence: i64) -> Seq<WalEntry>
    decreases entries.len(),
{
    if entries.len() == 0 {
        Seq::empty()
    } else if entries.last().sequence > sequence {
        later_than(entries.drop_last(), sequence).push(entries.last())
    } else {
        later_than(entries.drop_last(), sequence)
    }
}

/// The later entries of a list with one more in front.
pub proof fn lemma_later_than_front(e: WalEntry, rest: Seq<WalEntry>, sequence: i64)
    ensures
        later_than(seq![e] + rest, sequence) == (if e.sequence > sequence {
            seq![e] + later_than(rest, sequence)
        } else {
            later_than(rest, sequence)
        }),
    decreases rest.len(),
{
    let all = seq![e] + rest;
    if rest.len() == 0 {
        assert(all.drop_last() =~= Seq::<WalEntry>::empty());
        reveal_with_fuel(later_than, 2);
        if e.sequence > sequence {
            assert(later_than(all, sequence) =~= seq![e] + later_than(rest, sequence));
        }
    } else {
        assert(all.drop_last() =~= seq![e] + rest.drop_last());
        assert(all.last() == rest.last());
        lemma_later_than_front(e, rest.drop_last(), sequence);
        if e.sequence > sequence {
            assert(later_than(all, sequence) =~= seq![e] + later_than(rest, sequence));
        }
    }
}

/// A list with one time changed.
pub proof fn lemma_times_update(s: Seq<Promoted>, i: int, x: Promoted)
    requires
        0 <= i < s.len(),
        distinct(s),
        x.path@ == s[i].path@,
    ensures
        times(s.update(i, x)) == times(s).insert(x.path@, x.at),
    decreases s.len(),
{
    let t = s.update(i, x);
    if i == s.len() - 1 {
        assert(t.drop_last() =~= s.drop_last());
        assert(times(t) =~= times(s).insert(x.path@, x.at));
    } else {
        assert(t.drop_last() =~= s.drop_last().update(i, x));
        assert(s[i].path@ != s[s.len() - 1].path@);
        assert forall|a: int, b: int| 0 <= a < b < s.drop_last().len() implies (
        #[trigger] s.drop_last()[a]).path@ != (#[trigger] s.drop_last()[b]).path@ by {
            assert(s[a].path@ != s[b].path@);
        }
        lemma_times_update(s.drop_last(), i, x);
        assert(times(t) =~= times(s).insert(x.path@, x.at));
    }
}

/// A listed path has a time.
pub proof fn lemma_times_contains(s: Seq<Promoted>, i: int)
    requires
        0 <= i < s.len(),
    ensures
        times(s).contains_key(s[i].path@),
    decreases s.len(),
{
    if i < s.len() - 1 {
        lemma_times_contains(s.drop_last(), i);
    }
}

/// A removal keeps every sentinel tracked.
pub proof fn lemma_cut_tracks(t: Shape, s: Set<Seq<Seq<char>>>, p: Seq<Seq<char>>)
    requires
        sentinel::all_tracked(t, s),
    ensures
        sentinel::all_tracked(shape::cut(t, p), sentinel::without_below(s, p)),
{
    let t2 = shape::cut(t, p);
    assert forall|q: Seq<Seq<char>>| #[trigger] shape::sentinel_at(
        t2,
        q,
    ) implies sentinel::without_below(s, p).contains(q) by {
        shape::lemma_at_cut(t, p, q);
        if path::is_prefix(p, q) {
            if p.len() == 0 {
                assert(shape::at_or_null(t2, q) is Null);
            }
        } else {
            if path::is_prefix(q, p) {
                if q.len() == p.len() {
                    assert(p.take(q.len() as int) =~= p);
                    assert(q.take(p.len() as int) =~= q);
                    assert(path::is_prefix(p, q));
                }
                let m = shape::at(t, q)->0;
                assert(shape::sentinel_at(t, q));
            } else {
                assert(shape::sentinel_at(t, q));
            }
        }
    }
}

/// A write keeps every sentinel tracked, once those above it are noted.
pub proof fn lemma_write_tracks(
    t: Shape,
    s: Set<Seq<Seq<char>>>,
    p: Seq<Seq<char>>,
    leaf: Shape,
    lazy: bool,
)
    requires
        sentinel::all_tracked(t, s),
        shape::fully_loaded(leaf),
    ensures
        sentinel::all_tracked(
            replay::write(t, p, leaf, lazy),
            sentinel::without_below(s, p).union(
                sentinel::sentinels_above(replay::write(t, p, leaf, lazy), p),
            ),
        ),
{
    let t2 = replay::write(t, p, leaf, lazy);
    if leaf is Null {
        lemma_cut_tracks(t, s, p);
        assert forall|q: Seq<Seq<char>>| #[trigger] shape::sentinel_at(t2, q) implies sentinel::without_below(s, p).union(
            sentinel::sentinels_above(t2, p),
        ).contains(q) by {
            assert(sentinel::without_below(s, p).contains(q));
        }
    } else {
        assert forall|q: Seq<Seq<char>>| #[trigger] shape::sentinel_at(
            t2,
            q,
        ) implies sentinel::without_below(s, p).union(sentinel::sentinels_above(t2, p)).contains(
            q,
        ) by {
            shape::lemma_at_put(t, p, leaf, lazy, q);
            if path::is_prefix(p, q) {
                let r = q.skip(p.len() as int);
                assert(shape::at(leaf, r) is Some ==> !(shape::at(leaf, r)->0 is Sentinel));
            } else if path::is_prefix(q, p) {
                if q.len() == p.len() {
                    assert(p.take(q.len() as int) =~= p);
                    assert(q.take(p.len() as int) =~= q);
                }
                assert(sentinel::sentinels_above(t2, p).contains(q));
            } else {
                assert(shape::sentinel_at(t, q));
            }
        }
    }
}

/// A write that fills in objects makes no sentinels.
pub proof fn lemma_eager_write_tracks(
    t: Shape,
    s: Set<Seq<Seq<char>>>,
    p: Seq<Seq<char>>,
    leaf: Shape,
)
    requires
        sentinel::all_tracked(t, s),
        shape::fully_loaded(leaf),
    ensures
        sentinel::all_tracked(replay::write(t, p, leaf, false), s),
{
    let t2 = replay::write(t, p, leaf, false);
    if leaf is Null {
        lemma_cut_tracks(t, s, p);
        assert forall|q: Seq<Seq<char>>| #[trigger] shape::sentinel_at(t2, q) implies s.contains(
            q,
        ) by {
            assert(sentinel::without_below(s, p).contains(q));
        }
    } else {
        assert forall|q: Seq<Seq<char>>| #[trigger] shape::sentinel_at(t2, q) implies s.contains(
            q,
        ) by {
            shape::lemma_at_put(t, p, leaf, false, q);
            if path::is_prefix(p, q) {
                let r = q.skip(p.len() as int);
                assert(shape::at(leaf, r) is Some ==> !(shape::at(leaf, r)->0 is Sentinel));
            } else if path::is_prefix(q, p) {
                if q.len() == p.len() {
                    assert(p.take(q.len() as int) =~= p);
                    assert(q.take(p.len() as int) =~= q);
                }
                shape::lemma_put_kind(
                    shape::at_or_null(t, q),
                    p.skip(q.len() as int),
                    leaf,
                    false,
                );
                assert(shape::sentinel_at(t, q));
            } else {
                assert(shape::sentinel_at(t, q));
            }
        }
    }
}

/// The steps of a merge write loaded data.
pub proof fn lemma_merge_loaded(base: Seq<Seq<char>>, members: Seq<(Seq<char>, Json)>)
    ensures
        replay::loaded_edits(replay::merge_edits(base, members)),
{
    let edits = replay::merge_edits(base, members);
    assert forall|i: int| 0 <= i < edits.len() implies shape::fully_loaded(
        (#[trigger] edits[i]).leaf,
    ) by {
        value::lemma_cleaned_loaded(members[i].1);
    }
}

/// After a list of steps, a sentinel either was there before or stands above a
/// written path.
pub proof fn lemma_edits_track(
    t: Shape,
    s: Set<Seq<Seq<char>>>,
    edits: Seq<replay::Edit>,
    lazy: bool,
)
    requires
        sentinel::all_tracked(t, s),
        replay::loaded_edits(edits),
    ensures
        forall|q: Seq<Seq<char>>| #[trigger]
            shape::sentinel_at(replay::write_all(t, edits, lazy), q) ==> s.contains(q) || (lazy
                && exists|j: int|
                0 <= j < edits.len() && path::is_prefix(q, (#[trigger] edits[j]).path) && q.len()
                    < edits[j].path.len()),
    decreases edits.len(),
{
    if edits.len() > 0 {
        let before = edits.drop_last();
        let e = edits.last();
        assert(forall|i: int| 0 <= i < before.len() ==> before[i] == edits[i]);
        lemma_edits_track(t, s, before, lazy);
        let t1 = replay::write_all(t, before, lazy);
        let t2 = replay::write_all(t, edits, lazy);
        let s1 = Set::new(|q: Seq<Seq<char>>| shape::sentinel_at(t1, q));
        assert(shape::fully_loaded(edits[edits.len() - 1].leaf));
        if lazy {
            lemma_write_tracks(t1, s1, e.path, e.leaf, true);
        } else {
            lemma_eager_write_tracks(t1, s1, e.path, e.leaf);
        }
        assert forall|q: Seq<Seq<char>>| #[trigger] shape::sentinel_at(t2, q) implies s.contains(q)
            || (lazy && exists|j: int|
            0 <= j < edits.len() && path::is_prefix(q, (#[trigger] edits[j]).path) && q.len()
                < edits[j].path.len()) by {
            if lazy {
                if s1.contains(q) {
                    if !s.contains(q) {
                        let j = choose|j: int|
                            0 <= j < before.len() && path::is_prefix(
                                q,
                                (#[trigger] before[j]).path,
                            ) && q.len() < before[j].path.len();
                        assert(edits[j] == before[j]);
                    }
                } else {
                    assert(sentinel::sentinels_above(t2, e.path).contains(q));
                    let j = edits.len() - 1;
                    if q.len() > 0 || e.path.len() > 0 {
                        assert(e.path.take(q.len() as int) =~= q);
                        assert(path::is_prefix(q, edits[j].path) && q.len() < edits[j].path.len());
                    } else {
                        // The root itself was written, with loaded data.
                        assert(q =~= e.path);
                        if e.leaf is Null {
                            assert(shape::at(t2, q) == Some(Shape::Null));
                        } else {
                            assert(shape::at(t2, q) == Some(e.leaf));
                            assert(shape::at(e.leaf, q) == Some(e.leaf));
                        }
                    }
                }
            } else {
                assert(s1.contains(q));
            }
        }
    }
}

/// Each path in memory is kept with the time of its own last use, and no other path has one.
pub proof fn law_paths_have_their_times(s: Seq<Promoted>, p: Seq<Seq<char>>)
    requires
        distinct(s),
    ensures
        times(s).contains_key(p) <==> exists|i: int| 0 <= i < s.len() && (#[trigger] s[i]).path@ == p,
        forall|i: int| 0 <= i < s.len() && (#[trigger] s[i]).path@ == p ==> times(s)[p] == s[i].at,
    decreases s.len(),
{
    if s.len() > 0 {
        let d = s.drop_last();
        assert forall|a: int, b: int| 0 <= a < b < d.len() implies (#[trigger] d[a]).path@ != (
        #[trigger] d[b]).path@ by {
            assert(s[a].path@ != s[b].path@);
        }
        law_paths_have_their_times(d, p);
        assert(s[s.len() - 1] == s.last());
        if s.last().path@ != p {
            if exists|i: int| 0 <= i < s.len() && (#[trigger] s[i]).path@ == p {
                let i = choose|i: int| 0 <= i < s.len() && (#[trigger] s[i]).path@ == p;
                assert(d[i] == s[i]);
            }
            if exists|i: int| 0 <= i < d.len() && (#[trigger] d[i]).path@ == p {
                let i = choose|i: int| 0 <= i < d.len() && (#[trigger] d[i]).path@ == p;
                assert(d[i] == s[i]);
            }
        }
        assert forall|i: int| 0 <= i < s.len() && (#[trigger] s[i]).path@ == p implies times(s)[p]
            == s[i].at by {
            if i < s.len() - 1 {
                assert(s[i].path@ != s[s.len() - 1].path@);
                assert(d[i] == s[i]);
            }
        }
    }
}

} // verus!
