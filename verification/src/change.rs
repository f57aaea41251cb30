//! A write that has been accepted: what it does to the data and the log, and what
//! subscribers are told.
use crate::database::{Database, WalState};
use crate::lifecycle::SyncOutcome;
use crate::path;
use crate::path::Path;
use crate::plain;
use crate::replay;
use crate::replay::{Edit, Entry, WalOp};
use crate::sentinel;
use crate::settings::{flushes_before_ack, Settings};
use crate::shape;
use crate::shape::Shape;
use crate::store::AppendOutcome;
use crate::value;
use crate::value::{copy_members, copy_value, Json, JsonValue, Member};
use crate::wal::{Record, WalEntry};
use vstd::prelude::*;

verus! {

/// An accepted write.
pub enum Change {
    Put { path: String, value: JsonValue },
    Merge { path: String, members: Vec<Member> },
    Drop { path: String },
}

impl View for Change {
    type V = Entry;

    /// The write as the log would hold it.
    open spec fn view(&self) -> Entry {
        match *self {
            Change::Put { path, value } => Entry {
                op: WalOp::Assign,
                path: path::segments(path@),
                value: Some(value@),
            },
            Change::Merge { path, members } => Entry {
                op: WalOp::Update,
                path: path::segments(path@),
                value: Some(Json::Object(value::members_json(members@))),
            },
            Change::Drop { path } => Entry {
                op: WalOp::Delete,
                path: path::segments(path@),
                value: None,
            },
        }
    }
}

/// How the log holds a write: setting a path to null is a removal.
pub open spec fn logged(e: Entry) -> Entry {
    if e.op is Assign && e.value == Some(Json::Null) {
        Entry { op: WalOp::Delete, path: e.path, value: None }
    } else {
        e
    }
}

/// The form in which the log holds a write does what the write does.
pub proof fn law_logged_form_is_faithful(e: Entry)
    ensures
        replay::entry_edits(logged(e)) == replay::entry_edits(e),
{
    if e.op is Assign && e.value == Some(Json::Null) {
        assert(value::cleaned(Json::Null) == Shape::Null);
    }
}

impl Change {
    /// The path text of the write.
    pub open spec fn place(&self) -> Seq<char> {
        match *self {
            Change::Put { path, .. } => path@,
            Change::Merge { path, .. } => path@,
            Change::Drop { path } => path@,
        }
    }

    /// The path text of the write.
    pub fn path(&self) -> (r: &str)
        ensures
            r@ == self.place(),
    {
        match self {
            Change::Put { path, .. } => path.as_str(),
            Change::Merge { path, .. } => path.as_str(),
            Change::Drop { path } => path.as_str(),
        }
    }

    /// A copy.
    pub fn copy(&self) -> (r: Change)
        ensures
            r@ == self@,
            r.place() == self.place(),
            r is Put == self is Put,
            r is Merge == self is Merge,
    {
        match self {
            Change::Put { path, value } => Change::Put {
                path: path.clone(),
                value: copy_value(value),
            },
            Change::Merge { path, members } => Change::Merge {
                path: path.clone(),
                members: copy_members(members),
            },
            Change::Drop { path } => Change::Drop { path: path.clone() },
        }
    }

    /// The entry that the log gets.
    pub fn entry(&self) -> (r: WalEntry)
        ensures
            r@ == (Record { sequence: 0, write: logged(self@) }),
            r.path@ == self.place(),
    {
        match self {
            Change::Put { path, value } => match value {
                JsonValue::Null => WalEntry::delete(path.as_str()),
                other => WalEntry::assign(path.as_str(), other),
            },
            Change::Merge { path, members } => WalEntry::update(path.as_str(), members),
            Change::Drop { path } => WalEntry::delete(path.as_str()),
        }
    }
}

/// What kind of write subscribers are told of.
#[derive(Clone, Copy, PartialEq, Eq, Structural)]
pub enum MutationKind {
    Assign,
    Update,
    Remove,
}

/// What subscribers are told of a write.
pub struct MutationEvent {
    pub kind: MutationKind,
    /// The path in canonical form.
    pub path: String,
    pub new_value: Option<JsonValue>,
    pub updates: Option<Vec<Member>>,
    pub volatile: bool,
    pub writer: Option<String>,
}

/// What an event says of the written data.
pub open spec fn event_tells(e: MutationEvent, c: Change) -> bool {
    &&& e.path@ == path::path_text(path::segments(c.place()))
    &&& match c {
        Change::Put { value, .. } => e.kind == MutationKind::Assign && value::opt_json(e.new_value)
            == Some(value@) && e.updates is None,
        Change::Merge { members, .. } => e.kind == MutationKind::Update && e.new_value is None
            && e.updates is Some && value::members_json(e.updates->0@) == value::members_json(
            members@,
        ),
        Change::Drop { .. } => e.kind == MutationKind::Remove && e.new_value is None
            && e.updates is None,
    }
}

/// The event for a write. Its path is canonical, so that it is matched with the paths
/// that subscribers gave whatever form the writer used.
pub fn mutation_event(c: &Change, volatile: bool, writer: Option<&str>) -> (r: MutationEvent)
    ensures
        event_tells(r, *c),
        r.volatile == volatile,
        match writer {
            Some(w) => r.writer is Some && r.writer->0@ == w@,
            None => r.writer is None,
        },
{
    let path = Path::parse(c.path()).to_text();
    let writer = match writer {
        Some(w) => Some(w.to_owned()),
        None => None,
    };
    match c {
        Change::Put { value, .. } => MutationEvent {
            kind: MutationKind::Assign,
            path,
            new_value: Some(copy_value(value)),
            updates: None,
            volatile,
            writer,
        },
        Change::Merge { members, .. } => MutationEvent {
            kind: MutationKind::Update,
            path,
            new_value: None,
            updates: Some(copy_members(members)),
            volatile,
            writer,
        },
        Change::Drop { .. } => MutationEvent {
            kind: MutationKind::Remove,
            path,
            new_value: None,
            updates: None,
            volatile,
            writer,
        },
    }
}

/// Two forms of one path lead to the same events.
pub proof fn law_event_path_is_canonical(a: MutationEvent, b: MutationEvent, c: Change, d: Change)
    requires
        event_tells(a, c),
        event_tells(b, d),
        path::segments(c.place()) == path::segments(d.place()),
    ensures
        a.path@ == b.path@,
{
}

/// The log after a write was handed to it: one that was taken stands at the end, under the
/// number that it got.
pub open spec fn recorded(log: Seq<Record>, e: Entry, outcome: AppendOutcome) -> Seq<Record> {
    match outcome {
        AppendOutcome::Appended { sequence, .. } => log.push(
            Record { sequence, write: logged(e) },
        ),
        _ => log,
    }
}

/// The paths listed as sentinels after a write that left the tree `t`. Writing into a
/// partly loaded tree leaves sentinels on the way.
pub open spec fn marks_after(
    marks: Set<Seq<Seq<char>>>,
    e: Entry,
    t: Shape,
    lazy: bool,
) -> Set<Seq<Seq<char>>> {
    match e.op {
        WalOp::Assign => if lazy {
            sentinel::without_below(marks, e.path).union(sentinel::sentinels_above(t, e.path))
        } else {
            marks
        },
        WalOp::Update => Set::new(
            |x: Seq<Seq<char>>|
                marks.contains(x) || (lazy && exists|i: int|
                    0 <= i < replay::entry_edits(e).len() && sentinel::sentinels_above(
                        t,
                        (#[trigger] replay::entry_edits(e)[i]).path,
                    ).contains(x)),
        ),
        WalOp::Delete => sentinel::without_below(marks, e.path),
    }
}

/// The state of the log writer after an entry was handed to it.
pub open spec fn wal_after(before: WalState, outcome: AppendOutcome) -> WalState {
    match outcome {
        AppendOutcome::NoWriter => before,
        AppendOutcome::Failed => WalState { failed: true, ..before },
        AppendOutcome::Appended { bytes, .. } => WalState {
            dirty: true,
            pending_entries: if before.pending_entries < usize::MAX {
                (before.pending_entries + 1) as usize
            } else {
                usize::MAX
            },
            pending_bytes: if before.pending_bytes + bytes <= u64::MAX {
                (before.pending_bytes + bytes) as u64
            } else {
                u64::MAX
            },
            ..before
        },
    }
}

/// The state of the log writer after a sync, if there was one.
pub open spec fn wal_synced(before: WalState, sync: Option<SyncOutcome>) -> WalState {
    match sync {
        None => before,
        Some(SyncOutcome::Synced { .. }) => WalState {
            dirty: false,
            pending_entries: 0,
            pending_bytes: 0,
            ..before
        },
        Some(SyncOutcome::Failed) => WalState { failed: true, ..before },
    }
}

/// What became of writes that were handed to the log.
#[derive(Clone, Copy, PartialEq, Eq, Structural)]
pub enum Landing {
    /// The log did not take them all: they may not be carried out.
    Lost,
    /// The log took them, but not as safely as an acknowledgement asks for.
    Unsure,
    /// Nothing stands in the way of an acknowledgement.
    Safe,
}

/// Whether a sync went well.
pub open spec fn went_well(sync: Option<SyncOutcome>) -> bool {
    sync matches Some(SyncOutcome::Synced { .. })
}

/// What became of writes: one that the log refused is lost with all the others, and where
/// writes are flushed before they are acknowledged, one that the log took has to be
/// flushed.
pub open spec fn landing(
    outcomes: Seq<AppendOutcome>,
    sync: Option<SyncOutcome>,
    settings: Settings,
) -> Landing {
    if exists|i: int| 0 <= i < outcomes.len() && (#[trigger] outcomes[i]) is Failed {
        Landing::Lost
    } else if settings.wal_sync_interval_ms == 0 && !went_well(sync) && exists|i: int|
        0 <= i < outcomes.len() && (#[trigger] outcomes[i]) is Appended {
        Landing::Unsure
    } else {
        Landing::Safe
    }
}

/// Whether a list of outcomes holds one of a kind: a refusal, and an entry taken.
fn kinds_of(outcomes: &Vec<AppendOutcome>) -> (r: (bool, bool))
    ensures
        r.0 == exists|i: int| 0 <= i < outcomes@.len() && (#[trigger] outcomes@[i]) is Failed,
        r.1 == exists|i: int| 0 <= i < outcomes@.len() && (#[trigger] outcomes@[i]) is Appended,
{
    let mut failed = false;
    let mut taken = false;
    let mut i: usize = 0;
    while i < outcomes.len()
        invariant
            i <= outcomes@.len(),
            failed == exists|j: int| 0 <= j < i && (#[trigger] outcomes@[j]) is Failed,
            taken == exists|j: int| 0 <= j < i && (#[trigger] outcomes@[j]) is Appended,
        decreases outcomes@.len() - i,
    {
        match outcomes[i] {
            AppendOutcome::Failed => {
                assert(outcomes@[i as int] is Failed);
                failed = true;
            },
            AppendOutcome::Appended { .. } => {
                assert(outcomes@[i as int] is Appended);
                taken = true;
            },
            AppendOutcome::NoWriter => {},
        }
        i = i + 1;
    }
    (failed, taken)
}

/// What became of writes that were handed to the log.
pub fn landing_of(
    outcomes: &Vec<AppendOutcome>,
    sync: Option<SyncOutcome>,
    settings: &Settings,
) -> (r: Landing)
    ensures
        r == landing(outcomes@, sync, *settings),
{
    let (failed, taken) = kinds_of(outcomes);
    let flushed = match sync {
        Some(SyncOutcome::Synced { .. }) => true,
        _ => false,
    };
    if failed {
        Landing::Lost
    } else if flushes_before_ack(settings) && !flushed && taken {
        Landing::Unsure
    } else {
        Landing::Safe
    }
}

/// A single step is what it says.
proof fn lemma_write_one(n: Shape, e: Edit, lazy: bool)
    ensures
        replay::write_all(n, seq![e], lazy) == replay::write(n, e.path, e.leaf, lazy),
{
    reveal_with_fuel(replay::write_all, 2);
    assert(seq![e].drop_last() =~= Seq::<Edit>::empty());
    assert(seq![e].last() == e);
}

impl Database {
    /// An earlier state with the data and the log of this one.
    pub open spec fn written(&self, before: Database) -> Database {
        Database { store: self.store, wal: self.wal, ..before }
    }

    /// Whether this state is an earlier one after a write, and nothing else.
    pub open spec fn wrote(&self, before: &Database, e: Entry, outcome: AppendOutcome) -> bool {
        &&& *self == (Database { store: self.store, wal: self.wal, ..*before })
        &&& self.holds_write(before, e, outcome)
    }

    /// Whether the data changed as a write says, and the log has the write, under its
    /// number, if the writer took it.
    pub open spec fn holds_write(
        &self,
        before: &Database,
        e: Entry,
        outcome: AppendOutcome,
    ) -> bool {
        &&& self.wal == wal_after(before.wal, outcome)
        &&& self.store.tree@ == replay::write_all(
            before.store.tree@,
            replay::entry_edits(e),
            before.store.blob_backed,
        )
        &&& self.store.log() == match outcome {
            AppendOutcome::Appended { .. } => before.store.log().push(logged(e)),
            _ => before.store.log(),
        }
        &&& self.store.records() == recorded(before.store.records(), e, outcome)
        &&& self.store.sentinel_paths@ == marks_after(
            before.store.sentinel_paths@,
            e,
            self.store.tree@,
            before.store.blob_backed,
        )
        &&& self.store.blob_backed == before.store.blob_backed
        &&& self.store.promoted_paths == before.store.promoted_paths
        &&& self.store.blob_sequence == before.store.blob_sequence
    }

    /// Whether this state is an earlier one after a write and a sync, and nothing else.
    pub open spec fn wrote_synced(
        &self,
        before: &Database,
        e: Entry,
        outcome: AppendOutcome,
        sync: Option<SyncOutcome>,
    ) -> bool {
        &&& (Database { wal: wal_after(before.wal, outcome), ..*self }).wrote(before, e, outcome)
        &&& self.wal == wal_synced(wal_after(before.wal, outcome), sync)
    }

    /// Notes what came of a sync, if there was one; whether compaction is to be asked for
    /// is returned.
    pub(crate) fn note_sync(&mut self, sync: Option<SyncOutcome>) -> (r: bool)
        requires
            old(self).inv(),
        ensures
            final(self).inv(),
            *final(self) == (Database { wal: wal_synced(old(self).wal, sync), ..*old(self) }),
            r == (sync == Some(SyncOutcome::Synced { rotated: true })),
    {
        match sync {
            Some(o) => self.sync_wal(o),
            None => false,
        }
    }

    /// Notes what became of an entry that was handed to the log writer.
    pub(crate) fn note_append(&mut self, outcome: AppendOutcome)
        ensures
            *final(self) == (Database { wal: wal_after(old(self).wal, outcome), ..*old(self) }),
    {
        match outcome {
            AppendOutcome::NoWriter => {},
            AppendOutcome::Failed => {
                self.wal.failed = true;
            },
            AppendOutcome::Appended { bytes, .. } => {
                self.wal.dirty = true;
                self.wal.pending_entries = self.wal.pending_entries.saturating_add(1);
                self.wal.pending_bytes = self.wal.pending_bytes.saturating_add(bytes);
            },
        }
    }

    /// Carries out a write whose log entry has been handed to the log writer.
    pub fn commit(&mut self, c: &Change, outcome: AppendOutcome)
        requires
            old(self).inv(),
        ensures
            final(self).inv(),
            final(self).wrote(old(self), c@, outcome),
    {
        let ghost t0 = self.store.tree@;
        let ghost lazy = self.store.blob_backed;
        let p = Path::parse(c.path());
        match c {
            Change::Put { value, .. } => {
                self.store.write_value(&p, value);
                proof {
                    lemma_write_one(t0, Edit { path: p@, leaf: value::cleaned(value@) }, lazy);
                }
            },
            Change::Merge { members, .. } => {
                let ghost marks = self.store.sentinel_paths@;
                self.store.merge_value(&p, members);
                proof {
                    let edits = replay::entry_edits(c@);
                    let t = self.store.tree@;
                    let after = marks_after(marks, c@, t, lazy);
                    assert forall|x: Seq<Seq<char>>| #[trigger]
                        self.store.sentinel_paths@.contains(x) == after.contains(x) by {
                        if self.store.sentinel_paths@.contains(x) && !marks.contains(x) {
                            let i = choose|i: int|
                                0 <= i < members@.len() && sentinel::sentinels_above(
                                    t,
                                    p@ + path::segments((#[trigger] members@[i]).key@),
                                ).contains(x);
                            assert(edits[i].path == p@ + path::segments(members@[i].key@));
                        }
                        if after.contains(x) && !marks.contains(x) {
                            let i = choose|i: int|
                                0 <= i < edits.len() && sentinel::sentinels_above(
                                    t,
                                    (#[trigger] edits[i]).path,
                                ).contains(x);
                            assert(edits[i].path == p@ + path::segments(members@[i].key@));
                        }
                    }
                    assert(self.store.sentinel_paths@ =~= after);
                }
            },
            Change::Drop { .. } => {
                self.store.remove_value(&p);
                proof {
                    lemma_write_one(t0, Edit { path: p@, leaf: Shape::Null }, lazy);
                }
            },
        }
        self.store.record_entry(c.entry(), outcome);
        self.note_append(outcome);
    }
}

/// What a client reads at a path once everything there is loaded is what the blob and
/// the log hold: a write that the log took keeps the tree true to them.
pub proof fn law_write_keeps_tree_true(
    before: Database,
    after: Database,
    e: Entry,
    outcome: AppendOutcome,
    blob: Shape,
)
    requires
        after.holds_write(&before, e, outcome),
        before.store.blob_backed,
        outcome is Appended,
        shape::fully_loaded(blob),
        shape::agrees(before.store.tree@, replay::full_data(blob, before.store.log())),
    ensures
        shape::agrees(after.store.tree@, replay::full_data(blob, after.store.log())),
{
    let full = replay::full_data(blob, before.store.log());
    let edits = replay::entry_edits(e);
    replay::lemma_entry_loaded(e);
    replay::lemma_replay_loaded(blob, before.store.log());
    replay::law_write_all_agrees(before.store.tree@, full, edits);
    law_logged_form_is_faithful(e);
    let log = after.store.log();
    assert(log.drop_last() =~= before.store.log());
    assert(log.last() == logged(e));
}

/// A path holds what was last put there, unless that was null.
pub proof fn law_read_after_write(
    before: Database,
    after: Database,
    p: Seq<Seq<char>>,
    v: Json,
    outcome: AppendOutcome,
)
    requires
        after.holds_write(
            &before,
            Entry { op: WalOp::Assign, path: p, value: Some(v) },
            outcome,
        ),
        !(v is Null),
    ensures
        shape::at(after.store.tree@, p) == Some(value::cleaned(v)),
        plain::tidy(v) && plain::is_whole(v) ==> plain::seen_opt(shape::at(after.store.tree@, p))
            == plain::plain(v),
{
    plain::law_written_leaf_is_read_back(v);
    if plain::tidy(v) && plain::is_whole(v) {
        plain::law_written_value_is_read_back(v);
    }
    let t = before.store.tree@;
    let leaf = value::cleaned(v);
    lemma_write_one(t, Edit { path: p, leaf }, before.store.blob_backed);
    shape::lemma_at_put(t, p, leaf, before.store.blob_backed, p);
    assert(p.take(p.len() as int) =~= p);
    assert(p.skip(p.len() as int) =~= Seq::<Seq<char>>::empty());
}

/// A removed path, and everything below it, reads as absent.
pub proof fn law_read_after_remove(
    before: Database,
    after: Database,
    p: Seq<Seq<char>>,
    q: Seq<Seq<char>>,
    outcome: AppendOutcome,
)
    requires
        after.holds_write(&before, Entry { op: WalOp::Delete, path: p, value: None }, outcome),
        path::is_prefix(p, q),
    ensures
        shape::at_or_null(after.store.tree@, q) is Null,
{
    let t = before.store.tree@;
    lemma_write_one(t, Edit { path: p, leaf: Shape::Null }, before.store.blob_backed);
    shape::lemma_at_cut(t, p, q);
}

/// A write leaves everything alone that lies neither at, above nor below a place that it
/// writes to.
pub proof fn law_write_changes_nothing_else(
    before: Database,
    after: Database,
    e: Entry,
    outcome: AppendOutcome,
    q: Seq<Seq<char>>,
)
    requires
        after.holds_write(&before, e, outcome),
        replay::spares(e, q),
    ensures
        shape::at(after.store.tree@, q) == shape::at(before.store.tree@, q),
{
    replay::law_write_spares_the_rest(before.store.tree@, e, before.store.blob_backed, q);
}

/// After a merge, the path of each key reads as the value that was given for it, null as
/// nothing, unless a later key reaches there too.
pub proof fn law_read_after_merge(
    before: Database,
    after: Database,
    p: Seq<Seq<char>>,
    members: Seq<(Seq<char>, Json)>,
    outcome: AppendOutcome,
    i: int,
)
    requires
        after.holds_write(
            &before,
            Entry { op: WalOp::Update, path: p, value: Some(Json::Object(members)) },
            outcome,
        ),
        0 <= i < members.len(),
        forall|j: int|
            i < j < members.len() ==> !path::related(
                p + path::segments((#[trigger] members[j]).0),
                p + path::segments(members[i].0),
            ),
    ensures
        ({
            let (k, v) = members[i];
            let q = p + path::segments(k);
            &&& v is Null ==> shape::at_or_null(after.store.tree@, q) is Null
            &&& plain::tidy(v) && plain::is_whole(v) ==> plain::seen_opt(
                shape::at(after.store.tree@, q),
            ) == plain::plain(v)
        }),
{
    let e = Entry { op: WalOp::Update, path: p, value: Some(Json::Object(members)) };
    replay::law_merge_stands(before.store.tree@, e, before.store.blob_backed, i);
    let v = members[i].1;
    if plain::tidy(v) && plain::is_whole(v) {
        plain::law_written_value_is_read_back(v);
    }
}

/// A write is kept in the log as it was made, except that setting a path to null is kept as a
/// removal of it; a write that the log did not take is not in it.
pub proof fn law_log_keeps_the_write(
    before: Database,
    after: Database,
    e: Entry,
    outcome: AppendOutcome,
)
    requires
        after.holds_write(&before, e, outcome),
    ensures
        after.store.log().len() == before.store.log().len() + if outcome is Appended {
            1int
        } else {
            0int
        },
        forall|i: int|
            0 <= i < before.store.log().len() ==> #[trigger] after.store.log()[i]
                == before.store.log()[i],
        outcome is Appended ==> after.store.log().last().path == e.path && if e.op is Assign
            && e.value == Some(Json::Null) {
            after.store.log().last().op is Delete
        } else {
            after.store.log().last() == e
        },
{
}

/// An event tells the place of a write in its canonical form, and what was written there.
pub proof fn law_event_tells_what_was_written(e: MutationEvent, c: Change)
    requires
        event_tells(e, c),
    ensures
        path::segments(e.path@) == path::segments(c.place()),
        c matches Change::Put { value, .. } ==> e.kind == MutationKind::Assign && e.new_value is Some
            && e.new_value->0@ == value@ && e.updates is None,
        c matches Change::Merge { members, .. } ==> e.kind == MutationKind::Update && e.updates is Some
            && value::members_json(e.updates->0@) == value::members_json(members@)
            && e.new_value is None,
        c is Drop ==> e.kind == MutationKind::Remove && e.new_value is None && e.updates is None,
{
    path::law_segments_can_be_written(c.place());
    path::law_path_text_is_read_back(path::segments(c.place()));
}

/// The log writer counts what it has taken since the last flush: each entry and its bytes. A
/// flush clears the count, and a failure, of an entry or of a flush, is noted.
pub proof fn law_log_writer_counts(wal: WalState, sequence: i64, bytes: u64)
    ensures
        ({
            let after = wal_after(wal, AppendOutcome::Appended { sequence, bytes });
            &&& after.dirty
            &&& after.failed == wal.failed && after.writer == wal.writer
            &&& wal.pending_entries < usize::MAX ==> after.pending_entries == wal.pending_entries
                + 1
            &&& wal.pending_bytes + bytes <= u64::MAX ==> after.pending_bytes == wal.pending_bytes
                + bytes
        }),
        wal_after(wal, AppendOutcome::NoWriter) == wal,
        wal_after(wal, AppendOutcome::Failed).failed,
        wal_after(wal, AppendOutcome::Failed).pending_entries == wal.pending_entries,
        ({
            let after = wal_synced(wal, Some(SyncOutcome::Synced { rotated: true }));
            &&& !after.dirty && after.pending_entries == 0 && after.pending_bytes == 0
            &&& after.failed == wal.failed
            &&& after == wal_synced(wal, Some(SyncOutcome::Synced { rotated: false }))
        }),
        wal_synced(wal, Some(SyncOutcome::Failed)).failed,
        wal_synced(wal, Some(SyncOutcome::Failed)).dirty == wal.dirty,
        wal_synced(wal, None) == wal,
{
}

/// A write is lost exactly if the log refused one of its entries. It is safe where none was
/// refused and either the log is flushed later, or what was appended has been flushed.
pub proof fn law_where_writes_land(
    outcomes: Seq<AppendOutcome>,
    sync: Option<SyncOutcome>,
    settings: Settings,
)
    ensures
        landing(outcomes, sync, settings) is Lost <==> outcomes.contains(AppendOutcome::Failed),
        !outcomes.contains(AppendOutcome::Failed) && settings.wal_sync_interval_ms != 0 ==> landing(
            outcomes,
            sync,
            settings,
        ) is Safe,
        !outcomes.contains(AppendOutcome::Failed) && sync is Some && sync->0 is Synced ==> landing(
            outcomes,
            sync,
            settings,
        ) is Safe,
        !outcomes.contains(AppendOutcome::Failed) && settings.wal_sync_interval_ms == 0 && (sync
            is None || sync == Some(SyncOutcome::Failed)) ==> (landing(outcomes, sync, settings)
            is Unsure <==> exists|i: int|
            0 <= i < outcomes.len() && (#[trigger] outcomes[i]) is Appended),
{
    if exists|i: int| 0 <= i < outcomes.len() && (#[trigger] outcomes[i]) is Failed {
        let i = choose|i: int| 0 <= i < outcomes.len() && (#[trigger] outcomes[i]) is Failed;
        assert(outcomes[i] == AppendOutcome::Failed);
    }
    if outcomes.contains(AppendOutcome::Failed) {
        let i = choose|i: int| 0 <= i < outcomes.len() && outcomes[i] == AppendOutcome::Failed;
        assert(outcomes[i] is Failed);
    }
}

/// Of the marks that say what must be read again, a write adds only those of holes that are
/// there, on the way to what it wrote. A set or removal drops all at and below its path, and
/// keeps the rest.
pub proof fn law_marks_follow_the_tree(
    marks: Set<Seq<Seq<char>>>,
    e: Entry,
    t: Shape,
    lazy: bool,
    x: Seq<Seq<char>>,
)
    ensures
        marks_after(marks, e, t, lazy).contains(x) ==> marks.contains(x) || (lazy
            && shape::sentinel_at(t, x)),
        e.op is Delete || (e.op is Assign && lazy) ==> (path::is_prefix(e.path, x) && x.len() > 0
            ==> !marks_after(marks, e, t, lazy).contains(x)),
        marks.contains(x) && (e.op is Update || !path::is_prefix(e.path, x)) ==> marks_after(
            marks,
            e,
            t,
            lazy,
        ).contains(x),
        e.op is Assign && lazy && shape::sentinel_at(t, x) && path::is_prefix(x, e.path) && x.len()
            < e.path.len() ==> marks_after(marks, e, t, lazy).contains(x),
        forall|i: int|
            e.op is Update && lazy && shape::sentinel_at(t, x) && 0 <= i < replay::entry_edits(
                e,
            ).len() && path::is_prefix(x, (#[trigger] replay::entry_edits(e)[i]).path) && x.len()
                < replay::entry_edits(e)[i].path.len() ==> marks_after(marks, e, t, lazy).contains(
                x,
            ),
{
    assert forall|i: int|
        e.op is Update && lazy && shape::sentinel_at(t, x) && 0 <= i < replay::entry_edits(e).len()
            && path::is_prefix(x, (#[trigger] replay::entry_edits(e)[i]).path) && x.len()
            < replay::entry_edits(e)[i].path.len() implies marks_after(
        marks,
        e,
        t,
        lazy,
    ).contains(x) by {
        assert(sentinel::sentinels_above(t, replay::entry_edits(e)[i].path).contains(x));
    }
    if path::is_prefix(e.path, x) && path::is_prefix(x, e.path) {
        assert(x.len() == e.path.len());
    }
}

} // verus!
