//! Starting, keeping going and stopping: loading, the log writer, compaction, and the
//! timers of the main loop.
use crate::change;
use crate::database::{Database, DatabaseState, WalState};
use crate::eviction;
use crate::files;
use crate::files::{file_path, marker_name, parse_sequence};
use crate::protocol::{Answer, ErrorCode, ServerMessage};
use crate::replay;
use crate::replay::Entry;
use crate::settings::Settings;
use crate::shape::Shape;
use crate::store;
use crate::store::AppendOutcome;
use crate::transaction;
use crate::value;
use crate::value::{Json, JsonValue};
use crate::wal;
use crate::wal::{Record, WalEntry};
use vstd::prelude::*;

verus! {

/// How often volatile updates go out to fast clients, in milliseconds.
pub const VOLATILE_FAST_FLUSH_INTERVAL_MS: u64 = 50;

/// How often volatile updates go out to slow clients, in milliseconds.
pub const VOLATILE_SLOW_FLUSH_INTERVAL_MS: u64 = 150;

/// How often metrics are emitted, in milliseconds.
pub const METRICS_EMIT_INTERVAL_MS: u64 = 60_000;

/// How often housekeeping is done, in milliseconds.
pub const HOUSEKEEPING_INTERVAL_MS: u64 = 5_000;

/// How often statistics on loading are emitted, in milliseconds.
pub const PROMOTION_STATS_INTERVAL_MS: u64 = 30_000;

/// How often a database with a log is marked for backup, in milliseconds.
pub const BACKUP_MARKER_INTERVAL_MS: u64 = 300_000;

/// After how long without clients and messages a database stops, in milliseconds.
pub const IDLE_SHUTDOWN_MS: u64 = 60_000;

/// Largest number of messages handled in one go.
pub const MAX_BATCH_SIZE: usize = 128;

/// Longest time that one go of messages may take, in milliseconds.
pub const MAX_BATCH_DURATION_MS: u64 = 10;

/// How many log files may lie around before compaction is asked for at startup.
pub const STARTUP_COMPACTION_FILES: usize = 10;

/// What a database asks for before it serves.
pub enum StartStep {
    /// The blob and the log to be opened.
    Load,
    /// The log writer to be opened in a directory, from a sequence number on.
    OpenLog { dir: String, min_sequence: i64 },
    /// Clients that wait to be sent away for this reason, and the database stopped.
    Stop(String),
    /// Nothing: it serves. The flag says whether compaction is to be asked for.
    Serve { compact: bool },
}

/// A storage worker's word that it has compacted the log into the blob.
#[derive(Clone, Copy, PartialEq, Eq, Structural)]
pub struct CompactionComplete {
    /// Entries up to this sequence number are in the blob.
    pub sequence: i64,
    /// Generation of the blob that they are in.
    pub blob_generation: u64,
}

/// What a finished compaction asks for.
#[derive(Clone, Copy, PartialEq, Eq, Structural)]
pub enum CompactionStep {
    /// The blob of another generation to be opened.
    SwitchBlob,
    /// The header of the blob to be read again.
    RefreshBlob,
    /// Nothing: the log can be trimmed.
    Trim,
}

/// What came of opening the blob of another generation.
#[derive(Clone, Copy, PartialEq, Eq, Structural)]
pub enum SwitchOutcome {
    Opened,
    Failed,
    /// There is no directory to open it in.
    NoDirectory,
}

/// What came of a sync of the log.
#[derive(Clone, Copy, PartialEq, Eq, Structural)]
pub enum SyncOutcome {
    /// It went through; the flag says whether the log went on to a new file.
    Synced { rotated: bool },
    Failed,
}

/// When each of the periodic tasks was last done, in milliseconds.
#[derive(Clone, Copy, PartialEq, Eq, Structural)]
pub struct Timers {
    pub volatile_fast: u64,
    pub volatile_slow: u64,
    pub wal_sync: u64,
    pub housekeeping: u64,
    pub metrics: u64,
    pub promotion_stats: u64,
    pub backup_marker: u64,
}

/// Which of the periodic tasks are due.
#[derive(Clone, Copy, PartialEq, Eq, Structural)]
pub struct DueTasks {
    pub volatile_fast: bool,
    pub volatile_slow: bool,
    pub wal_sync: bool,
    pub housekeeping: bool,
    pub metrics: bool,
    pub promotion_stats: bool,
    pub backup_marker: bool,
}

/// Whether at least an interval has passed.
pub open spec fn passed(last: u64, now: u64, interval: u64) -> bool {
    (if last <= now {
        now - last
    } else {
        0
    }) >= interval
}

/// The time of a task after it was done if it was due.
pub open spec fn turned(last: u64, now: u64, due: bool) -> u64 {
    if due {
        now
    } else {
        last
    }
}

/// Whether at least an interval has passed.
fn has_passed(last: u64, now: u64, interval: u64) -> (r: bool)
    ensures
        r == passed(last, now, interval),
{
    now.saturating_sub(last) >= interval
}

/// The time of a task after it was done if it was due.
fn turn(last: u64, now: u64, due: bool) -> (r: u64)
    ensures
        r == turned(last, now, due),
{
    if due {
        now
    } else {
        last
    }
}

impl Timers {
    /// Timers that all start now.
    pub fn new(now: u64) -> (r: Timers)
        ensures
            r == (Timers {
                volatile_fast: now,
                volatile_slow: now,
                wal_sync: now,
                housekeeping: now,
                metrics: now,
                promotion_stats: now,
                backup_marker: now,
            }),
    {
        Timers {
            volatile_fast: now,
            volatile_slow: now,
            wal_sync: now,
            housekeeping: now,
            metrics: now,
            promotion_stats: now,
            backup_marker: now,
        }
    }

    /// Which tasks are due; those start over.
    pub fn due(&mut self, now: u64, settings: &Settings) -> (r: DueTasks)
        ensures
            r == (DueTasks {
                volatile_fast: passed(
                    old(self).volatile_fast,
                    now,
                    VOLATILE_FAST_FLUSH_INTERVAL_MS,
                ),
                volatile_slow: passed(
                    old(self).volatile_slow,
                    now,
                    VOLATILE_SLOW_FLUSH_INTERVAL_MS,
                ),
                wal_sync: passed(old(self).wal_sync, now, settings.wal_sync_interval_ms),
                housekeeping: passed(old(self).housekeeping, now, HOUSEKEEPING_INTERVAL_MS),
                metrics: passed(old(self).metrics, now, METRICS_EMIT_INTERVAL_MS),
                promotion_stats: passed(
                    old(self).promotion_stats,
                    now,
                    PROMOTION_STATS_INTERVAL_MS,
                ),
                backup_marker: passed(old(self).backup_marker, now, BACKUP_MARKER_INTERVAL_MS),
            }),
            *final(self) == (Timers {
                volatile_fast: turned(old(self).volatile_fast, now, r.volatile_fast),
                volatile_slow: turned(old(self).volatile_slow, now, r.volatile_slow),
                wal_sync: turned(old(self).wal_sync, now, r.wal_sync),
                housekeeping: turned(old(self).housekeeping, now, r.housekeeping),
                metrics: turned(old(self).metrics, now, r.metrics),
                promotion_stats: turned(old(self).promotion_stats, now, r.promotion_stats),
                backup_marker: turned(old(self).backup_marker, now, r.backup_marker),
            }),
    {
        let due = DueTasks {
            volatile_fast: has_passed(self.volatile_fast, now, VOLATILE_FAST_FLUSH_INTERVAL_MS),
            volatile_slow: has_passed(self.volatile_slow, now, VOLATILE_SLOW_FLUSH_INTERVAL_MS),
            wal_sync: has_passed(self.wal_sync, now, settings.wal_sync_interval_ms),
            housekeeping: has_passed(self.housekeeping, now, HOUSEKEEPING_INTERVAL_MS),
            metrics: has_passed(self.metrics, now, METRICS_EMIT_INTERVAL_MS),
            promotion_stats: has_passed(self.promotion_stats, now, PROMOTION_STATS_INTERVAL_MS),
            backup_marker: has_passed(self.backup_marker, now, BACKUP_MARKER_INTERVAL_MS),
        };
        self.volatile_fast = turn(self.volatile_fast, now, due.volatile_fast);
        self.volatile_slow = turn(self.volatile_slow, now, due.volatile_slow);
        self.wal_sync = turn(self.wal_sync, now, due.wal_sync);
        self.housekeeping = turn(self.housekeeping, now, due.housekeeping);
        self.metrics = turn(self.metrics, now, due.metrics);
        self.promotion_stats = turn(self.promotion_stats, now, due.promotion_stats);
        self.backup_marker = turn(self.backup_marker, now, due.backup_marker);
        due
    }
}

/// A task that is due at one time is due again only when its interval has passed.
pub proof fn law_tasks_keep_their_distance(last: u64, now: u64, later: u64, interval: u64)
    requires
        passed(last, now, interval),
        now <= later,
        passed(turned(last, now, true), later, interval),
    ensures
        later - now >= interval,
{
}

/// Whether one more message may be handled before others get their turn.
pub fn keeps_batching(handled: usize, elapsed_ms: u64) -> (r: bool)
    ensures
        r == (handled < MAX_BATCH_SIZE && elapsed_ms < MAX_BATCH_DURATION_MS),
{
    handled < MAX_BATCH_SIZE && elapsed_ms < MAX_BATCH_DURATION_MS
}

/// What a client that waits is told when the database cannot start; other messages are
/// dropped.
pub fn drain_reply(adds_client: bool, has_connection: bool, reason: &str) -> (r: Option<
    ServerMessage,
>)
    ensures
        match r {
            Some(m) => adds_client && has_connection && m@ == Answer::Nack(
                "0"@,
                ErrorCode::Unavailable,
                reason@,
            ),
            None => !(adds_client && has_connection),
        },
{
    if adds_client && has_connection {
        Some(ServerMessage::nack("0", ErrorCode::Unavailable, reason))
    } else {
        None
    }
}

impl Database {
    /// Starts: a database that is kept on disk loads first.
    pub fn begin_run(&mut self) -> (r: StartStep)
        requires
            old(self).inv(),
        ensures
            final(self).inv(),
            if old(self).pending_disk_load {
                r is Load && *final(self) == (Database { pending_disk_load: false, ..*old(self) })
            } else {
                r == (StartStep::Serve { compact: old(self).needs_startup_compaction })
                    && final(self).serving(old(self))
            },
    {
        if self.pending_disk_load {
            self.pending_disk_load = false;
            return StartStep::Load;
        }
        self.serve()
    }

    /// Whether this is an earlier state that now serves.
    pub open spec fn serving(&self, before: &Database) -> bool {
        *self == (Database {
            state: DatabaseState::Serving,
            needs_startup_compaction: false,
            ..*before
        })
    }

    /// Goes over to serving.
    fn serve(&mut self) -> (r: StartStep)
        requires
            old(self).inv(),
        ensures
            final(self).inv(),
            r == (StartStep::Serve { compact: old(self).needs_startup_compaction }),
            final(self).serving(old(self)),
    {
        let compact = self.needs_startup_compaction;
        self.needs_startup_compaction = false;
        self.state = DatabaseState::Serving;
        StartStep::Serve { compact }
    }

    /// Goes over to a blob that was opened, with the log entries on top of it.
    /// `sequence_file` is the content of the sequence file, and `wal_files` the number
    /// of log files with entries that the blob does not hold.
    pub fn load_from_disk(
        &mut self,
        blob_generation: u64,
        sequence_file: Option<&str>,
        entries: Vec<WalEntry>,
        wal_files: usize,
    )
        requires
            old(self).inv(),
        ensures
            final(self).inv(),
            *final(self) == (Database {
                store: final(self).store,
                blob_generation,
                needs_startup_compaction: old(self).needs_startup_compaction || wal_files
                    > STARTUP_COMPACTION_FILES,
                ..*old(self)
            }),
            final(self).store.blob_backed,
            final(self).store.tree@ == Shape::Sentinel(Map::empty()),
            final(self).store.pending_wal_entries@ == entries@,
            final(self).store.promoted_paths == old(self).store.promoted_paths,
            final(self).store.blob_sequence == files::sequence_of(
                match sequence_file {
                    Some(s) => Some(s@),
                    None => None,
                },
            ),
    {
        let sequence = parse_sequence(sequence_file);
        self.store.attach_blob(sequence, entries);
        self.blob_generation = blob_generation;
        if wal_files > STARTUP_COMPACTION_FILES {
            self.needs_startup_compaction = true;
        }
    }

    /// Goes on with the start once the blob and the log were opened, or could not be.
    pub fn run_loaded(&self, succeeded: bool) -> (r: StartStep)
        ensures
            if !succeeded {
                r matches StartStep::Stop(reason) && reason@ == "Database failed to initialize"@
            } else {
                self.log_step(r)
            },
    {
        if !succeeded {
            return StartStep::Stop("Database failed to initialize".to_owned());
        }
        self.init_wal_writer()
    }

    /// Whether a step is how the log writer of this database is to be opened: not at
    /// all without a directory, else after the entries that the blob holds.
    pub open spec fn log_step(&self, step: StartStep) -> bool {
        match self.data_dir {
            None => step == (StartStep::Serve { compact: self.needs_startup_compaction }),
            Some(d) => step matches StartStep::OpenLog { dir, min_sequence } && dir@
                == files::file_in(d@, "wal"@) && min_sequence == self.store.blob_sequence,
        }
    }

    /// How the log writer is to be opened.
    pub fn init_wal_writer(&self) -> (r: StartStep)
        ensures
            self.log_step(r),
    {
        match self.wal_dir() {
            None => StartStep::Serve { compact: self.needs_startup_compaction },
            Some(dir) => StartStep::OpenLog { dir, min_sequence: self.store.blob_sequence },
        }
    }

    /// The directory of the log.
    pub fn wal_dir(&self) -> (r: Option<String>)
        ensures
            match self.data_dir {
                Some(d) => r is Some && r->0@ == files::file_in(d@, "wal"@),
                None => r is None,
            },
    {
        match &self.data_dir {
            Some(d) => Some(file_path(d.as_str(), "wal")),
            None => None,
        }
    }

    /// Goes on with the start once the log writer was opened, or could not be.
    pub fn run_log_opened(&mut self, succeeded: bool) -> (r: StartStep)
        requires
            old(self).inv(),
        ensures
            final(self).inv(),
            if succeeded {
                &&& r == (StartStep::Serve { compact: old(self).needs_startup_compaction })
                &&& *final(self) == (Database {
                    state: DatabaseState::Serving,
                    needs_startup_compaction: false,
                    wal: WalState { writer: true, ..old(self).wal },
                    ..*old(self)
                })
            } else {
                r matches StartStep::Stop(reason) && reason@
                    == "Database WAL failed to initialize"@ && *final(self) == *old(self)
            },
    {
        if !succeeded {
            return StartStep::Stop("Database WAL failed to initialize".to_owned());
        }
        self.wal.writer = true;
        self.serve()
    }

    /// Marks the log as failed; until recovery writes are turned down.
    pub fn set_wal_failed(&mut self)
        ensures
            *final(self) == (Database {
                wal: WalState { failed: true, ..old(self).wal },
                ..*old(self)
            }),
    {
        self.wal.failed = true;
    }

    /// Whether the log has to be synced.
    pub fn wants_sync(&self) -> (r: bool)
        ensures
            r == (self.wal.dirty && self.wal.writer),
    {
        self.wal.dirty && self.wal.writer
    }

    /// Notes what came of a sync; whether compaction is to be asked for is returned.
    pub fn sync_wal(&mut self, outcome: SyncOutcome) -> (r: bool)
        requires
            old(self).inv(),
        ensures
            final(self).inv(),
            r == (outcome == SyncOutcome::Synced { rotated: true }),
            *final(self) == (Database {
                wal: change::wal_synced(old(self).wal, Some(outcome)),
                ..*old(self)
            }),
    {
        match outcome {
            SyncOutcome::Synced { rotated } => {
                self.wal.dirty = false;
                self.wal.pending_entries = 0;
                self.wal.pending_bytes = 0;
                rotated
            },
            SyncOutcome::Failed => {
                self.wal.failed = true;
                false
            },
        }
    }

    /// The entry that tries a failed log out, if it has to be tried.
    pub fn recovery_entry(&self) -> (r: Option<WalEntry>)
        ensures
            match r {
                Some(e) => self.wal.failed && self.wal.writer && e.path@
                    == "/__wal_recovery_test"@ && e.op is Assign && value::opt_json(e.value)
                    == Some(Json::Bool(true)),
                None => !(self.wal.failed && self.wal.writer),
            },
    {
        if self.wal.failed && self.wal.writer {
            Some(WalEntry::assign("/__wal_recovery_test", &JsonValue::Bool(true)))
        } else {
            None
        }
    }

    /// Notes what came of trying a failed log out: writes are accepted again once the
    /// entry was written and synced.
    pub fn try_recover_wal(&mut self, appended: bool, synced: bool)
        requires
            old(self).inv(),
        ensures
            final(self).inv(),
            *final(self) == if old(self).wal.failed && old(self).wal.writer && appended && synced {
                Database {
                    wal: WalState {
                        failed: false,
                        dirty: false,
                        pending_entries: 0,
                        pending_bytes: 0,
                        ..old(self).wal
                    },
                    ..*old(self)
                }
            } else {
                *old(self)
            },
    {
        if self.wal.failed && self.wal.writer && appended && synced {
            self.wal.failed = false;
            self.wal.dirty = false;
            self.wal.pending_entries = 0;
            self.wal.pending_bytes = 0;
        }
    }

    /// Closes the log writer; whether there was one is returned.
    pub fn close_wal(&mut self) -> (r: bool)
        requires
            old(self).inv(),
        ensures
            final(self).inv(),
            r == old(self).wal.writer,
            *final(self) == (Database {
                wal: WalState { writer: false, ..old(self).wal },
                ..*old(self)
            }),
    {
        let had = self.wal.writer;
        self.wal.writer = false;
        had
    }

    /// Whether a storage worker can be asked for compaction.
    pub fn can_ask_compaction(&self, has_worker: bool) -> (r: bool)
        ensures
            r == (has_worker && self.data_dir is Some && self.store.blob_backed),
    {
        has_worker && self.data_dir.is_some() && self.store.blob_backed
    }

    /// The name of the file that marks this database for compaction.
    pub fn compaction_marker(&self) -> (r: String)
        ensures
            r@ == files::slashes_to_hashes(self.id@),
    {
        marker_name(self.id.as_str())
    }

    /// What a finished compaction asks for before the log may be trimmed: entries that
    /// are in the blob of another generation are not in the one at hand.
    pub fn begin_compaction(&self, done: &CompactionComplete) -> (r: CompactionStep)
        ensures
            r == if done.blob_generation != self.blob_generation {
                CompactionStep::SwitchBlob
            } else if self.store.blob_backed {
                CompactionStep::RefreshBlob
            } else {
                CompactionStep::Trim
            },
    {
        if done.blob_generation != self.blob_generation {
            CompactionStep::SwitchBlob
        } else if self.store.blob_backed {
            CompactionStep::RefreshBlob
        } else {
            CompactionStep::Trim
        }
    }

    /// Whether this state is an earlier one without the entries that a blob holds.
    pub open spec fn trimmed(&self, before: &Database, sequence: i64, generation: u64) -> bool {
        &&& *self == (Database {
            store: self.store,
            blob_generation: generation,
            ..*before
        })
        &&& self.store.pending_wal_entries@ == store::later_than(
            before.store.pending_wal_entries@,
            sequence,
        )
        &&& self.store.blob_sequence == sequence
        &&& self.store.tree == before.store.tree
        &&& self.store.sentinel_paths == before.store.sentinel_paths
        &&& self.store.promoted_paths == before.store.promoted_paths
    }

    /// Goes on with a finished compaction once the blob of its generation was opened,
    /// or could not be. A database that cannot get at its blob has to stop.
    pub fn compaction_switched(&mut self, done: &CompactionComplete, outcome: SwitchOutcome)
        requires
            old(self).inv(),
        ensures
            final(self).inv(),
            match outcome {
                SwitchOutcome::Opened => final(self).trimmed(
                    old(self),
                    done.sequence,
                    done.blob_generation,
                ) && final(self).store.blob_backed,
                SwitchOutcome::Failed => *final(self) == (Database {
                    fatal_error: true,
                    ..*old(self)
                }),
                SwitchOutcome::NoDirectory => *final(self) == *old(self),
            },
    {
        match outcome {
            SwitchOutcome::Opened => {
                self.store.blob_backed = true;
                self.blob_generation = done.blob_generation;
                self.store.trim_log(done.sequence);
            },
            SwitchOutcome::Failed => {
                self.fatal_error = true;
            },
            SwitchOutcome::NoDirectory => {},
        }
    }

    /// Drops the log entries that the blob now holds.
    pub fn handle_compaction_complete(&mut self, done: &CompactionComplete)
        requires
            old(self).inv(),
        ensures
            final(self).inv(),
            final(self).trimmed(old(self), done.sequence, old(self).blob_generation),
            final(self).store.blob_backed == old(self).store.blob_backed,
    {
        self.store.trim_log(done.sequence);
    }

    /// Gives up paths that have not been used for a while, if there are any to give
    /// up.
    pub fn housekeeping(&mut self, now: u64, settings: &Settings)
        requires
            old(self).inv(),
        ensures
            final(self).inv(),
            if old(self).store.blob_backed && old(self).store.promoted_paths@.len() > 0 {
                let s = old(self).store.promoted_paths@;
                let idle = eviction::sorted_out(s, now, settings.eviction_idle_secs, true);
                let hot = eviction::sorted_out(s, now, settings.eviction_idle_secs, false);
                &&& *final(self) == (Database { store: final(self).store, ..*old(self) })
                &&& final(self).store.tree@ == eviction::evict_run(
                    old(self).store.tree@,
                    idle,
                    hot,
                    idle.len() as int,
                )
                &&& final(self).store.sentinel_paths@ == eviction::evict_run_marks(
                    old(self).store.tree@,
                    old(self).store.sentinel_paths@,
                    idle,
                    hot,
                    idle.len() as int,
                )
                &&& store::times(final(self).store.promoted_paths@) == eviction::still_hot(
                    s,
                    now,
                    settings.eviction_idle_secs,
                )
                &&& final(self).store.same_log(&old(self).store)
            } else {
                *final(self) == *old(self)
            },
    {
        if self.store.blob_backed && self.store.promoted_paths.len() > 0 {
            self.store.evict_idle_paths(now, settings.eviction_idle_secs);
        }
    }

    /// Whether a database without clients has been idle for long enough to stop.
    pub fn is_idle(&self, now: u64) -> (r: bool)
        ensures
            r == (self.clients.list@.len() == 0 && now - self.last_activity > IDLE_SHUTDOWN_MS),
    {
        self.clients.list.len() == 0 && now.saturating_sub(self.last_activity) > IDLE_SHUTDOWN_MS
    }

    /// Whether the main loop has to end: on a fatal error, or when nobody holds a
    /// handle any more.
    pub fn must_stop(&self, has_handles: bool) -> (r: bool)
        ensures
            r == (self.fatal_error || !has_handles),
    {
        self.fatal_error || !has_handles
    }
}

/// Two logs in a row are one log.
pub proof fn lemma_replay_append(n: Shape, a: Seq<Entry>, b: Seq<Entry>, lazy: bool)
    ensures
        replay::replay(n, a + b, lazy) == replay::replay(replay::replay(n, a, lazy), b, lazy),
    decreases b.len(),
{
    if b.len() == 0 {
        assert(a + b =~= a);
    } else {
        lemma_replay_append(n, a, b.drop_last(), lazy);
        assert((a + b).drop_last() =~= a + b.drop_last());
        assert((a + b).last() == b.last());
    }
}

/// Whether records are listed by rising sequence number.
pub open spec fn in_order(s: Seq<Record>) -> bool {
    forall|i: int, j: int|
        0 <= i < j < s.len() ==> (#[trigger] s[i]).sequence <= (#[trigger] s[j]).sequence
}

/// How many of the listed records have a sequence number up to `sequence`, counted from
/// the front.
pub open spec fn baked(s: Seq<Record>, sequence: i64) -> int
    decreases s.len(),
{
    if s.len() == 0 {
        0
    } else if s.last().sequence <= sequence {
        s.len() as int
    } else {
        baked(s.drop_last(), sequence)
    }
}

/// The entries that stay are the ones behind those that are in the blob.
proof fn lemma_later_is_tail(s: Seq<WalEntry>, sequence: i64)
    requires
        in_order(wal::records_view(s)),
    ensures
        0 <= baked(wal::records_view(s), sequence) <= s.len(),
        store::later_than(s, sequence) == s.skip(baked(wal::records_view(s), sequence)),
    decreases s.len(),
{
    if s.len() > 0 {
        let r = wal::records_view(s);
        let d = s.drop_last();
        lemma_front_in_order(s);
        lemma_later_is_tail(d, sequence);
        if s.last().sequence <= sequence {
            lemma_none_later(s, sequence);
            assert(s.skip(s.len() as int) =~= Seq::<WalEntry>::empty());
        } else {
            let n = baked(wal::records_view(d), sequence);
            assert(r.last() == s.last()@);
            assert(s.skip(n) =~= d.skip(n).push(s.last()));
        }
    }
}

/// A log without its last entry is in order as before.
proof fn lemma_front_in_order(s: Seq<WalEntry>)
    requires
        s.len() > 0,
        in_order(wal::records_view(s)),
    ensures
        wal::records_view(s.drop_last()) == wal::records_view(s).drop_last(),
        in_order(wal::records_view(s.drop_last())),
{
    let r = wal::records_view(s);
    assert(wal::records_view(s.drop_last()) =~= r.drop_last());
    assert forall|i: int, j: int| 0 <= i < j < r.drop_last().len() implies (
    #[trigger] r.drop_last()[i]).sequence <= (#[trigger] r.drop_last()[j]).sequence by {
        assert(r[i].sequence <= r[j].sequence);
    }
}

/// Where the last entry is in the blob, all are.
proof fn lemma_none_later(s: Seq<WalEntry>, sequence: i64)
    requires
        in_order(wal::records_view(s)),
        s.len() > 0 ==> s.last().sequence <= sequence,
    ensures
        store::later_than(s, sequence) == Seq::<WalEntry>::empty(),
    decreases s.len(),
{
    if s.len() > 0 {
        let r = wal::records_view(s);
        let d = s.drop_last();
        lemma_front_in_order(s);
        if d.len() > 0 {
            assert(r[d.len() - 1].sequence <= r[s.len() - 1].sequence);
        }
        lemma_none_later(d, sequence);
    }
}

/// Whether the numbers that a log hands out go on from those that it has handed out.
pub open spec fn goes_on(log: Seq<Record>, outcomes: Seq<AppendOutcome>) -> bool {
    &&& forall|i: int, j: int|
        0 <= i < log.len() && 0 <= j < outcomes.len() && (#[trigger] outcomes[j]) is Appended
            ==> (#[trigger] log[i]).sequence <= outcomes[j]->sequence
    &&& forall|i: int, j: int|
        0 <= i < j < outcomes.len() && (#[trigger] outcomes[i]) is Appended && (
        #[trigger] outcomes[j]) is Appended ==> outcomes[i]->sequence <= outcomes[j]->sequence
}

/// The first `n` records that writes leave are in order, and no later number is below
/// them.
proof fn lemma_recording_in_order(
    log: Seq<Record>,
    entries: Seq<Entry>,
    outcomes: Seq<AppendOutcome>,
    n: int,
)
    requires
        in_order(log),
        goes_on(log, outcomes),
        0 <= n <= entries.len(),
        entries.len() == outcomes.len(),
    ensures
        in_order(transaction::records_after(log, entries, outcomes, n)),
        forall|i: int, j: int|
            0 <= i < transaction::records_after(log, entries, outcomes, n).len() && n <= j
                < outcomes.len() && (#[trigger] outcomes[j]) is Appended ==> (
            #[trigger] transaction::records_after(log, entries, outcomes, n)[i]).sequence
                <= outcomes[j]->sequence,
    decreases n,
{
    if n > 0 {
        lemma_recording_in_order(log, entries, outcomes, n - 1);
        let r = transaction::records_after(log, entries, outcomes, n - 1);
        let after = transaction::records_after(log, entries, outcomes, n);
        if outcomes[n - 1] is Appended {
            assert forall|i: int, j: int| 0 <= i < j < after.len() implies (
            #[trigger] after[i]).sequence <= (#[trigger] after[j]).sequence by {
                assert(after[i] == r[i]);
                if j < r.len() {
                    assert(after[j] == r[j]);
                }
            }
            assert forall|i: int, j: int|
                0 <= i < after.len() && n <= j < outcomes.len() && (
                #[trigger] outcomes[j]) is Appended implies (#[trigger] after[i]).sequence
                <= outcomes[j]->sequence by {
                if i < r.len() {
                    assert(after[i] == r[i]);
                }
            }
        }
    }
}

/// The log stays in order: writes are kept under the numbers that they got, so that it
/// does as long as the log writer's numbers go on.
pub proof fn law_log_stays_in_order(
    before: Database,
    after: Database,
    entries: Seq<Entry>,
    outcomes: Seq<AppendOutcome>,
)
    requires
        transaction::holds_writes(before, after, entries, outcomes),
        entries.len() == outcomes.len(),
        in_order(before.store.records()),
        goes_on(before.store.records(), outcomes),
    ensures
        in_order(after.store.records()),
{
    lemma_recording_in_order(before.store.records(), entries, outcomes, entries.len() as int);
}

/// The same after a single write.
pub proof fn law_log_stays_in_order_after_one(
    before: Database,
    after: Database,
    e: Entry,
    outcome: AppendOutcome,
)
    requires
        after.holds_write(&before, e, outcome),
        in_order(before.store.records()),
        goes_on(before.store.records(), seq![outcome]),
    ensures
        in_order(after.store.records()),
{
    let log = before.store.records();
    reveal_with_fuel(transaction::records_after, 2);
    assert(transaction::records_after(log, seq![e], seq![outcome], 1) == change::recorded(
        log,
        e,
        outcome,
    ));
    lemma_recording_in_order(log, seq![e], seq![outcome], 1);
}

/// Trimming keeps exactly the records that the blob does not hold: no number up to the
/// blob's is left, no record with a later number is lost, and the order stays.
pub proof fn law_trimming_keeps_later_records(
    before: Database,
    after: Database,
    sequence: i64,
    generation: u64,
)
    requires
        after.trimmed(&before, sequence, generation),
    ensures
        forall|r: Record| #[trigger]
            after.store.records().contains(r) <==> before.store.records().contains(r)
                && r.sequence > sequence,
        in_order(before.store.records()) ==> in_order(after.store.records()),
{
    let s = before.store.pending_wal_entries@;
    assert forall|r: Record| #[trigger]
        after.store.records().contains(r) <==> before.store.records().contains(r) && r.sequence
            > sequence by {
        lemma_later_holds(s, sequence, r);
    }
    if in_order(before.store.records()) {
        let b = before.store.records();
        let a = after.store.records();
        let n = baked(b, sequence);
        lemma_later_is_tail(s, sequence);
        assert(a =~= b.skip(n));
        assert forall|i: int, j: int| 0 <= i < j < a.len() implies (#[trigger] a[i]).sequence <= (
        #[trigger] a[j]).sequence by {
            assert(b[i + n].sequence <= b[j + n].sequence);
        }
    }
}

/// The later entries are those with a later number.
proof fn lemma_later_holds(s: Seq<WalEntry>, sequence: i64, r: Record)
    ensures
        wal::records_view(store::later_than(s, sequence)).contains(r) <==> wal::records_view(
            s,
        ).contains(r) && r.sequence > sequence,
    decreases s.len(),
{
    let rs = wal::records_view(s);
    let kept = store::later_than(s, sequence);
    if s.len() > 0 {
        let d = s.drop_last();
        let x = s.last()@;
        lemma_later_holds(d, sequence, r);
        lemma_pushed(wal::records_view(d), x, r);
        assert(rs =~= wal::records_view(d).push(x));
        if s.last().sequence > sequence {
            let k = store::later_than(d, sequence);
            assert(wal::records_view(kept) =~= wal::records_view(k).push(x));
            lemma_pushed(wal::records_view(k), x, r);
        }
    } else {
        assert(kept =~= s);
    }
}

/// A list with one more record.
proof fn lemma_pushed(s: Seq<Record>, x: Record, r: Record)
    ensures
        s.push(x).contains(r) <==> s.contains(r) || r == x,
{
    if s.contains(r) {
        let i = choose|i: int| 0 <= i < s.len() && s[i] == r;
        assert(s.push(x)[i] == r);
    }
    assert(s.push(x)[s.len() as int] == x);
    if s.push(x).contains(r) {
        let i = choose|i: int| 0 <= i < s.push(x).len() && s.push(x)[i] == r;
        if i < s.len() {
            assert(s[i] == r);
        }
    }
}

/// Trimming the log loses nothing: once the blob holds the entries up to a sequence
/// number, blob and rest of the log stand for the same data as before.
pub proof fn law_compaction_keeps_data(
    before: Database,
    after: Database,
    sequence: i64,
    generation: u64,
    blob: Shape,
    new_blob: Shape,
)
    requires
        after.trimmed(&before, sequence, generation),
        in_order(before.store.records()),
        new_blob == replay::full_data(
            blob,
            before.store.log().take(baked(before.store.records(), sequence)),
        ),
    ensures
        replay::full_data(new_blob, after.store.log()) == replay::full_data(
            blob,
            before.store.log(),
        ),
{
    let s = before.store.pending_wal_entries@;
    let n = baked(before.store.records(), sequence);
    lemma_later_is_tail(s, sequence);
    let log = before.store.log();
    assert(after.store.log() =~= log.skip(n));
    assert(log.take(n) + log.skip(n) =~= log);
    lemma_replay_append(blob, log.take(n), log.skip(n), false);
}

/// A task is due exactly if its interval has passed since its last turn; a clock that went
/// back counts as no time.
pub proof fn law_tasks_are_due_in_time(last: u64, now: u64, interval: u64)
    ensures
        last <= now ==> (passed(last, now, interval) <==> last + interval <= now),
        last > now ==> (passed(last, now, interval) <==> interval == 0),
        turned(last, now, true) == now,
        turned(last, now, false) == last,
{
}

/// Starting to serve, and taking up a new blob, change no data and concern no client.
pub proof fn law_starting_and_trimming_keep_the_rest(
    before: Database,
    started: Database,
    after: Database,
    sequence: i64,
    generation: u64,
)
    requires
        started.serving(&before),
        after.trimmed(&before, sequence, generation),
    ensures
        started.state == DatabaseState::Serving,
        !started.needs_startup_compaction,
        started.store == before.store && started.clients == before.clients,
        started.ledger == before.ledger && started.wal == before.wal,
        after.blob_generation == generation,
        after.store.blob_sequence == sequence,
        after.store.tree@ == before.store.tree@,
        after.clients == before.clients && after.ledger == before.ledger,
        after.wal == before.wal && after.on_disconnect == before.on_disconnect,
        after.state == before.state,
{
}

} // verus!
