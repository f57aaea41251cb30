//! Transactions: several conditions and writes that go through together or not at all.
use crate::change;
use crate::change::{landing_of, mutation_event, Change, Landing, MutationEvent};
use crate::database;
use crate::database::{complaint_text, Database, Outcome, WalState};
use crate::hash;
use crate::hash::compute_value_hash;
use crate::lifecycle::SyncOutcome;
use crate::node::Node;
use crate::path;
use crate::path::{child_path_text, validate_path, Path};
use crate::plain;
use crate::plain::{node_reads_as, node_value};
use crate::protocol;
use crate::protocol::{Answer, ClientMessage, ErrorCode, ServerMessage, TransactionOp};
use crate::replay;
use crate::replay::{Entry, WalOp};
use crate::server_value;
use crate::server_value::{
    holds_placeholder, members_hold_placeholder, process_server_values, Complaint, Sum, Trouble,
};
use crate::settings::Settings;
use crate::shape;
use crate::shape::Shape;
use crate::store::AppendOutcome;
use crate::text::same_text;
use crate::tree::Tree;
use crate::value;
use crate::value::{validate_value_keys, validate_value_priority, Json, JsonValue, Member};
use crate::wal::Record;
use crate::writes;
use crate::writes::{fill_members, lies_too_deep, members_priority};
use vstd::prelude::*;

verus! {

/// Largest number of operations in a transaction.
pub const MAX_TRANSACTION_OPS: usize = 1_000;

/// What kind of step an operation is.
#[derive(Clone, Copy, PartialEq, Eq, Structural)]
pub enum OpKind {
    Put,
    Merge,
    Drop,
    Condition,
    Other,
}

/// What a transaction asks for next.
pub enum TransactionStep {
    /// Nothing: this is the answer, if any.
    Reply(Option<ServerMessage>),
    /// Whether the client may carry out the operation with this index.
    Authorize(usize),
    /// The path of the condition with this index to be loaded in full.
    Load(usize),
    /// The size of the request to be charged to the write budget.
    Charge,
    /// The server values of the operations to be filled in.
    Resolve,
    /// A sum, to be put on the list of sums; then the server values again.
    NeedsSum { current: Option<serde_json::Number>, delta: serde_json::Number },
    /// The entries of these writes to be handed to the log.
    Append(Vec<Change>),
}

/// What a transaction that was handed to the log leads to.
pub struct TransactionDone {
    pub reply: Option<ServerMessage>,
    /// What subscribers are told; nothing where the transaction was not carried out.
    pub events: Vec<MutationEvent>,
    /// Whether compaction is to be asked for.
    pub compact: bool,
}

/// What a step of a transaction is about.
pub ghost enum Stage {
    Answer(Outcome),
    Authorize(int),
    Load(int),
    Charge,
    Resolve,
}

/// The kind that an operation's name stands for.
pub open spec fn kind_of(op: Seq<char>) -> OpKind {
    if op == "s"@ || op == "set"@ {
        OpKind::Put
    } else if op == "u"@ || op == "update"@ {
        OpKind::Merge
    } else if op == "d"@ || op == "remove"@ {
        OpKind::Drop
    } else if op == "c"@ {
        OpKind::Condition
    } else {
        OpKind::Other
    }
}

/// The value of an operation, as data.
pub open spec fn op_data(op: TransactionOp) -> Option<Json> {
    value::opt_json(op.value)
}

/// Whether all members of a merge have valid paths and keys.
pub open spec fn members_fit(
    db: Database,
    base: Seq<char>,
    members: Seq<(Seq<char>, Json)>,
    n: int,
) -> bool {
    forall|i: int|
        0 <= i < n ==> writes::path_fits(db, path::child_path(base, (#[trigger] members[i]).0))
            && value::keys_valid(members[i].1)
}

/// Whether one of the members of a merge would lie too deep.
pub open spec fn members_sink(
    db: Database,
    base: Seq<char>,
    members: Seq<(Seq<char>, Json)>,
    n: int,
) -> bool {
    exists|i: int|
        0 <= i < n && writes::sinks(
            db,
            path::child_path(base, (#[trigger] members[i]).0),
            members[i].1,
        )
}

/// What is wrong with the form of an operation.
pub open spec fn op_refusal(db: Database, op: TransactionOp) -> Option<Outcome> {
    let kind = kind_of(op.op@);
    let p = op.path@;
    let (fits, deep) = match (kind, op_data(op)) {
        (OpKind::Put, Some(v)) => (value::keys_valid(v), writes::sinks(db, p, v)),
        (OpKind::Merge, Some(Json::Object(members))) => (
            members_fit(db, p, members, members.len() as int),
            members_sink(db, p, members, members.len() as int),
        ),
        _ => (true, false),
    };
    if !writes::path_fits(db, p) || !fits {
        Some(writes::invalid_key())
    } else if deep {
        Some(writes::too_deep())
    } else {
        None
    }
}

/// What is wrong with the first badly formed one of the first `n` operations.
pub open spec fn ops_refusal(db: Database, ops: Seq<TransactionOp>, n: int) -> Option<Outcome>
    decreases n,
{
    if n <= 0 || n > ops.len() {
        None
    } else {
        match ops_refusal(db, ops, n - 1) {
            Some(o) => Some(o),
            None => op_refusal(db, ops[n - 1]),
        }
    }
}

/// The first badly formed operation decides.
proof fn lemma_ops_refusal(db: Database, ops: Seq<TransactionOp>, n: int, m: int)
    requires
        n <= m <= ops.len(),
        ops_refusal(db, ops, n) is Some,
    ensures
        ops_refusal(db, ops, m) == ops_refusal(db, ops, n),
    decreases m,
{
    if n < m {
        lemma_ops_refusal(db, ops, n, m - 1);
    }
}

/// The operations of a request.
pub open spec fn operations(msg: ClientMessage) -> Seq<TransactionOp> {
    match msg.operations {
        Some(ops) => ops@,
        None => Seq::empty(),
    }
}

/// What keeps a transaction from being looked at closer.
pub open spec fn transaction_gate(
    db: Database,
    client: Seq<char>,
    msg: ClientMessage,
) -> Option<Outcome> {
    match writes::write_gate(db, client, msg, true) {
        Some(o) => Some(o),
        None => if msg.operations is None {
            Some(Outcome::Refuse(ErrorCode::InvalidData, "missing operations"@, true))
        } else if operations(msg).len() == 0 {
            Some(Outcome::Refuse(ErrorCode::InvalidData, "empty transaction"@, true))
        } else if operations(msg).len() > MAX_TRANSACTION_OPS {
            Some(
                Outcome::Refuse(
                    ErrorCode::PayloadTooLarge,
                    "transaction exceeds 1000 operations"@,
                    true,
                ),
            )
        } else if db.full() {
            Some(writes::at_limit())
        } else {
            ops_refusal(db, operations(msg), operations(msg).len() as int)
        },
    }
}

/// A failed condition; it may be tried again, so it is not remembered.
pub open spec fn condition_failed(message: Seq<char>) -> Outcome {
    Outcome::Refuse(ErrorCode::ConditionFailed, message, false)
}

/// What stands in the way of a condition, given what stands at its path.
pub open spec fn condition_refusal(t: Shape, op: TransactionOp) -> Option<Outcome> {
    let current = shape::at(t, path::segments(op.path@));
    match op_data(op) {
        Some(expected) => if !plain::reads_as(
            shape::at_or_null(t, path::segments(op.path@)),
            expected,
        ) {
            Some(condition_failed("condition not met"@))
        } else {
            None
        },
        None => match op.hash {
            Some(h) => if hash::data_hash(plain::seen_opt(current)) != h@ {
                Some(condition_failed("hash mismatch"@))
            } else {
                None
            },
            None => if !(plain::seen_opt(current) is Null) {
                Some(condition_failed("expected null but path exists"@))
            } else {
                None
            },
        },
    }
}

/// Whether an earlier condition is about the same path.
pub open spec fn is_repeated(ops: Seq<TransactionOp>, i: int) -> bool {
    exists|j: int|
        0 <= j < i && kind_of((#[trigger] ops[j]).op@) is Condition && ops[j].path@ == ops[i].path@
}

/// The first complaint about `.value` patterns in the first `n` operations.
pub open spec fn ops_priority(ops: Seq<TransactionOp>, n: int) -> Option<Seq<char>>
    decreases n,
{
    if n <= 0 || n > ops.len() {
        None
    } else {
        match ops_priority(ops, n - 1) {
            Some(e) => Some(e),
            None => op_priority(ops[n - 1]),
        }
    }
}

/// The complaint about `.value` patterns in an operation.
pub open spec fn op_priority(op: TransactionOp) -> Option<Seq<char>> {
    match (kind_of(op.op@), op_data(op)) {
        (OpKind::Put, Some(v)) => value::priority_error(v, op.path@),
        (OpKind::Merge, Some(Json::Object(members))) => value::members_priority_error(
            members,
            members.len() as int,
            op.path@,
        ),
        _ => None,
    }
}

/// The first complaint is the complaint about all.
proof fn lemma_ops_priority(ops: Seq<TransactionOp>, n: int, m: int)
    requires
        n <= m <= ops.len(),
        ops_priority(ops, n) is Some,
    ensures
        ops_priority(ops, m) == ops_priority(ops, n),
    decreases m,
{
    if n < m {
        lemma_ops_priority(ops, n, m - 1);
    }
}

/// Where a transaction goes once its conditions hold.
pub open spec fn after_conditions(db: Database, ops: Seq<TransactionOp>) -> Stage {
    match ops_priority(ops, ops.len() as int) {
        Some(e) => Stage::Answer(Outcome::Refuse(ErrorCode::InvalidData, e, false)),
        None => if db.ephemeral {
            Stage::Resolve
        } else {
            Stage::Charge
        },
    }
}

/// Where a transaction goes from its conditions with index `i` on. A path that an
/// earlier condition had loaded is not loaded again.
pub open spec fn conditions_from(db: Database, ops: Seq<TransactionOp>, i: int) -> Stage
    decreases ops.len() - i,
{
    if i >= ops.len() {
        after_conditions(db, ops)
    } else if i < 0 || !(kind_of(ops[i].op@) is Condition) {
        conditions_from(db, ops, i + 1)
    } else if !is_repeated(ops, i) {
        Stage::Load(i)
    } else {
        match condition_refusal(db.store.tree@, ops[i]) {
            Some(o) => Stage::Answer(o),
            None => conditions_from(db, ops, i + 1),
        }
    }
}

/// Where a transaction goes from its permissions with index `i` on.
pub open spec fn permissions_from(db: Database, ops: Seq<TransactionOp>, i: int) -> Stage
    decreases ops.len() - i,
{
    if i >= ops.len() {
        conditions_from(db, ops, 0)
    } else if i < 0 || kind_of(ops[i].op@) is Condition {
        permissions_from(db, ops, i + 1)
    } else {
        Stage::Authorize(i)
    }
}

/// Whether a step is what a stage calls for.
pub open spec fn reaches(
    step: TransactionStep,
    before: Database,
    after: Database,
    client: Seq<char>,
    request: Seq<char>,
    stage: Stage,
) -> bool {
    match stage {
        Stage::Answer(o) => step matches TransactionStep::Reply(reply) && after.answered(
            &before,
            client,
            request,
            o,
            reply,
        ),
        Stage::Authorize(i) => step == TransactionStep::Authorize(i as usize) && after == before,
        Stage::Load(i) => step == TransactionStep::Load(i as usize) && after == before,
        Stage::Charge => step == TransactionStep::Charge && after == before,
        Stage::Resolve => step == TransactionStep::Resolve && after == before,
    }
}

/// The write that an operation stands for, with its server values filled in; not every
/// operation stands for one.
pub open spec fn op_write(
    op: TransactionOp,
    t: Shape,
    now: i64,
    sums: Seq<Sum>,
) -> Result<Option<Entry>, Trouble> {
    let p = path::segments(op.path@);
    match (kind_of(op.op@), op_data(op)) {
        (OpKind::Put, Some(v)) => match server_value::resolved(v, op.path@, t, now, sums) {
            Ok(x) => Ok(Some(Entry { op: WalOp::Assign, path: p, value: Some(x) })),
            Err(e) => Err(e),
        },
        (OpKind::Merge, Some(Json::Object(members))) => match server_value::resolved_members(
            members,
            members.len() as int,
            op.path@,
            t,
            now,
            sums,
        ) {
            Ok(ms) => Ok(
                Some(Entry { op: WalOp::Update, path: p, value: Some(Json::Object(ms)) }),
            ),
            Err(e) => Err(e),
        },
        (OpKind::Drop, _) => Ok(Some(Entry { op: WalOp::Delete, path: p, value: None })),
        _ => Ok(None),
    }
}

/// The writes of the first `n` operations. Each sees the data as the ones before it
/// left it.
pub open spec fn ops_writes(
    ops: Seq<TransactionOp>,
    n: int,
    t: Shape,
    lazy: bool,
    now: i64,
    sums: Seq<Sum>,
) -> Result<Seq<Entry>, Trouble>
    decreases n,
{
    if n <= 0 || n > ops.len() {
        Ok(Seq::empty())
    } else {
        match ops_writes(ops, n - 1, t, lazy, now, sums) {
            Err(e) => Err(e),
            Ok(done) => match op_write(ops[n - 1], replay::replay(t, done, lazy), now, sums) {
                Err(e) => Err(e),
                Ok(None) => Ok(done),
                Ok(Some(e)) => Ok(done.push(e)),
            },
        }
    }
}

/// Whether an operation holds a server value to be filled in.
pub open spec fn op_has_placeholder(op: TransactionOp) -> bool {
    match (kind_of(op.op@), op_data(op)) {
        (OpKind::Put, Some(v)) => server_value::has_placeholder(v),
        (OpKind::Merge, Some(Json::Object(members))) => server_value::members_have_placeholder(
            members,
            members.len() as int,
        ),
        _ => false,
    }
}

/// An operation without server values stands for the same write whatever the tree holds.
proof fn lemma_plain_write(op: TransactionOp, t: Shape, u: Shape, now: i64, sums: Seq<Sum>)
    requires
        !op_has_placeholder(op),
    ensures
        op_write(op, t, now, sums) == op_write(op, u, now, sums),
{
    match (kind_of(op.op@), op_data(op)) {
        (OpKind::Put, Some(v)) => {
            server_value::law_plain_values_unchanged(v, op.path@, t, now, sums);
            server_value::law_plain_values_unchanged(v, op.path@, u, now, sums);
        },
        (OpKind::Merge, Some(Json::Object(members))) => {
            let n = members.len() as int;
            server_value::lemma_members_unchanged(members, n, op.path@, t, now, sums);
            server_value::lemma_members_unchanged(members, n, op.path@, u, now, sums);
        },
        _ => {},
    }
}

/// The first error is the error of all.
proof fn lemma_ops_error(
    ops: Seq<TransactionOp>,
    n: int,
    m: int,
    t: Shape,
    lazy: bool,
    now: i64,
    sums: Seq<Sum>,
)
    requires
        n <= m <= ops.len(),
        ops_writes(ops, n, t, lazy, now, sums) is Err,
    ensures
        ops_writes(ops, m, t, lazy, now, sums) == ops_writes(ops, n, t, lazy, now, sums),
    decreases m,
{
    if n < m {
        lemma_ops_error(ops, n, m - 1, t, lazy, now, sums);
    }
}

/// What a list of writes means.
pub open spec fn changes_view(s: Seq<Change>) -> Seq<Entry> {
    s.map_values(|c: Change| c@)
}

/// The log after the first `n` writes were handed to it.
pub open spec fn log_after(
    log: Seq<Entry>,
    entries: Seq<Entry>,
    outcomes: Seq<AppendOutcome>,
    n: int,
) -> Seq<Entry>
    decreases n,
{
    if n <= 0 || n > entries.len() || n > outcomes.len() {
        log
    } else {
        match outcomes[n - 1] {
            AppendOutcome::Appended { .. } => log_after(log, entries, outcomes, n - 1).push(
                change::logged(entries[n - 1]),
            ),
            _ => log_after(log, entries, outcomes, n - 1),
        }
    }
}

/// The same, with the numbers that the writes got.
pub open spec fn records_after(
    log: Seq<Record>,
    entries: Seq<Entry>,
    outcomes: Seq<AppendOutcome>,
    n: int,
) -> Seq<Record>
    decreases n,
{
    if n <= 0 || n > entries.len() || n > outcomes.len() {
        log
    } else {
        change::recorded(
            records_after(log, entries, outcomes, n - 1),
            entries[n - 1],
            outcomes[n - 1],
        )
    }
}

/// The paths listed as sentinels after the first `n` writes to a tree.
pub open spec fn marks_after_all(
    marks: Set<Seq<Seq<char>>>,
    entries: Seq<Entry>,
    t: Shape,
    lazy: bool,
    n: int,
) -> Set<Seq<Seq<char>>>
    decreases n,
{
    if n <= 0 || n > entries.len() {
        marks
    } else {
        change::marks_after(
            marks_after_all(marks, entries, t, lazy, n - 1),
            entries[n - 1],
            replay::replay(t, entries.take(n), lazy),
            lazy,
        )
    }
}

/// The state of the log writer after the first `n` outcomes.
pub open spec fn wal_after_all(wal: WalState, outcomes: Seq<AppendOutcome>, n: int) -> WalState
    decreases n,
{
    if n <= 0 || n > outcomes.len() {
        wal
    } else {
        change::wal_after(wal_after_all(wal, outcomes, n - 1), outcomes[n - 1])
    }
}

/// Whether the data, the log and its writer are as a list of writes leaves them.
pub open spec fn holds_writes(
    before: Database,
    after: Database,
    entries: Seq<Entry>,
    outcomes: Seq<AppendOutcome>,
) -> bool {
    &&& after.store.tree@ == replay::replay(
        before.store.tree@,
        entries,
        before.store.blob_backed,
    )
    &&& after.store.log() == log_after(
        before.store.log(),
        entries,
        outcomes,
        entries.len() as int,
    )
    &&& after.store.records() == records_after(
        before.store.records(),
        entries,
        outcomes,
        entries.len() as int,
    )
    &&& after.store.sentinel_paths@ == marks_after_all(
        before.store.sentinel_paths@,
        entries,
        before.store.tree@,
        before.store.blob_backed,
        entries.len() as int,
    )
    &&& after.wal == wal_after_all(before.wal, outcomes, entries.len() as int)
    &&& after.store.blob_backed == before.store.blob_backed
    &&& after.store.promoted_paths == before.store.promoted_paths
    &&& after.store.blob_sequence == before.store.blob_sequence
}

/// Whether the data, the log and its writer are as a list of writes and a sync leave them,
/// and nothing else has changed.
pub open spec fn wrote_all(
    before: Database,
    after: Database,
    entries: Seq<Entry>,
    outcomes: Seq<AppendOutcome>,
    sync: Option<SyncOutcome>,
) -> bool {
    let wal = wal_after_all(before.wal, outcomes, entries.len() as int);
    &&& after == after.written(before)
    &&& holds_writes(before, Database { wal, ..after }, entries, outcomes)
    &&& after.wal == change::wal_synced(wal, sync)
}

/// Whether a transaction and its answer are what became of its log entries calls for: as
/// for a single write, all of it or none.
pub open spec fn all_settled(
    before: Database,
    after: Database,
    client: Seq<char>,
    request: Seq<char>,
    entries: Seq<Entry>,
    outcomes: Seq<AppendOutcome>,
    sync: Option<SyncOutcome>,
    settings: Settings,
    reply: Option<ServerMessage>,
) -> bool {
    match change::landing(outcomes, sync, settings) {
        Landing::Lost => after.answered(
            &(Database {
                wal: change::wal_synced(
                    wal_after_all(before.wal, outcomes, outcomes.len() as int),
                    sync,
                ),
                ..before
            }),
            client,
            request,
            writes::out_of_order(),
            reply,
        ),
        Landing::Unsure => {
            &&& wrote_all(before, after.written(before), entries, outcomes, sync)
            &&& after.answered(
                &after.written(before),
                client,
                request,
                writes::out_of_order(),
                reply,
            )
        },
        Landing::Safe => {
            &&& wrote_all(before, after.written(before), entries, outcomes, sync)
            &&& after.noted_success(&after.written(before), client, request)
            &&& protocol::said(reply) == Some(Answer::Ack(request))
        },
    }
}

/// Whether an event names its writer.
pub open spec fn writer_is(e: MutationEvent, writer: Option<&str>) -> bool {
    match writer {
        Some(w) => e.writer is Some && e.writer->0@ == w@,
        None => e.writer is None,
    }
}

/// The kind that an operation's name stands for.
pub fn op_kind(op: &str) -> (r: OpKind)
    ensures
        r == kind_of(op@),
{
    if same_text(op, "s") || same_text(op, "set") {
        OpKind::Put
    } else if same_text(op, "u") || same_text(op, "update") {
        OpKind::Merge
    } else if same_text(op, "d") || same_text(op, "remove") {
        OpKind::Drop
    } else if same_text(op, "c") {
        OpKind::Condition
    } else {
        OpKind::Other
    }
}

/// What the security rules are asked about.
pub enum NewData {
    /// Setting the path to a value.
    Assign(JsonValue),
    /// Merging members at the path.
    Update(Vec<Member>),
    /// Removing the path.
    Nothing,
}

/// What the security rules are asked about a write operation. Only the short names
/// count here; under the long ones the rules see a removal.
pub fn op_new_data(op: &TransactionOp) -> (r: NewData)
    ensures
        match op_data(*op) {
            Some(v) if op.op@ == "s"@ => r matches NewData::Assign(x) && x@ == v,
            Some(Json::Object(members)) if op.op@ == "u"@ => r matches NewData::Update(x)
                && value::members_json(x@) == members,
            _ => r is Nothing,
        },
{
    match &op.value {
        Some(v) => {
            if same_text(op.op.as_str(), "s") {
                return NewData::Assign(value::copy_value(v));
            }
            if same_text(op.op.as_str(), "u") {
                match v {
                    JsonValue::Object(members) => {
                        return NewData::Update(value::copy_members(members));
                    },
                    _ => {},
                }
            }
            NewData::Nothing
        },
        None => NewData::Nothing,
    }
}

impl Database {
    /// What is wrong with the form of an operation: that it lies too deep, or else a
    /// path or key.
    fn bad_operation(&self, op: &TransactionOp) -> (r: Option<bool>)
        ensures
            op_refusal(*self, *op) == match r {
                Some(deep) => Some(
                    if deep {
                        writes::too_deep()
                    } else {
                        writes::invalid_key()
                    },
                ),
                None => None,
            },
    {
        let max_depth = self.limits.max_path_depth;
        let path_check = validate_path(op.path.as_str(), max_depth);
        if path_check.is_err() {
            return Some(false);
        }
        match (op_kind(op.op.as_str()), &op.value) {
            (OpKind::Put, Some(v)) => {
                let key_check = validate_value_keys(v);
                if key_check.is_err() {
                    return Some(false);
                }
                if lies_too_deep(op.path.as_str(), v, max_depth) {
                    return Some(true);
                }
                None
            },
            (OpKind::Merge, Some(JsonValue::Object(members))) => self.bad_merge(op, members),
            _ => None,
        }
    }

    /// What is wrong with the members of a merge operation.
    fn bad_merge(&self, op: &TransactionOp, members: &Vec<Member>) -> (r: Option<bool>)
        requires
            writes::path_fits(*self, op.path@),
            kind_of(op.op@) is Merge,
            op_data(*op) == Some(Json::Object(value::members_json(members@))),
        ensures
            op_refusal(*self, *op) == match r {
                Some(deep) => Some(
                    if deep {
                        writes::too_deep()
                    } else {
                        writes::invalid_key()
                    },
                ),
                None => None,
            },
    {
        let ghost ms = value::members_json(members@);
        let max_depth = self.limits.max_path_depth;
        let mut deep = false;
        let mut i: usize = 0;
        while i < members.len()
            invariant
                i <= members@.len(),
                ms == value::members_json(members@),
                max_depth == self.limits.max_path_depth,
                op_data(*op) == Some(Json::Object(ms)),
                kind_of(op.op@) is Merge,
                members_fit(*self, op.path@, ms, i as int),
                deep == members_sink(*self, op.path@, ms, i as int),
            decreases members@.len() - i,
        {
            let m = &members[i];
            assert(ms[i as int] == (m.key@, m.value@));
            let full = child_path_text(op.path.as_str(), m.key.as_str());
            let path_check = validate_path(full.as_str(), max_depth);
            let key_check = validate_value_keys(&m.value);
            if path_check.is_err() || key_check.is_err() {
                assert(!members_fit(*self, op.path@, ms, ms.len() as int)) by {
                    assert(ms[i as int].0 == m.key@);
                }
                return Some(false);
            }
            if lies_too_deep(full.as_str(), &m.value, max_depth) {
                assert(writes::sinks(
                    *self,
                    path::child_path(op.path@, ms[i as int].0),
                    ms[i as int].1,
                ));
                deep = true;
            }
            i = i + 1;
        }
        if deep {
            Some(true)
        } else {
            None
        }
    }

    /// Starts a transaction.
    pub fn begin_transaction(&mut self, client_id: &str, msg: &ClientMessage) -> (r:
        TransactionStep)
        requires
            old(self).inv(),
        ensures
            final(self).inv(),
            reaches(
                r,
                *old(self),
                *final(self),
                client_id@,
                msg.request(),
                match transaction_gate(*old(self), client_id@, *msg) {
                    Some(o) => Stage::Answer(o),
                    None => permissions_from(*old(self), operations(*msg), 0),
                },
            ),
    {
        let request_id = msg.request_text();
        match self.check_write(client_id, msg, true) {
            Some(reply) => {
                return TransactionStep::Reply(reply);
            },
            None => {},
        }
        let ops = match &msg.operations {
            Some(ops) => ops,
            None => {
                return TransactionStep::Reply(
                    self.refuse(
                        client_id,
                        request_id,
                        ErrorCode::InvalidData,
                        "missing operations",
                    ),
                );
            },
        };
        if ops.len() == 0 {
            return TransactionStep::Reply(
                self.refuse(client_id, request_id, ErrorCode::InvalidData, "empty transaction"),
            );
        }
        if ops.len() > MAX_TRANSACTION_OPS {
            return TransactionStep::Reply(
                self.refuse(
                    client_id,
                    request_id,
                    ErrorCode::PayloadTooLarge,
                    "transaction exceeds 1000 operations",
                ),
            );
        }
        if self.is_at_size_cap() {
            return TransactionStep::Reply(
                self.refuse(
                    client_id,
                    request_id,
                    ErrorCode::DatabaseFull,
                    "database is at its size limit",
                ),
            );
        }
        let mut i: usize = 0;
        while i < ops.len()
            invariant
                i <= ops@.len(),
                *self == *old(self),
                self.inv(),
                operations(*msg) == ops@,
                request_id@ == msg.request(),
                ops_refusal(*self, ops@, i as int) is None,
                transaction_gate(*self, client_id@, *msg) == ops_refusal(
                    *self,
                    ops@,
                    ops@.len() as int,
                ),
            decreases ops@.len() - i,
        {
            match self.bad_operation(&ops[i]) {
                Some(deep) => {
                    proof {
                        lemma_ops_refusal(*self, ops@, i + 1, ops@.len() as int);
                    }
                    if deep {
                        return TransactionStep::Reply(self.nack_too_deep(client_id, request_id));
                    }
                    return TransactionStep::Reply(self.nack_invalid_key(client_id, request_id));
                },
                None => {},
            }
            i = i + 1;
        }
        self.seek_permission(client_id, msg, ops, 0)
    }

    /// The next operation that needs a permission, or the conditions.
    fn seek_permission(
        &self,
        client_id: &str,
        msg: &ClientMessage,
        ops: &Vec<TransactionOp>,
        from: usize,
    ) -> (r: TransactionStep)
        requires
            self.inv(),
            operations(*msg) == ops@,
            from <= ops@.len(),
        ensures
            reaches(
                r,
                *self,
                *self,
                client_id@,
                msg.request(),
                permissions_from(*self, ops@, from as int),
            ),
    {
        let mut i: usize = from;
        while i < ops.len()
            invariant
                from <= i <= ops@.len(),
                permissions_from(*self, ops@, from as int) == permissions_from(
                    *self,
                    ops@,
                    i as int,
                ),
            decreases ops@.len() - i,
        {
            match op_kind(ops[i].op.as_str()) {
                OpKind::Condition => {},
                _ => {
                    return TransactionStep::Authorize(i);
                },
            }
            i = i + 1;
        }
        self.seek_condition(client_id, msg, ops, 0)
    }

    /// Goes on with a transaction once the security rules have spoken about one of its
    /// operations.
    pub fn transaction_authorized(
        &mut self,
        client_id: &str,
        msg: &ClientMessage,
        index: usize,
        allowed: bool,
    ) -> (r: TransactionStep)
        requires
            old(self).inv(),
            index < operations(*msg).len(),
        ensures
            final(self).inv(),
            reaches(
                r,
                *old(self),
                *final(self),
                client_id@,
                msg.request(),
                if allowed {
                    permissions_from(*old(self), operations(*msg), index + 1)
                } else {
                    Stage::Answer(
                        Outcome::Refuse(
                            ErrorCode::PermissionDenied,
                            "write permission denied"@,
                            true,
                        ),
                    )
                },
            ),
    {
        if !allowed {
            return TransactionStep::Reply(
                self.refuse(
                    client_id,
                    msg.request_text(),
                    ErrorCode::PermissionDenied,
                    "write permission denied",
                ),
            );
        }
        match &msg.operations {
            Some(ops) => {
                let total = ops.len();
                assert(index < total);
                self.seek_permission(client_id, msg, ops, index + 1)
            },
            None => TransactionStep::Reply(None),
        }
    }

    /// Whether a condition holds.
    fn check_condition(&self, op: &TransactionOp) -> (r: Option<&'static str>)
        ensures
            condition_refusal(self.store.tree@, *op) == match r {
                Some(m) => Some(condition_failed(m@)),
                None => None,
            },
    {
        let p = Path::parse(op.path.as_str());
        let found = self.store.tree.get(&p);
        match &op.value {
            Some(expected) => {
                let null = Node::Null;
                let node = match found {
                    Some(n) => n,
                    None => &null,
                };
                if !node_reads_as(node, expected) {
                    return Some("condition not met");
                }
            },
            None => {
                let current: JsonValue = match found {
                    Some(n) => node_value(n),
                    None => JsonValue::Null,
                };
                assert(plain::plain(current@) == plain::seen_opt(
                    shape::at(self.store.tree@, path::segments(op.path@)),
                ));
                match &op.hash {
                    Some(h) => {
                        let current_hash = compute_value_hash(&current);
                        if !same_text(current_hash.as_str(), h.as_str()) {
                            return Some("hash mismatch");
                        }
                    },
                    None => {
                        match &current {
                            JsonValue::Null => {},
                            _ => {
                                return Some("expected null but path exists");
                            },
                        }
                    },
                }
            },
        }
        None
    }

    /// The next condition whose path has to be loaded; conditions on paths that are
    /// loaded are decided on the way.
    fn seek_condition(
        &self,
        client_id: &str,
        msg: &ClientMessage,
        ops: &Vec<TransactionOp>,
        from: usize,
    ) -> (r: TransactionStep)
        requires
            self.inv(),
            operations(*msg) == ops@,
            from <= ops@.len(),
        ensures
            reaches(
                r,
                *self,
                *self,
                client_id@,
                msg.request(),
                conditions_from(*self, ops@, from as int),
            ),
    {
        let mut i: usize = from;
        while i < ops.len()
            invariant
                from <= i <= ops@.len(),
                conditions_from(*self, ops@, from as int) == conditions_from(
                    *self,
                    ops@,
                    i as int,
                ),
            decreases ops@.len() - i,
        {
            match op_kind(ops[i].op.as_str()) {
                OpKind::Condition => {
                    if !repeats(ops, i) {
                        return TransactionStep::Load(i);
                    }
                    match self.check_condition(&ops[i]) {
                        Some(m) => {
                            return TransactionStep::Reply(
                                Some(
                                    ServerMessage::nack(
                                        msg.request_text(),
                                        ErrorCode::ConditionFailed,
                                        m,
                                    ),
                                ),
                            );
                        },
                        None => {},
                    }
                },
                _ => {},
            }
            i = i + 1;
        }
        let mut k: usize = 0;
        while k < ops.len()
            invariant
                k <= ops@.len(),
                ops_priority(ops@, k as int) is None,
                conditions_from(*self, ops@, from as int) == after_conditions(*self, ops@),
            decreases ops@.len() - k,
        {
            match priority_of(&ops[k]) {
                Some(e) => {
                    proof {
                        lemma_ops_priority(ops@, k + 1, ops@.len() as int);
                    }
                    return TransactionStep::Reply(
                        Some(
                            ServerMessage::nack(
                                msg.request_text(),
                                ErrorCode::InvalidData,
                                e.as_str(),
                            ),
                        ),
                    );
                },
                None => {},
            }
            k = k + 1;
        }
        if self.ephemeral {
            TransactionStep::Resolve
        } else {
            TransactionStep::Charge
        }
    }

    /// Goes on with a transaction once the path of a condition is loaded, or could not
    /// be.
    pub fn transaction_loaded(
        &self,
        client_id: &str,
        msg: &ClientMessage,
        index: usize,
        failure: Option<&str>,
    ) -> (r: TransactionStep)
        requires
            self.inv(),
            index < operations(*msg).len(),
        ensures
            reaches(
                r,
                *self,
                *self,
                client_id@,
                msg.request(),
                match failure {
                    Some(e) => Stage::Answer(
                        Outcome::Refuse(
                            ErrorCode::Unavailable,
                            "Failed to load data for condition check: "@ + e@,
                            false,
                        ),
                    ),
                    None => match condition_refusal(
                        self.store.tree@,
                        operations(*msg)[index as int],
                    ) {
                        Some(o) => Stage::Answer(o),
                        None => conditions_from(*self, operations(*msg), index + 1),
                    },
                },
            ),
    {
        let request_id = msg.request_text();
        match failure {
            Some(e) => {
                let text = crate::text::concat("Failed to load data for condition check: ", e);
                return TransactionStep::Reply(
                    Some(ServerMessage::nack(request_id, ErrorCode::Unavailable, text.as_str())),
                );
            },
            None => {},
        }
        match &msg.operations {
            Some(ops) => {
                let total = ops.len();
                assert(index < total);
                match self.check_condition(&ops[index]) {
                    Some(m) => {
                        return TransactionStep::Reply(
                            Some(ServerMessage::nack(request_id, ErrorCode::ConditionFailed, m)),
                        );
                    },
                    None => {},
                }
                self.seek_condition(client_id, msg, ops, index + 1)
            },
            None => TransactionStep::Reply(None),
        }
    }

    /// Goes on with a transaction once the write budget has been asked.
    pub fn transaction_charged(
        &mut self,
        client_id: &str,
        msg: &ClientMessage,
        allowed: bool,
    ) -> (r: TransactionStep)
        requires
            old(self).inv(),
        ensures
            final(self).inv(),
            reaches(
                r,
                *old(self),
                *final(self),
                client_id@,
                msg.request(),
                if allowed {
                    Stage::Resolve
                } else {
                    Stage::Answer(writes::over_budget())
                },
            ),
    {
        if allowed {
            return TransactionStep::Resolve;
        }
        TransactionStep::Reply(
            self.refuse(
                client_id,
                msg.request_text(),
                ErrorCode::RateLimited,
                "write rate limit exceeded; retry shortly",
            ),
        )
    }

    /// Fills in the server values of all operations, each on top of those before it,
    /// without changing anything yet.
    pub fn resolve_transaction(&self, msg: &ClientMessage, now: i64, sums: &Vec<Sum>) -> (r:
        TransactionStep)
        ensures
            match ops_writes(
                operations(*msg),
                operations(*msg).len() as int,
                self.store.tree@,
                self.store.blob_backed,
                now,
                sums@,
            ) {
                Ok(entries) => r matches TransactionStep::Append(changes) && changes_view(changes@)
                    == entries,
                Err(Trouble::NeedsSum(c, d)) => r == (TransactionStep::NeedsSum {
                    current: c,
                    delta: d,
                }),
                Err(t) => r matches TransactionStep::Reply(reply) && protocol::said(reply) == Some(
                    Answer::Nack(
                        msg.request(),
                        ErrorCode::InvalidData,
                        database::trouble_text(t),
                    ),
                ),
            },
    {
        let none: Vec<TransactionOp> = Vec::new();
        let ops = match &msg.operations {
            Some(ops) => ops,
            None => &none,
        };
        assert(ops@ =~= operations(*msg));
        let lazy = self.store.blob_backed;
        let ghost t0 = self.store.tree@;
        let mut draft: Option<Tree> = if any_placeholder(ops) {
            Some(self.store.tree.copy())
        } else {
            None
        };
        assert(replay::replay(t0, Seq::<Entry>::empty(), lazy) == t0);
        let mut changes: Vec<Change> = Vec::new();
        let mut i: usize = 0;
        assert(changes_view(changes@) =~= Seq::<Entry>::empty());
        while i < ops.len()
            invariant
                i <= ops@.len(),
                ops@ == operations(*msg),
                lazy == self.store.blob_backed,
                t0 == self.store.tree@,
                ops_writes(ops@, i as int, t0, lazy, now, sums@) == Ok::<Seq<Entry>, Trouble>(
                    changes_view(changes@),
                ),
                match draft {
                    Some(d) => d@ == replay::replay(t0, changes_view(changes@), lazy),
                    None => forall|j: int|
                        0 <= j < ops@.len() ==> !op_has_placeholder(#[trigger] ops@[j]),
                },
            decreases ops@.len() - i,
        {
            let ghost done = changes_view(changes@);
            proof {
                if draft is None {
                    lemma_plain_write(
                        ops@[i as int],
                        t0,
                        replay::replay(t0, done, lazy),
                        now,
                        sums@,
                    );
                }
            }
            let change = match &draft {
                Some(d) => operation_change(&ops[i], d, now, sums),
                None => operation_change(&ops[i], &self.store.tree, now, sums),
            };
            match change {
                Ok(Some(c)) => {
                    draft = match draft {
                        Some(mut d) => {
                            let entry = c.entry();
                            d.apply(&entry, lazy);
                            Some(d)
                        },
                        None => None,
                    };
                    changes.push(c);
                    proof {
                        change::law_logged_form_is_faithful(c@);
                        assert(changes_view(changes@) =~= done.push(c@));
                        assert(done.push(c@).drop_last() =~= done);
                    }
                },
                Ok(None) => {},
                Err(e) => {
                    proof {
                        lemma_ops_error(
                            ops@,
                            i + 1,
                            ops@.len() as int,
                            t0,
                            lazy,
                            now,
                            sums@,
                        );
                    }
                    return refused_server_value(msg.request_text(), e);
                },
            }
            i = i + 1;
        }
        TransactionStep::Append(changes)
    }

    /// Carries out a list of writes whose log entries have been handed to the log.
    pub(crate) fn commit_all(
        &mut self,
        writer: Option<&str>,
        changes: &Vec<Change>,
        outcomes: &Vec<AppendOutcome>,
    ) -> (r: Vec<MutationEvent>)
        requires
            old(self).inv(),
            changes@.len() == outcomes@.len(),
        ensures
            final(self).inv(),
            *final(self) == (Database {
                store: final(self).store,
                wal: final(self).wal,
                ..*old(self)
            }),
            holds_writes(*old(self), *final(self), changes_view(changes@), outcomes@),
            r@.len() == changes@.len(),
            forall|i: int|
                0 <= i < changes@.len() ==> change::event_tells(#[trigger] r@[i], changes@[i])
                    && !r@[i].volatile && writer_is(r@[i], writer),
    {
        let ghost entries = changes_view(changes@);
        let mut events: Vec<MutationEvent> = Vec::new();
        let mut i: usize = 0;
        assert(entries.take(0) =~= Seq::<Entry>::empty());
        while i < changes.len()
            invariant
                i <= changes@.len(),
                changes@.len() == outcomes@.len(),
                entries == changes_view(changes@),
                self.inv(),
                *self == (Database { store: self.store, wal: self.wal, ..*old(self) }),
                self.store.tree@ == replay::replay(
                    old(self).store.tree@,
                    entries.take(i as int),
                    old(self).store.blob_backed,
                ),
                self.store.log() == log_after(
                    old(self).store.log(),
                    entries,
                    outcomes@,
                    i as int,
                ),
                self.store.records() == records_after(
                    old(self).store.records(),
                    entries,
                    outcomes@,
                    i as int,
                ),
                self.store.sentinel_paths@ == marks_after_all(
                    old(self).store.sentinel_paths@,
                    entries,
                    old(self).store.tree@,
                    old(self).store.blob_backed,
                    i as int,
                ),
                self.wal == wal_after_all(old(self).wal, outcomes@, i as int),
                self.store.blob_backed == old(self).store.blob_backed,
                self.store.promoted_paths == old(self).store.promoted_paths,
                self.store.blob_sequence == old(self).store.blob_sequence,
                events@.len() == i,
                forall|j: int|
                    0 <= j < i ==> change::event_tells(#[trigger] events@[j], changes@[j])
                        && !events@[j].volatile && writer_is(events@[j], writer),
            decreases changes@.len() - i,
        {
            let c = &changes[i];
            self.commit(c, outcomes[i]);
            events.push(mutation_event(c, false, writer));
            proof {
                assert(entries[i as int] == c@);
                assert(entries.take(i + 1).drop_last() =~= entries.take(i as int));
                assert(entries.take(i + 1).last() == c@);
            }
            i = i + 1;
        }
        assert(entries.take(i as int) =~= entries);
        events
    }

    /// Carries out a transaction whose log entries have been handed to the log: all of it,
    /// or nothing where the log did not take all of it.
    pub fn commit_transaction(
        &mut self,
        client_id: &str,
        msg: &ClientMessage,
        changes: &Vec<Change>,
        outcomes: &Vec<AppendOutcome>,
        sync: Option<SyncOutcome>,
        settings: &Settings,
    ) -> (r: TransactionDone)
        requires
            old(self).inv(),
            changes@.len() == outcomes@.len(),
        ensures
            final(self).inv(),
            all_settled(
                *old(self),
                *final(self),
                client_id@,
                msg.request(),
                changes_view(changes@),
                outcomes@,
                sync,
                *settings,
                r.reply,
            ),
            if change::landing(outcomes@, sync, *settings) is Lost {
                r.events@.len() == 0
            } else {
                &&& r.events@.len() == changes@.len()
                &&& forall|i: int|
                    0 <= i < changes@.len() ==> change::event_tells(
                        #[trigger] r.events@[i],
                        changes@[i],
                    ) && !r.events@[i].volatile && writer_is(r.events@[i], Some(client_id))
            },
            r.compact == (sync == Some(SyncOutcome::Synced { rotated: true })),
    {
        let request_id = msg.request_text();
        match landing_of(outcomes, sync, settings) {
            Landing::Lost => {
                self.note_appends(outcomes);
                let compact = self.note_sync(sync);
                TransactionDone {
                    reply: self.refuse_unlogged(client_id, request_id),
                    events: Vec::new(),
                    compact,
                }
            },
            Landing::Unsure => {
                let events = self.commit_all(Some(client_id), changes, outcomes);
                let compact = self.note_sync(sync);
                TransactionDone {
                    reply: self.refuse_unlogged(client_id, request_id),
                    events,
                    compact,
                }
            },
            Landing::Safe => {
                let events = self.commit_all(Some(client_id), changes, outcomes);
                let compact = self.note_sync(sync);
                self.record_processed_write(client_id, request_id);
                TransactionDone { reply: Some(ServerMessage::ack(request_id)), events, compact }
            },
        }
    }

    /// Notes what became of entries that were handed to the log writer.
    fn note_appends(&mut self, outcomes: &Vec<AppendOutcome>)
        requires
            old(self).inv(),
        ensures
            final(self).inv(),
            *final(self) == (Database {
                wal: wal_after_all(old(self).wal, outcomes@, outcomes@.len() as int),
                ..*old(self)
            }),
    {
        let mut i: usize = 0;
        while i < outcomes.len()
            invariant
                i <= outcomes@.len(),
                self.inv(),
                *self == (Database {
                    wal: wal_after_all(old(self).wal, outcomes@, i as int),
                    ..*old(self)
                }),
            decreases outcomes@.len() - i,
        {
            self.note_append(outcomes[i]);
            i = i + 1;
        }
    }
}

/// Whether an earlier condition is about the same path.
fn repeats(ops: &Vec<TransactionOp>, i: usize) -> (r: bool)
    requires
        i < ops@.len(),
    ensures
        r == is_repeated(ops@, i as int),
{
    let mut j: usize = 0;
    while j < i
        invariant
            j <= i < ops@.len(),
            forall|k: int|
                0 <= k < j ==> !(kind_of((#[trigger] ops@[k]).op@) is Condition && ops@[k].path@
                    == ops@[i as int].path@),
        decreases i - j,
    {
        let is_condition = match op_kind(ops[j].op.as_str()) {
            OpKind::Condition => true,
            _ => false,
        };
        if is_condition && same_text(ops[j].path.as_str(), ops[i].path.as_str()) {
            assert(kind_of(ops@[j as int].op@) is Condition);
            return true;
        }
        j = j + 1;
    }
    false
}

/// The complaint about `.value` patterns in an operation.
fn priority_of(op: &TransactionOp) -> (r: Option<String>)
    ensures
        op_priority(*op) == match r {
            Some(e) => Some(e@),
            None => None,
        },
{
    match (op_kind(op.op.as_str()), &op.value) {
        (OpKind::Put, Some(v)) => match validate_value_priority(v, op.path.as_str()) {
            Ok(_) => None,
            Err(e) => Some(e),
        },
        (OpKind::Merge, Some(JsonValue::Object(members))) => match members_priority(
            members,
            op.path.as_str(),
        ) {
            Ok(_) => None,
            Err(e) => Some(e),
        },
        _ => None,
    }
}

/// Whether one of the operations holds a server value to be filled in.
fn any_placeholder(ops: &Vec<TransactionOp>) -> (r: bool)
    ensures
        r == exists|j: int| 0 <= j < ops@.len() && op_has_placeholder(#[trigger] ops@[j]),
{
    let mut i: usize = 0;
    while i < ops.len()
        invariant
            i <= ops@.len(),
            forall|j: int| 0 <= j < i ==> !op_has_placeholder(#[trigger] ops@[j]),
        decreases ops@.len() - i,
    {
        let op = &ops[i];
        let found = match (op_kind(op.op.as_str()), &op.value) {
            (OpKind::Put, Some(v)) => holds_placeholder(v),
            (OpKind::Merge, Some(JsonValue::Object(members))) => members_hold_placeholder(members),
            _ => false,
        };
        assert(found == op_has_placeholder(ops@[i as int]));
        if found {
            return true;
        }
        i = i + 1;
    }
    false
}

/// The write that an operation stands for.
fn operation_change(op: &TransactionOp, tree: &Tree, now: i64, sums: &Vec<Sum>) -> (r: Result<
    Option<Change>,
    Complaint,
>)
    ensures
        match r {
            Ok(Some(c)) => op_write(*op, tree@, now, sums@) == Ok::<Option<Entry>, Trouble>(
                Some(c@),
            ),
            Ok(None) => op_write(*op, tree@, now, sums@) == Ok::<Option<Entry>, Trouble>(None),
            Err(e) => op_write(*op, tree@, now, sums@) == Err::<Option<Entry>, Trouble>(e@),
        },
{
    match (op_kind(op.op.as_str()), &op.value) {
        (OpKind::Put, Some(v)) => match process_server_values(
            v,
            op.path.as_str(),
            tree,
            now,
            sums,
        ) {
            Ok((x, _)) => Ok(Some(Change::Put { path: op.path.clone(), value: x })),
            Err(e) => Err(e),
        },
        (OpKind::Merge, Some(JsonValue::Object(members))) => match fill_members(
            members,
            op.path.as_str(),
            tree,
            now,
            sums,
        ) {
            Ok(ms) => Ok(Some(Change::Merge { path: op.path.clone(), members: ms })),
            Err(e) => Err(e),
        },
        (OpKind::Drop, _) => Ok(Some(Change::Drop { path: op.path.clone() })),
        _ => Ok(None),
    }
}

/// The answer to a transaction with a bad server value, or the question for a sum.
fn refused_server_value(request_id: &str, e: Complaint) -> (r: TransactionStep)
    ensures
        match e@ {
            Trouble::NeedsSum(c, d) => r == (TransactionStep::NeedsSum { current: c, delta: d }),
            t => r matches TransactionStep::Reply(reply) && protocol::said(reply) == Some(
                Answer::Nack(
                    request_id@,
                    ErrorCode::InvalidData,
                    database::trouble_text(t),
                ),
            ),
        },
{
    let message = match e {
        Complaint::NeedsSum { current, delta } => {
            return TransactionStep::NeedsSum { current, delta };
        },
        other => complaint_text(other),
    };
    TransactionStep::Reply(
        Some(ServerMessage::nack(request_id, ErrorCode::InvalidData, message.as_str())),
    )
}

/// Whether the log took every one of the first `n` entries.
pub open spec fn all_taken(outcomes: Seq<AppendOutcome>, n: int) -> bool {
    forall|i: int| 0 <= i < n ==> (#[trigger] outcomes[i]) is Appended
}

/// A transaction that the log took keeps the tree true to the blob and the log.
pub proof fn law_transaction_keeps_tree_true(
    before: Database,
    after: Database,
    entries: Seq<Entry>,
    outcomes: Seq<AppendOutcome>,
    blob: Shape,
)
    requires
        holds_writes(before, after, entries, outcomes),
        before.store.blob_backed,
        entries.len() == outcomes.len(),
        all_taken(outcomes, outcomes.len() as int),
        shape::fully_loaded(blob),
        shape::agrees(before.store.tree@, replay::full_data(blob, before.store.log())),
    ensures
        shape::agrees(after.store.tree@, replay::full_data(blob, after.store.log())),
{
    lemma_writes_agree(before, entries, outcomes, blob, entries.len() as int);
    assert(entries.take(entries.len() as int) =~= entries);
}

/// The tree after the first `n` writes is true to the log after them.
proof fn lemma_writes_agree(
    before: Database,
    entries: Seq<Entry>,
    outcomes: Seq<AppendOutcome>,
    blob: Shape,
    n: int,
)
    requires
        0 <= n <= entries.len(),
        entries.len() == outcomes.len(),
        all_taken(outcomes, n),
        shape::fully_loaded(blob),
        shape::agrees(before.store.tree@, replay::full_data(blob, before.store.log())),
    ensures
        shape::agrees(
            replay::replay(before.store.tree@, entries.take(n), true),
            replay::full_data(blob, log_after(before.store.log(), entries, outcomes, n)),
        ),
    decreases n,
{
    let log = log_after(before.store.log(), entries, outcomes, n);
    if n > 0 {
        lemma_writes_agree(before, entries, outcomes, blob, n - 1);
        let earlier = log_after(before.store.log(), entries, outcomes, n - 1);
        let e = entries[n - 1];
        assert(outcomes[n - 1] is Appended);
        assert(entries.take(n).drop_last() =~= entries.take(n - 1));
        assert(entries.take(n).last() == e);
        assert(log.drop_last() =~= earlier);
        assert(log.last() == change::logged(e));
        replay::lemma_entry_loaded(e);
        replay::lemma_replay_loaded(blob, earlier);
        change::law_logged_form_is_faithful(e);
        replay::law_write_all_agrees(
            replay::replay(before.store.tree@, entries.take(n - 1), true),
            replay::full_data(blob, earlier),
            replay::entry_edits(e),
        );
    } else {
        assert(entries.take(0) =~= Seq::<Entry>::empty());
    }
}

/// A request that was carried out goes no further when it comes again, be it a set, an
/// update, a removal or a transaction. Where its form is right and it builds on nothing
/// that was refused, it is acknowledged.
pub proof fn law_repeated_requests_stop(
    db: Database,
    client: Seq<char>,
    msg: ClientMessage,
    volatile: bool,
)
    requires
        db.processed(client, msg.request()),
    ensures
        writes::set_gate(db, client, msg, volatile) is Some,
        writes::update_gate(db, client, msg, volatile) is Some,
        writes::remove_gate(db, client, msg, volatile) is Some,
        transaction_gate(db, client, msg) is Some,
        !db.tainted(client, msg.pending_writes) ==> transaction_gate(db, client, msg) == Some(
            Outcome::Ack,
        ) && writes::write_gate(db, client, msg, !volatile) == Some(Outcome::Ack),
{
}

/// While the log is out of order no durable write goes further.
pub proof fn law_failed_log_stops_writes(db: Database, client: Seq<char>, msg: ClientMessage)
    requires
        db.wal.failed,
    ensures
        writes::set_gate(db, client, msg, false) is Some,
        writes::update_gate(db, client, msg, false) is Some,
        writes::remove_gate(db, client, msg, false) is Some,
        transaction_gate(db, client, msg) is Some,
{
}

/// A write that builds on one that was refused is dropped without a word, unless its form
/// is wrong.
pub proof fn law_writes_on_refused_ones_are_dropped(
    db: Database,
    client: Seq<char>,
    msg: ClientMessage,
    volatile: bool,
)
    requires
        db.tainted(client, msg.pending_writes),
    ensures
        writes::write_gate(db, client, msg, !volatile) == Some(Outcome::Silent),
        transaction_gate(db, client, msg) == Some(Outcome::Silent),
{
}

/// An answer in place of a write, whatever it says, leaves the data and the log as they
/// were.
pub proof fn law_answers_change_no_data(
    before: Database,
    after: Database,
    client: Seq<char>,
    request: Seq<char>,
    outcome: Outcome,
    reply: Option<ServerMessage>,
)
    requires
        after.answered(&before, client, request, outcome, reply),
    ensures
        after.store == before.store,
        after.clients == before.clients,
        after.wal == before.wal,
{
}

/// A write is acknowledged only where the log took it, if there is a log, and, where
/// writes are flushed before they are acknowledged, flushed it.
pub proof fn law_acknowledged_writes_are_logged(
    before: Database,
    after: Database,
    client: Seq<char>,
    request: Seq<char>,
    entries: Seq<Entry>,
    outcomes: Seq<AppendOutcome>,
    sync: Option<SyncOutcome>,
    settings: Settings,
    reply: Option<ServerMessage>,
)
    requires
        all_settled(before, after, client, request, entries, outcomes, sync, settings, reply),
        protocol::said(reply) == Some(Answer::Ack(request)),
    ensures
        forall|i: int| 0 <= i < outcomes.len() ==> !((#[trigger] outcomes[i]) is Failed),
        settings.wal_sync_interval_ms == 0 && (exists|i: int|
            0 <= i < outcomes.len() && (#[trigger] outcomes[i]) is Appended) ==> change::went_well(
            sync,
        ),
        after.store.log() == log_after(
            before.store.log(),
            entries,
            outcomes,
            entries.len() as int,
        ),
        after.store.records() == records_after(
            before.store.records(),
            entries,
            outcomes,
            entries.len() as int,
        ),
{
}

/// The same of a single set, merge or removal.
pub proof fn law_acknowledged_write_is_logged(
    before: Database,
    after: Database,
    client: Seq<char>,
    request: Seq<char>,
    e: Entry,
    outcome: AppendOutcome,
    sync: Option<SyncOutcome>,
    settings: Settings,
    remembered: bool,
    ack: Option<Answer>,
    reply: Option<ServerMessage>,
)
    requires
        writes::settled(
            before,
            after,
            client,
            request,
            e,
            outcome,
            sync,
            settings,
            remembered,
            ack,
            reply,
        ),
        protocol::said(reply) == Some(Answer::Ack(request)),
    ensures
        !(outcome is Failed),
        settings.wal_sync_interval_ms == 0 && outcome is Appended ==> change::went_well(sync),
        outcome is Appended ==> after.store.log() == before.store.log().push(change::logged(e)),
        outcome matches AppendOutcome::Appended { sequence, .. }
            ==> after.store.records() == before.store.records().push(
            Record { sequence, write: change::logged(e) },
        ),
{
    assert(seq![outcome][0] == outcome);
}

/// A write that the log did not take leaves the data, the log and the requests that count
/// as done as they were; it is turned down, and so are durable writes after it.
pub proof fn law_lost_writes_leave_no_trace(
    before: Database,
    after: Database,
    client: Seq<char>,
    request: Seq<char>,
    entries: Seq<Entry>,
    outcomes: Seq<AppendOutcome>,
    sync: Option<SyncOutcome>,
    settings: Settings,
    reply: Option<ServerMessage>,
    i: int,
)
    requires
        all_settled(before, after, client, request, entries, outcomes, sync, settings, reply),
        0 <= i < outcomes.len(),
        outcomes[i] is Failed,
    ensures
        after.store == before.store,
        after.ledger.processed == before.ledger.processed,
        after.wal.failed,
        protocol::said(reply) == Some(
            Answer::Nack(
                request,
                ErrorCode::Unavailable,
                "Storage unavailable (WAL I/O failure)"@,
            ),
        ),
{
    lemma_failure_shows(before.wal, outcomes, i, outcomes.len() as int);
}

/// One failure is enough for the log to be out of order.
proof fn lemma_failure_shows(wal: WalState, outcomes: Seq<AppendOutcome>, i: int, n: int)
    requires
        0 <= i < n <= outcomes.len(),
        outcomes[i] is Failed,
    ensures
        wal_after_all(wal, outcomes, n).failed,
    decreases n,
{
    if i < n - 1 {
        lemma_failure_shows(wal, outcomes, i, n - 1);
    }
}

/// What the names of operations stand for.
pub proof fn law_operation_names(name: Seq<char>)
    ensures
        kind_of(name) is Put <==> name == "s"@ || name == "set"@,
        kind_of(name) is Merge <==> name == "u"@ || name == "update"@,
        kind_of(name) is Drop <==> name == "d"@ || name == "remove"@,
        kind_of(name) is Condition <==> name == "c"@,
{
    reveal_strlit("s");
    reveal_strlit("set");
    reveal_strlit("u");
    reveal_strlit("update");
    reveal_strlit("d");
    reveal_strlit("remove");
    reveal_strlit("c");
    assert("s"@[0] == 's' && "set"@.len() == 3 && "u"@[0] == 'u' && "update"@.len() == 6);
    assert("d"@[0] == 'd' && "remove"@.len() == 6 && "remove"@[0] == 'r' && "update"@[0] == 'u');
    assert("c"@[0] == 'c');
}

/// A condition is met exactly if the data at its path, as a reader sees it, is the value that
/// it names; or has the hash that it names; or, where it names neither, if there is no data.
pub proof fn law_conditions_compare_the_data(t: Shape, op: TransactionOp)
    requires
        op_data(op) matches Some(v) ==> plain::tidy(v) && plain::tidy_node(
            shape::at_or_null(t, path::segments(op.path@)),
        ),
    ensures
        ({
            let here = plain::seen(shape::at_or_null(t, path::segments(op.path@)));
            let met = match (op.value, op.hash) {
                (Some(v), _) => plain::alike(here, plain::plain(v@)),
                (None, Some(h)) => hash::data_hash(here) == h@,
                (None, None) => here == plain::Plain::Null,
            };
            &&& condition_refusal(t, op) is None <==> met
            &&& condition_refusal(t, op) matches Some(o) ==> (o matches Outcome::Refuse(
                code,
                _,
                remembered,
            ) && code == ErrorCode::ConditionFailed && !remembered)
        }),
{
    let n = shape::at_or_null(t, path::segments(op.path@));
    match op.value {
        Some(v) => plain::law_condition_is_equality(n, v@),
        None => {},
    }
}

/// No condition is skipped: what is asked for next is the first condition at a new path, and
/// what lies before it holds; the transaction goes on to its writes only where all that was
/// left holds, and a refusal names a condition that does not hold.
pub proof fn law_no_condition_is_skipped(db: Database, ops: Seq<TransactionOp>, i: int)
    requires
        0 <= i <= ops.len(),
    ensures
        match conditions_from(db, ops, i) {
            Stage::Load(j) => i <= j < ops.len() && kind_of(ops[j].op@) is Condition
                && !is_repeated(ops, j) && conditions_hold(db.store.tree@, ops, i, j),
            Stage::Answer(o) => conditions_hold(db.store.tree@, ops, i, ops.len() as int) || exists|
                j: int,
            |
                i <= j < ops.len() && kind_of((#[trigger] ops[j]).op@) is Condition
                    && condition_refusal(db.store.tree@, ops[j]) == Some(o),
            Stage::Authorize(_) => false,
            _ => conditions_hold(db.store.tree@, ops, i, ops.len() as int),
        },
    decreases ops.len() - i,
{
    if i < ops.len() {
        law_no_condition_is_skipped(db, ops, i + 1);
        if kind_of(ops[i].op@) is Condition && is_repeated(ops, i) && condition_refusal(
            db.store.tree@,
            ops[i],
        ) is Some {
            assert(kind_of(ops[i].op@) is Condition);
        } else if !(kind_of(ops[i].op@) is Condition) || is_repeated(ops, i) {
            match conditions_from(db, ops, i + 1) {
                Stage::Answer(o) => {
                    if !conditions_hold(db.store.tree@, ops, i + 1, ops.len() as int) {
                        let j = choose|j: int|
                            i + 1 <= j < ops.len() && kind_of((#[trigger] ops[j]).op@) is Condition
                                && condition_refusal(db.store.tree@, ops[j]) == Some(o);
                        assert(kind_of(ops[j].op@) is Condition);
                    }
                },
                _ => {},
            }
        }
    }
}

/// Whether the conditions between two operations hold.
pub open spec fn conditions_hold(t: Shape, ops: Seq<TransactionOp>, i: int, j: int) -> bool {
    forall|l: int|
        i <= l < j && kind_of((#[trigger] ops[l]).op@) is Condition ==> condition_refusal(
            t,
            ops[l],
        ) is None
}

/// Every write of a transaction is put before the rules: what is asked about next is the
/// first write that is left, and the conditions are looked at only where none is left.
pub proof fn law_every_write_is_put_before_the_rules(
    db: Database,
    ops: Seq<TransactionOp>,
    i: int,
)
    requires
        0 <= i <= ops.len(),
    ensures
        (exists|j: int| i <= j < ops.len() && !(kind_of((#[trigger] ops[j]).op@) is Condition))
            ==> (permissions_from(db, ops, i) matches Stage::Authorize(j) && i <= j < ops.len()
            && !(kind_of(ops[j].op@) is Condition) && forall|l: int|
            i <= l < j ==> kind_of((#[trigger] ops[l]).op@) is Condition),
        (forall|j: int| i <= j < ops.len() ==> kind_of((#[trigger] ops[j]).op@) is Condition)
            ==> permissions_from(db, ops, i) == conditions_from(db, ops, 0),
    decreases ops.len() - i,
{
    if i < ops.len() {
        law_every_write_is_put_before_the_rules(db, ops, i + 1);
        if kind_of(ops[i].op@) is Condition {
            if exists|j: int| i <= j < ops.len() && !(kind_of((#[trigger] ops[j]).op@) is Condition) {
                let j = choose|j: int|
                    i <= j < ops.len() && !(kind_of((#[trigger] ops[j]).op@) is Condition);
                assert(i + 1 <= j && !(kind_of(ops[j].op@) is Condition));
            }
        }
    }
}

/// Whether an operation writes: it sets a value, merges an object, or removes.
pub open spec fn is_write(op: TransactionOp) -> bool {
    match kind_of(op.op@) {
        OpKind::Put => op.value is Some,
        OpKind::Merge => op_data(op) is Some && op_data(op)->0 is Object,
        OpKind::Drop => true,
        _ => false,
    }
}

/// How many of the first `n` operations write.
pub open spec fn writes_among(ops: Seq<TransactionOp>, n: int) -> int
    decreases n,
{
    if n <= 0 || n > ops.len() {
        0
    } else {
        writes_among(ops, n - 1) + if is_write(ops[n - 1]) {
            1int
        } else {
            0int
        }
    }
}

/// Whether a write is what an operation says, on a tree.
pub open spec fn does_what_is_said(
    e: Entry,
    op: TransactionOp,
    t: Shape,
    now: i64,
    sums: Seq<Sum>,
) -> bool {
    &&& e.path == path::segments(op.path@)
    &&& match kind_of(op.op@) {
        OpKind::Put => e.op is Assign && e.value is Some && server_value::resolved(
            op_data(op)->0,
            op.path@,
            t,
            now,
            sums,
        ) == Ok::<Json, Trouble>(e.value->0),
        OpKind::Merge => e.op is Update && e.value is Some && e.value->0 is Object
            && server_value::resolved_members(
            op_data(op)->0->Object_0,
            op_data(op)->0->Object_0.len() as int,
            op.path@,
            t,
            now,
            sums,
        ) == Ok::<Seq<(Seq<char>, Json)>, Trouble>(e.value->0->Object_0),
        _ => e.op is Delete && e.value is None,
    }
}

/// A transaction makes one write for each operation that writes, in their order: each does
/// what its operation says, on the data as the writes before it leave it.
pub proof fn law_each_operation_makes_its_write(
    ops: Seq<TransactionOp>,
    n: int,
    t: Shape,
    lazy: bool,
    now: i64,
    sums: Seq<Sum>,
)
    requires
        0 <= n <= ops.len(),
        ops_writes(ops, n, t, lazy, now, sums) is Ok,
    ensures
        ({
            let es = ops_writes(ops, n, t, lazy, now, sums)->Ok_0;
            &&& es.len() == writes_among(ops, n)
            &&& forall|i: int|
                0 <= i < n && is_write(#[trigger] ops[i]) ==> 0 <= writes_among(ops, i) < es.len()
                    && does_what_is_said(
                    es[writes_among(ops, i)],
                    ops[i],
                    replay::replay(t, es.take(writes_among(ops, i)), lazy),
                    now,
                    sums,
                )
        }),
    decreases n,
{
    if n > 0 {
        law_each_operation_makes_its_write(ops, n - 1, t, lazy, now, sums);
        let before = ops_writes(ops, n - 1, t, lazy, now, sums)->Ok_0;
        let es = ops_writes(ops, n, t, lazy, now, sums)->Ok_0;
        assert forall|i: int| 0 <= i < n && is_write(#[trigger] ops[i]) implies 0 <= writes_among(
            ops,
            i,
        ) < es.len() && does_what_is_said(
            es[writes_among(ops, i)],
            ops[i],
            replay::replay(t, es.take(writes_among(ops, i)), lazy),
            now,
            sums,
        ) by {
            let at = writes_among(ops, i);
            if i < n - 1 {
                assert(es[at] == before[at]);
                assert(es.take(at) =~= before.take(at));
            } else {
                assert(es.take(at) =~= before);
            }
        }
    }
}

/// A transaction that is acknowledged has been carried out as a whole: each path that it
/// wrote holds what its last write there says.
pub proof fn law_read_after_transaction(
    before: Database,
    after: Database,
    client: Seq<char>,
    request: Seq<char>,
    entries: Seq<Entry>,
    outcomes: Seq<AppendOutcome>,
    sync: Option<SyncOutcome>,
    settings: Settings,
    reply: Option<ServerMessage>,
    i: int,
)
    requires
        all_settled(before, after, client, request, entries, outcomes, sync, settings, reply),
        protocol::said(reply) == Some(Answer::Ack(request)),
        0 <= i < entries.len(),
        entries[i].op is Assign || entries[i].op is Delete,
        forall|j: int|
            i < j < entries.len() ==> replay::spares(#[trigger] entries[j], entries[i].path),
    ensures
        ({
            let e = entries[i];
            let there = shape::at(after.store.tree@, e.path);
            &&& e.op is Delete || e.value is None || e.value->0 is Null ==> plain::seen_opt(
                there,
            ) == plain::Plain::Null
            &&& e.op is Assign && e.value is Some && plain::tidy(e.value->0) && plain::is_whole(
                e.value->0,
            ) ==> plain::seen_opt(there) == plain::plain(e.value->0)
        }),
{
    let e = entries[i];
    replay::law_last_write_in_a_log_counts(
        before.store.tree@,
        entries,
        before.store.blob_backed,
        i,
    );
    if e.value is Some && plain::tidy(e.value->0) && plain::is_whole(e.value->0) {
        plain::law_written_value_is_read_back(e.value->0);
    }
}

/// A transaction gets past the first look exactly if it has between one and a thousand
/// operations, each of the right form, is neither built on a refused write nor a repetition,
/// and log and database take writes.
pub proof fn law_transactions_that_may_go_on(
    db: Database,
    client: Seq<char>,
    msg: ClientMessage,
)
    ensures
        transaction_gate(db, client, msg) is None <==> {
            &&& !db.tainted(client, msg.pending_writes)
            &&& !db.processed(client, msg.request())
            &&& !db.wal.failed
            &&& msg.operations is Some
            &&& 1 <= operations(msg).len() <= 1000
            &&& !db.full()
            &&& forall|i: int|
                0 <= i < operations(msg).len() ==> op_refusal(
                    db,
                    #[trigger] operations(msg)[i],
                ) is None
        },
{
    lemma_ops_refused(db, operations(msg), operations(msg).len() as int);
}

/// The first operations are refused exactly if one is.
proof fn lemma_ops_refused(db: Database, ops: Seq<TransactionOp>, n: int)
    requires
        0 <= n <= ops.len(),
    ensures
        ops_refusal(db, ops, n) is None <==> forall|i: int|
            0 <= i < n ==> op_refusal(db, #[trigger] ops[i]) is None,
    decreases n,
{
    if n > 0 {
        lemma_ops_refused(db, ops, n - 1);
    }
}

/// An operation has the right form exactly if its path is valid, and so are the keys of what
/// it writes, and nothing of it lies deeper than allowed.
pub proof fn law_operations_of_the_right_form(db: Database, op: TransactionOp)
    ensures
        op_refusal(db, op) is None <==> {
            &&& path::valid_path(op.path@, db.limits.max_path_depth as nat)
            &&& kind_of(op.op@) is Put && op.value is Some ==> value::keys_valid(op.value->0@)
                && path::segments(op.path@).len() + value::held(value::depth(op.value->0@))
                <= db.limits.max_path_depth
            &&& kind_of(op.op@) is Merge && op.value is Some ==> (op.value->0@ matches Json::Object(
                members,
            ) ==> forall|i: int|
                0 <= i < members.len() ==> {
                    let full = path::child_path(op.path@, (#[trigger] members[i]).0);
                    &&& path::valid_path(full, db.limits.max_path_depth as nat)
                    &&& value::keys_valid(members[i].1)
                    &&& path::segments(full).len() + value::held(value::depth(members[i].1))
                        <= db.limits.max_path_depth
                })
        },
{
    if let (OpKind::Merge, Some(Json::Object(members))) = (kind_of(op.op@), op_data(op)) {
        let n = members.len() as int;
        if op_refusal(db, op) is None {
            assert forall|i: int| 0 <= i < n implies {
                let full = path::child_path(op.path@, (#[trigger] members[i]).0);
                &&& path::valid_path(full, db.limits.max_path_depth as nat)
                &&& value::keys_valid(members[i].1)
                &&& path::segments(full).len() + value::held(value::depth(members[i].1))
                    <= db.limits.max_path_depth
            } by {
                assert(writes::path_fits(db, path::child_path(op.path@, members[i].0)));
                assert(!writes::sinks(
                    db,
                    path::child_path(op.path@, members[i].0),
                    members[i].1,
                ));
            }
        }
    }
}

/// There is a complaint about `.value` in a transaction exactly if there is one in what an
/// operation writes.
pub proof fn law_complaints_about_values(ops: Seq<TransactionOp>, n: int)
    requires
        0 <= n <= ops.len(),
    ensures
        ops_priority(ops, n) is None <==> forall|i: int|
            0 <= i < n ==> op_priority(#[trigger] ops[i]) is None,
        ops_priority(ops, n) matches Some(e) ==> exists|i: int|
            0 <= i < n && op_priority(#[trigger] ops[i]) == Some(e),
    decreases n,
{
    if n > 0 {
        law_complaints_about_values(ops, n - 1);
        if ops_priority(ops, n - 1) is None && op_priority(ops[n - 1]) is Some {
            assert(op_priority(ops[n - 1]) is Some);
        }
    }
}

/// A transaction that may not go on is answered by the first of these that holds: what stops
/// any write, it brings no operations, it brings too many, the database is full, an operation
/// is not of the right form.
pub proof fn law_refused_transactions_are_answered(
    db: Database,
    client: Seq<char>,
    msg: ClientMessage,
)
    ensures
        ({
            let o = transaction_gate(db, client, msg);
            let stopped = writes::write_gate(db, client, msg, true);
            let many = match msg.operations {
                Some(ops) => ops@.len(),
                None => 0,
            };
            &&& stopped is Some ==> o == stopped
            &&& stopped is None && many == 0 ==> writes::is_refused(o, ErrorCode::InvalidData)
            &&& stopped is None && many > 1000 ==> writes::is_refused(
                o,
                ErrorCode::PayloadTooLarge,
            )
            &&& stopped is None && 0 < many <= 1000 && db.full() ==> writes::is_refused(
                o,
                ErrorCode::DatabaseFull,
            )
            &&& stopped is None && 0 < many <= 1000 && !db.full() && o is Some
                ==> writes::is_refused(o, ErrorCode::InvalidData)
        }),
{
    lemma_refused_for_form(db, operations(msg), operations(msg).len() as int);
}

/// An operation of the wrong form is refused as invalid data.
proof fn lemma_refused_for_form(db: Database, ops: Seq<TransactionOp>, n: int)
    ensures
        ops_refusal(db, ops, n) is Some ==> writes::is_refused(
            ops_refusal(db, ops, n),
            ErrorCode::InvalidData,
        ),
    decreases n,
{
    if 0 < n <= ops.len() {
        lemma_refused_for_form(db, ops, n - 1);
    }
}

/// An operation's value is complained about exactly if the set or merge that it asks for
/// would be: a set for its value, a merge for one of its members. Nothing else brings data.
pub proof fn law_values_of_operations_are_examined(op: TransactionOp)
    ensures
        kind_of(op.op@) is Put && op.value is Some ==> op_priority(op) == value::priority_error(
            op.value->0@,
            op.path@,
        ),
        kind_of(op.op@) is Merge && op.value is Some ==> (op.value->0@ matches Json::Object(members)
            ==> (op_priority(op) is None <==> forall|i: int|
            0 <= i < members.len() ==> value::priority_error(
                (#[trigger] members[i]).1,
                path::child_path(op.path@, members[i].0),
            ) is None)),
        !is_write(op) || kind_of(op.op@) is Drop ==> op_priority(op) is None,
{
    if let Some(Json::Object(members)) = op_data(op) {
        value::lemma_member_complaints(members, members.len() as int, op.path@);
    }
}

/// An operation without placeholders writes what it brings, whatever the time and the data.
pub proof fn law_plain_operations_write_what_they_bring(
    op: TransactionOp,
    t: Shape,
    now: i64,
    sums: Seq<Sum>,
)
    requires
        !op_has_placeholder(op),
        is_write(op),
    ensures
        op_write(op, t, now, sums) matches Ok(Some(e)) && e.path == path::segments(op.path@)
            && e.value == if kind_of(op.op@) is Drop {
            None
        } else {
            op_data(op)
        },
{
    match (kind_of(op.op@), op_data(op)) {
        (OpKind::Put, Some(v)) => {
            server_value::law_plain_values_unchanged(v, op.path@, t, now, sums);
        },
        (OpKind::Merge, Some(Json::Object(members))) => {
            server_value::lemma_members_unchanged(
                members,
                members.len() as int,
                op.path@,
                t,
                now,
                sums,
            );
            assert(members.take(members.len() as int) =~= members);
        },
        _ => {},
    }
}

/// Once the conditions hold, a complaint about a value ends the transaction without being
/// remembered. Else the transaction is charged for, unless the database is ephemeral.
pub proof fn law_what_follows_the_conditions(db: Database, ops: Seq<TransactionOp>)
    ensures
        (forall|i: int| 0 <= i < ops.len() ==> op_priority(#[trigger] ops[i]) is None) ==> {
            &&& db.ephemeral ==> after_conditions(db, ops) is Resolve
            &&& !db.ephemeral ==> after_conditions(db, ops) is Charge
        },
        (exists|i: int| 0 <= i < ops.len() && op_priority(#[trigger] ops[i]) is Some) ==> (
        after_conditions(db, ops) matches Stage::Answer(Outcome::Refuse(code, why, remembered))
            && code == ErrorCode::InvalidData && !remembered && exists|i: int|
            0 <= i < ops.len() && op_priority(#[trigger] ops[i]) == Some(why)),
{
    law_complaints_about_values(ops, ops.len() as int);
}

/// The log counts as failed exactly if it had failed before or refused an entry.
pub proof fn law_failures_are_noted(wal: WalState, outcomes: Seq<AppendOutcome>, n: int)
    requires
        0 <= n <= outcomes.len(),
    ensures
        wal_after_all(wal, outcomes, n).failed <==> wal.failed || exists|i: int|
            0 <= i < n && (#[trigger] outcomes[i]) is Failed,
        wal_after_all(wal, outcomes, n).writer == wal.writer,
    decreases n,
{
    if n > 0 {
        law_failures_are_noted(wal, outcomes, n - 1);
        assert(outcomes[n - 1] == outcomes[n - 1]);
        if exists|i: int| 0 <= i < n && (#[trigger] outcomes[i]) is Failed {
            let i = choose|i: int| 0 <= i < n && (#[trigger] outcomes[i]) is Failed;
            if i < n - 1 {
                assert(0 <= i < n - 1);
            }
        }
    }
}

} // verus!
