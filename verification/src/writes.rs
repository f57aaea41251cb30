//! Setting, merging and removing: the checks that a write goes through, the questions
//! that others have to answer on the way, and carrying it out.
use crate::change;
use crate::change::{landing_of, mutation_event, Change, Landing, MutationEvent};
use crate::database;
use crate::database::{Database, Outcome};
use crate::hash;
use crate::hash::compute_value_hash;
use crate::ledger;
use crate::lifecycle::SyncOutcome;
use crate::path;
use crate::path::{child_path_text, path_depth, validate_path, Path};
use crate::plain;
use crate::plain::node_value;
use crate::protocol;
use crate::protocol::{Answer, ClientMessage, ErrorCode, ServerMessage};
use crate::replay;
use crate::replay::{Entry, WalOp};
use crate::server_value;
use crate::server_value::{process_server_values, Complaint, Sum, Trouble};
use crate::settings::Settings;
use crate::shape;
use crate::store::AppendOutcome;
use crate::text;
use crate::text::{concat, same_text};
use crate::value;
use crate::value::{
    estimate_value_bytes, json_value_depth, validate_value_keys, validate_value_priority, Json,
    JsonValue, Member,
};
use vstd::prelude::*;

verus! {

/// What a write asks for next.
pub enum WriteStep {
    /// Nothing: this is the answer, if any.
    Reply(Option<ServerMessage>),
    /// A sum, to be put on the list of sums; then the same step again.
    NeedsSum { current: Option<serde_json::Number>, delta: serde_json::Number },
    /// Whether the client may set the path to this value.
    Authorize(JsonValue),
    /// Whether the client may merge these members at the path.
    AuthorizeMerge(Vec<Member>),
    /// Whether the client may set the path of one member alone.
    AuthorizeChild(usize),
    /// Whether the client may remove the path.
    AuthorizeRemove,
    /// The path to be loaded, so that its hash can be compared.
    LoadForHash,
    /// The value to be passed on to subscribers without being kept.
    Buffer,
    /// The size of the request to be charged to the write budget.
    Charge,
    /// The entry of the write to be handed to the log.
    Append,
    /// Nothing more: the write can be carried out without the log.
    Commit,
}

/// What a write that was carried out leads to.
pub struct Written {
    pub reply: Option<ServerMessage>,
    /// What subscribers are told; nothing where the write was not carried out.
    pub event: Option<MutationEvent>,
    /// Whether compaction is to be asked for.
    pub compact: bool,
}

/// The refusal of a malformed path or key.
pub open spec fn invalid_key() -> Outcome {
    Outcome::Refuse(ErrorCode::InvalidData, "invalid path or key"@, true)
}

/// The refusal of data that would lie too deep.
pub open spec fn too_deep() -> Outcome {
    Outcome::Refuse(ErrorCode::InvalidData, "write exceeds maximum path depth"@, true)
}

/// Whether a path follows the key rules and the depth limit.
pub open spec fn path_fits(db: Database, p: Seq<char>) -> bool {
    path::valid_path(p, db.limits.max_path_depth as nat)
}

/// Whether a value would lie too deep under a path.
pub open spec fn sinks(db: Database, p: Seq<char>, v: Json) -> bool {
    path::segments(p).len() + value::held(value::depth(v)) > db.limits.max_path_depth
}

/// The refusal while the log cannot be written to.
pub open spec fn out_of_order() -> Outcome {
    Outcome::Refuse(ErrorCode::Unavailable, "Storage unavailable (WAL I/O failure)"@, true)
}

/// The checks that every write starts with once its form is right.
pub open spec fn write_gate(
    db: Database,
    client: Seq<char>,
    msg: ClientMessage,
    durable: bool,
) -> Option<Outcome> {
    if db.tainted(client, msg.pending_writes) {
        Some(Outcome::Silent)
    } else if db.processed(client, msg.request()) {
        Some(Outcome::Ack)
    } else if durable && db.wal.failed {
        Some(out_of_order())
    } else {
        None
    }
}

/// The refusal of growth.
pub open spec fn at_limit() -> Outcome {
    Outcome::Refuse(ErrorCode::DatabaseFull, "database is at its size limit"@, true)
}

/// The refusal by the security rules.
pub open spec fn denied() -> Outcome {
    Outcome::Refuse(ErrorCode::PermissionDenied, "Permission denied"@, true)
}

/// The refusal by the write budget.
pub open spec fn over_budget() -> Outcome {
    Outcome::Refuse(
        ErrorCode::RateLimited,
        "write rate limit exceeded; retry shortly"@,
        true,
    )
}

/// What a set writes; without a value, null.
pub open spec fn written_value(msg: ClientMessage) -> Json {
    match msg.data() {
        Some(v) => v,
        None => Json::Null,
    }
}

/// What keeps a set from being looked at closer.
pub open spec fn set_gate(
    db: Database,
    client: Seq<char>,
    msg: ClientMessage,
    volatile: bool,
) -> Option<Outcome> {
    if !path_fits(db, msg.target()) || (msg.data() is Some && !value::keys_valid(msg.data()->0)) {
        Some(invalid_key())
    } else if msg.data() is Some && sinks(db, msg.target(), msg.data()->0) {
        Some(too_deep())
    } else {
        match write_gate(db, client, msg, !volatile) {
            Some(o) => Some(o),
            None => if db.full() {
                Some(at_limit())
            } else {
                match value::priority_error(written_value(msg), msg.target()) {
                    Some(e) => Some(
                        if volatile {
                            Outcome::Silent
                        } else {
                            Outcome::Refuse(ErrorCode::InvalidData, e, true)
                        },
                    ),
                    None => None,
                }
            },
        }
    }
}

/// What a complaint about a server value comes to.
pub open spec fn sv_outcome(t: Trouble, quiet: bool, remembered: bool) -> Outcome {
    if quiet {
        Outcome::Silent
    } else {
        Outcome::Refuse(
            ErrorCode::InvalidData,
            database::trouble_text(t),
            remembered,
        )
    }
}

/// The hash that a set was made conditional on.
pub open spec fn wanted_hash(msg: ClientMessage) -> Seq<char> {
    text::text_or_empty(msg.hash)
}

/// Whether a set is conditional.
pub open spec fn is_conditional(msg: ClientMessage) -> bool {
    wanted_hash(msg).len() > 0 || msg.hash_provided == Some(true)
}

/// Where an authorized set goes.
pub open spec fn set_route(db: Database, msg: ClientMessage, v: Json) -> WriteStep {
    if db.volatile_path(msg.target()) {
        if value::held(value::weight(v)) > db.limits.max_volatile_write_size {
            WriteStep::Reply(None)
        } else {
            WriteStep::Buffer
        }
    } else if db.ephemeral {
        WriteStep::Append
    } else {
        WriteStep::Charge
    }
}

/// What stands in the way of a conditional set, given what stands at the path and, for
/// a hash of the other protocol, that hash of it.
pub open spec fn hash_refusal(
    db: Database,
    msg: ClientMessage,
    other_hash: Option<Seq<char>>,
) -> Option<Outcome> {
    let current = shape::at(db.store.tree@, path::segments(msg.target()));
    if wanted_hash(msg).len() > 0 {
        let current_hash = match other_hash {
            Some(h) => h,
            None => hash::data_hash(plain::seen_opt(current)),
        };
        if current_hash != wanted_hash(msg) {
            Some(
                Outcome::Refuse(
                    ErrorCode::ConditionFailed,
                    "data changed since read (hash mismatch)"@,
                    false,
                ),
            )
        } else {
            None
        }
    } else if msg.hash_provided == Some(true) && !(plain::seen_opt(current) is Null) {
        Some(
            Outcome::Refuse(
                ErrorCode::ConditionFailed,
                "data exists (speculative write rejected)"@,
                false,
            ),
        )
    } else {
        None
    }
}

/// What the first bad one of the first `n` members of a merge comes to.
pub open spec fn bad_member(
    db: Database,
    base: Seq<char>,
    members: Seq<(Seq<char>, Json)>,
    n: int,
) -> Option<Outcome>
    decreases n,
{
    if n <= 0 || n > members.len() {
        None
    } else {
        match bad_member(db, base, members, n - 1) {
            Some(o) => Some(o),
            None => {
                let full = path::child_path(base, members[n - 1].0);
                if !path_fits(db, full) || !value::keys_valid(members[n - 1].1) {
                    Some(invalid_key())
                } else if sinks(db, full, members[n - 1].1) {
                    Some(too_deep())
                } else {
                    None
                }
            },
        }
    }
}

/// The first bad member decides.
proof fn lemma_bad_member(
    db: Database,
    base: Seq<char>,
    members: Seq<(Seq<char>, Json)>,
    n: int,
    m: int,
)
    requires
        n <= m <= members.len(),
        bad_member(db, base, members, n) is Some,
    ensures
        bad_member(db, base, members, m) == bad_member(db, base, members, n),
    decreases m,
{
    if n < m {
        lemma_bad_member(db, base, members, n, m - 1);
    }
}

/// The members that a merge writes.
pub open spec fn merged_members(msg: ClientMessage) -> Seq<(Seq<char>, Json)> {
    match msg.data() {
        Some(Json::Object(members)) => members,
        _ => Seq::empty(),
    }
}

/// What keeps a merge from being looked at closer.
pub open spec fn update_gate(
    db: Database,
    client: Seq<char>,
    msg: ClientMessage,
    volatile: bool,
) -> Option<Outcome> {
    let members = merged_members(msg);
    if !path_fits(db, msg.target()) {
        Some(invalid_key())
    } else {
        match bad_member(db, msg.target(), members, members.len() as int) {
            Some(o) => Some(o),
            None => match write_gate(db, client, msg, !volatile) {
                Some(o) => Some(o),
                None => if volatile && msg.data() is Some && value::held(
                    value::weight(msg.data()->0),
                ) > db.limits.max_volatile_write_size {
                    Some(Outcome::Silent)
                } else if db.full() {
                    Some(at_limit())
                } else if !(msg.data() is Some && msg.data()->0 is Object) {
                    Some(
                        Outcome::Refuse(
                            ErrorCode::InvalidData,
                            "update requires an object value"@,
                            true,
                        ),
                    )
                } else {
                    match value::members_priority_error(
                        members,
                        members.len() as int,
                        msg.target(),
                    ) {
                        Some(e) => Some(Outcome::Refuse(ErrorCode::InvalidData, e, true)),
                        None => None,
                    }
                },
            },
        }
    }
}

/// What keeps a removal from being looked at closer.
pub open spec fn remove_gate(
    db: Database,
    client: Seq<char>,
    msg: ClientMessage,
    volatile: bool,
) -> Option<Outcome> {
    if !path_fits(db, msg.target()) {
        Some(invalid_key())
    } else {
        write_gate(db, client, msg, !volatile)
    }
}

/// Whether a step is an answer that an outcome calls for.
pub open spec fn replies(
    step: WriteStep,
    before: Database,
    after: Database,
    client: Seq<char>,
    request: Seq<char>,
    outcome: Outcome,
) -> bool {
    step matches WriteStep::Reply(reply) && after.answered(
        &before,
        client,
        request,
        outcome,
        reply,
    )
}

/// Whether a write was carried out: the data and the log hold it, and a request that
/// has to be remembered is.
pub open spec fn carried_out(
    before: Database,
    after: Database,
    client: Seq<char>,
    request: Seq<char>,
    e: Entry,
    outcome: AppendOutcome,
    sync: Option<SyncOutcome>,
    remembered: bool,
) -> bool {
    &&& after == (Database {
        store: after.store,
        wal: after.wal,
        ledger: after.ledger,
        ..before
    })
    &&& after.written(before).wrote_synced(&before, e, outcome, sync)
    &&& after.ledger.nacked == before.ledger.nacked
    &&& if remembered {
        database::noted(
            before.ledger.processed,
            after.ledger.processed,
            before.connection(client),
            request,
        )
    } else {
        after.ledger == before.ledger
    }
}

/// Whether a write and its answer are what became of its log entry calls for. A write that
/// the log did not take is not carried out. One that the log took stays in the data, which
/// is true to the log, but is acknowledged only where it is as safe as the settings ask
/// for. What is not acknowledged is turned down, and not remembered as done.
pub open spec fn settled(
    before: Database,
    after: Database,
    client: Seq<char>,
    request: Seq<char>,
    e: Entry,
    outcome: AppendOutcome,
    sync: Option<SyncOutcome>,
    settings: Settings,
    remembered: bool,
    ack: Option<Answer>,
    reply: Option<ServerMessage>,
) -> bool {
    match change::landing(seq![outcome], sync, settings) {
        Landing::Lost => after.answered(
            &(Database {
                wal: change::wal_synced(change::wal_after(before.wal, outcome), sync),
                ..before
            }),
            client,
            request,
            out_of_order(),
            reply,
        ),
        Landing::Unsure => {
            &&& after.written(before).wrote_synced(&before, e, outcome, sync)
            &&& after.answered(&after.written(before), client, request, out_of_order(), reply)
        },
        Landing::Safe => {
            &&& carried_out(before, after, client, request, e, outcome, sync, remembered)
            &&& protocol::said(reply) == ack
        },
    }
}

/// Whether an event tells of a write by a client.
pub open spec fn told(
    event: Option<MutationEvent>,
    lost: bool,
    volatile: bool,
    client: Seq<char>,
) -> bool {
    &&& (event is None) == lost
    &&& event matches Some(e) ==> e.volatile == volatile && e.writer is Some && e.writer->0@
        == client
}

/// The acknowledgement of a request that has an id.
pub open spec fn ack_if_named(request: Seq<char>, wanted: bool) -> Option<Answer> {
    if wanted && request.len() > 0 {
        Some(Answer::Ack(request))
    } else {
        None
    }
}

/// Whether a value lies too deep under a path.
pub(crate) fn lies_too_deep(p: &str, v: &JsonValue, max_depth: usize) -> (r: bool)
    ensures
        r == (path::segments(p@).len() + value::held(value::depth(v@)) > max_depth),
{
    let above = path_depth(p);
    let below = json_value_depth(v);
    above > max_depth || below > max_depth - above
}

impl Database {
    /// The checks that every write starts with once its form is right.
    pub(crate) fn check_write(&mut self, client_id: &str, msg: &ClientMessage, durable: bool) -> (r:
        Option<Option<ServerMessage>>)
        requires
            old(self).clients.inv(),
        ensures
            match r {
                Some(reply) => write_gate(*old(self), client_id@, *msg, durable) is Some
                    && final(self).answered(
                    old(self),
                    client_id@,
                    msg.request(),
                    write_gate(*old(self), client_id@, *msg, durable)->0,
                    reply,
                ),
                None => write_gate(*old(self), client_id@, *msg, durable) is None && *final(self)
                    == *old(self),
            },
    {
        let request_id = msg.request_text();
        if self.is_write_tainted(client_id, &msg.pending_writes) {
            return Some(None);
        }
        if self.is_write_processed(client_id, request_id) {
            return Some(Some(ServerMessage::ack(request_id)));
        }
        if durable && self.is_wal_failed() {
            return Some(self.refuse_unlogged(client_id, request_id));
        }
        None
    }

    /// Turns a write down because the log cannot be written to.
    pub(crate) fn refuse_unlogged(&mut self, client_id: &str, request_id: &str) -> (r: Option<
        ServerMessage,
    >)
        requires
            old(self).clients.inv(),
        ensures
            final(self).answered(old(self), client_id@, request_id@, out_of_order(), r),
    {
        self.refuse(
            client_id,
            request_id,
            ErrorCode::Unavailable,
            "Storage unavailable (WAL I/O failure)",
        )
    }

    /// Starts a set: checks it and fills in its server values.
    pub fn begin_set(
        &mut self,
        client_id: &str,
        msg: &ClientMessage,
        volatile: bool,
        now: i64,
        sums: &Vec<Sum>,
    ) -> (r: WriteStep)
        requires
            old(self).inv(),
        ensures
            final(self).inv(),
            ({
                let filled = server_value::resolved(
                    written_value(*msg),
                    msg.target(),
                    old(self).store.tree@,
                    now,
                    sums@,
                );
                match set_gate(*old(self), client_id@, *msg, volatile) {
                    Some(o) => replies(
                        r,
                        *old(self),
                        *final(self),
                        client_id@,
                        msg.request(),
                        o,
                    ),
                    None => match filled {
                        Ok(v) => r matches WriteStep::Authorize(x) && x@ == v && *final(self)
                            == *old(self),
                        Err(Trouble::NeedsSum(c, d)) => r == (WriteStep::NeedsSum {
                            current: c,
                            delta: d,
                        }) && *final(self) == *old(self),
                        Err(t) => replies(
                            r,
                            *old(self),
                            *final(self),
                            client_id@,
                            msg.request(),
                            sv_outcome(t, volatile, true),
                        ),
                    },
                }
            }),
    {
        let request_id = msg.request_text();
        let path_str = msg.target_text();
        let max_depth = self.limits.max_path_depth;
        let path_check = validate_path(path_str, max_depth);
        let keys_ok = match &msg.value {
            Some(v) => validate_value_keys(v).is_ok(),
            None => true,
        };
        if path_check.is_err() || !keys_ok {
            return WriteStep::Reply(self.nack_invalid_key(client_id, request_id));
        }
        let deep = match &msg.value {
            Some(v) => lies_too_deep(path_str, v, max_depth),
            None => false,
        };
        if deep {
            return WriteStep::Reply(self.nack_too_deep(client_id, request_id));
        }
        match self.check_write(client_id, msg, !volatile) {
            Some(reply) => {
                return WriteStep::Reply(reply);
            },
            None => {},
        }
        if self.is_at_size_cap() {
            return WriteStep::Reply(
                self.refuse(
                    client_id,
                    request_id,
                    ErrorCode::DatabaseFull,
                    "database is at its size limit",
                ),
            );
        }
        let null = JsonValue::Null;
        let written = match &msg.value {
            Some(v) => v,
            None => &null,
        };
        match validate_value_priority(written, path_str) {
            Ok(_) => {},
            Err(e) => {
                if volatile {
                    return WriteStep::Reply(None);
                }
                return WriteStep::Reply(
                    self.refuse(client_id, request_id, ErrorCode::InvalidData, e.as_str()),
                );
            },
        }
        match process_server_values(written, path_str, &self.store.tree, now, sums) {
            Ok((v, _)) => WriteStep::Authorize(v),
            Err(Complaint::NeedsSum { current, delta }) => WriteStep::NeedsSum { current, delta },
            Err(e) => {
                if volatile {
                    return WriteStep::Reply(None);
                }
                WriteStep::Reply(self.refuse_server_value(client_id, request_id, e, true))
            },
        }
    }

    /// Where an authorized set goes.
    fn route_set(&self, msg: &ClientMessage, v: &JsonValue) -> (r: WriteStep)
        ensures
            r == set_route(*self, *msg, v@),
    {
        if self.is_volatile_path(msg.target_text()) {
            if estimate_value_bytes(v) > self.limits.max_volatile_write_size {
                WriteStep::Reply(None)
            } else {
                WriteStep::Buffer
            }
        } else if self.ephemeral {
            WriteStep::Append
        } else {
            WriteStep::Charge
        }
    }

    /// Goes on with a set once the security rules have spoken.
    pub fn set_authorized(
        &mut self,
        client_id: &str,
        msg: &ClientMessage,
        volatile: bool,
        value: &JsonValue,
        allowed: bool,
    ) -> (r: WriteStep)
        requires
            old(self).inv(),
        ensures
            final(self).inv(),
            if !allowed {
                replies(
                    r,
                    *old(self),
                    *final(self),
                    client_id@,
                    msg.request(),
                    if volatile {
                        Outcome::Silent
                    } else {
                        denied()
                    },
                )
            } else {
                &&& *final(self) == *old(self)
                &&& r == if is_conditional(*msg) {
                    WriteStep::LoadForHash
                } else {
                    set_route(*old(self), *msg, value@)
                }
            },
    {
        if !allowed {
            if volatile {
                return WriteStep::Reply(None);
            }
            return WriteStep::Reply(
                self.refuse(
                    client_id,
                    msg.request_text(),
                    ErrorCode::PermissionDenied,
                    "Permission denied",
                ),
            );
        }
        let has_hash = match &msg.hash {
            Some(h) => !h.as_str().is_empty(),
            None => false,
        };
        let provided = match msg.hash_provided {
            Some(b) => b,
            None => false,
        };
        if has_hash || provided {
            return WriteStep::LoadForHash;
        }
        self.route_set(msg, value)
    }

    /// Goes on with a conditional set once its path is loaded, or could not be.
    /// `other_hash` is the hash of the data under the other protocol, where the
    /// condition is in that form.
    pub fn set_loaded(
        &mut self,
        client_id: &str,
        msg: &ClientMessage,
        value: &JsonValue,
        failure: Option<&str>,
        other_hash: Option<&str>,
    ) -> (r: WriteStep)
        requires
            old(self).inv(),
        ensures
            final(self).inv(),
            match failure {
                Some(e) => replies(
                    r,
                    *old(self),
                    *final(self),
                    client_id@,
                    msg.request(),
                    Outcome::Refuse(
                        ErrorCode::Unavailable,
                        "Failed to load data for hash verification: "@ + e@,
                        true,
                    ),
                ),
                None => match hash_refusal(
                    *old(self),
                    *msg,
                    match other_hash {
                        Some(h) => Some(h@),
                        None => None,
                    },
                ) {
                    Some(o) => replies(
                        r,
                        *old(self),
                        *final(self),
                        client_id@,
                        msg.request(),
                        o,
                    ),
                    None => *final(self) == *old(self) && r == set_route(
                        *old(self),
                        *msg,
                        value@,
                    ),
                },
            },
    {
        let request_id = msg.request_text();
        match failure {
            Some(e) => {
                let text = concat("Failed to load data for hash verification: ", e);
                return WriteStep::Reply(
                    self.refuse(client_id, request_id, ErrorCode::Unavailable, text.as_str()),
                );
            },
            None => {},
        }
        let p = Path::parse(msg.target_text());
        let current: JsonValue = match self.store.tree.get(&p) {
            Some(n) => node_value(n),
            None => JsonValue::Null,
        };
        assert(plain::plain(current@) == plain::seen_opt(
            shape::at(self.store.tree@, path::segments(msg.target())),
        ));
        let hash = match &msg.hash {
            Some(h) => h.as_str(),
            None => {
                proof {
                    reveal_strlit("");
                    assert(""@ =~= Seq::<char>::empty());
                }
                ""
            },
        };
        if !hash.is_empty() {
            let current_hash: String = match other_hash {
                Some(h) => h.to_owned(),
                None => compute_value_hash(&current),
            };
            if !same_text(current_hash.as_str(), hash) {
                return WriteStep::Reply(
                    Some(
                        ServerMessage::nack(
                            request_id,
                            ErrorCode::ConditionFailed,
                            "data changed since read (hash mismatch)",
                        ),
                    ),
                );
            }
        } else {
            let provided = match msg.hash_provided {
                Some(b) => b,
                None => false,
            };
            let null = match &current {
                JsonValue::Null => true,
                _ => false,
            };
            if provided && !null {
                return WriteStep::Reply(
                    Some(
                        ServerMessage::nack(
                            request_id,
                            ErrorCode::ConditionFailed,
                            "data exists (speculative write rejected)",
                        ),
                    ),
                );
            }
        }
        self.route_set(msg, value)
    }

    /// Goes on with a write once the write budget has been asked.
    pub fn write_charged(&mut self, client_id: &str, msg: &ClientMessage, allowed: bool) -> (r:
        WriteStep)
        requires
            old(self).inv(),
        ensures
            final(self).inv(),
            if allowed {
                r == WriteStep::Append && *final(self) == *old(self)
            } else {
                replies(
                    r,
                    *old(self),
                    *final(self),
                    client_id@,
                    msg.request(),
                    over_budget(),
                )
            },
    {
        if allowed {
            return WriteStep::Append;
        }
        WriteStep::Reply(
            self.refuse(
                client_id,
                msg.request_text(),
                ErrorCode::RateLimited,
                "write rate limit exceeded; retry shortly",
            ),
        )
    }

    /// Carries a write out as far as what became of its log entry allows, and remembers
    /// the request.
    pub(crate) fn settle(
        &mut self,
        client_id: &str,
        request_id: &str,
        c: &Change,
        outcome: AppendOutcome,
        sync: Option<SyncOutcome>,
        settings: &Settings,
        remembered: bool,
        acked: bool,
    ) -> (r: (Option<ServerMessage>, bool, bool))
        requires
            old(self).inv(),
        ensures
            final(self).inv(),
            settled(
                *old(self),
                *final(self),
                client_id@,
                request_id@,
                c@,
                outcome,
                sync,
                *settings,
                remembered,
                ack_if_named(request_id@, acked),
                r.0,
            ),
            r.1 == (change::landing(seq![outcome], sync, *settings) is Lost),
            r.2 == (sync == Some(SyncOutcome::Synced { rotated: true })),
    {
        let mut outcomes: Vec<AppendOutcome> = Vec::new();
        outcomes.push(outcome);
        assert(outcomes@ =~= seq![outcome]);
        match landing_of(&outcomes, sync, settings) {
            Landing::Lost => {
                assert(outcomes@[0] == outcome);
                self.note_append(outcome);
                let compact = self.note_sync(sync);
                (self.refuse_unlogged(client_id, request_id), true, compact)
            },
            Landing::Unsure => {
                self.commit(c, outcome);
                let compact = self.note_sync(sync);
                (self.refuse_unlogged(client_id, request_id), false, compact)
            },
            Landing::Safe => {
                self.commit(c, outcome);
                let compact = self.note_sync(sync);
                if remembered {
                    self.record_processed_write(client_id, request_id);
                }
                let reply = if acked && !request_id.is_empty() {
                    Some(ServerMessage::ack(request_id))
                } else {
                    None
                };
                (reply, false, compact)
            },
        }
    }

    /// Carries out a set whose log entry has been handed to the log.
    pub fn commit_set(
        &mut self,
        client_id: &str,
        msg: &ClientMessage,
        value: JsonValue,
        outcome: AppendOutcome,
        sync: Option<SyncOutcome>,
        settings: &Settings,
    ) -> (r: Written)
        requires
            old(self).inv(),
        ensures
            final(self).inv(),
            settled(
                *old(self),
                *final(self),
                client_id@,
                msg.request(),
                Entry {
                    op: WalOp::Assign,
                    path: path::segments(msg.target()),
                    value: Some(value@),
                },
                outcome,
                sync,
                *settings,
                true,
                ack_if_named(msg.request(), !msg.says_volatile()),
                r.reply,
            ),
            told(
                r.event,
                change::landing(seq![outcome], sync, *settings) is Lost,
                false,
                client_id@,
            ),
            r.event matches Some(e) ==> exists|c: Change| #[trigger]
                change::event_tells(e, c) && c is Put && c.place() == msg.target() && c@.value
                    == Some(value@),
            r.compact == (sync == Some(SyncOutcome::Synced { rotated: true })),
    {
        let c = Change::Put { path: msg.target_text().to_owned(), value };
        let (reply, lost, compact) = self.settle(
            client_id,
            msg.request_text(),
            &c,
            outcome,
            sync,
            settings,
            true,
            !msg.is_volatile(),
        );
        let event = if lost {
            None
        } else {
            Some(mutation_event(&c, false, Some(client_id)))
        };
        Written { reply, event, compact }
    }

    /// Starts a merge: checks it and fills in its server values.
    pub fn begin_update(
        &mut self,
        client_id: &str,
        msg: &ClientMessage,
        volatile: bool,
        now: i64,
        sums: &Vec<Sum>,
    ) -> (r: WriteStep)
        requires
            old(self).inv(),
        ensures
            final(self).inv(),
            ({
                let members = merged_members(*msg);
                let filled = server_value::resolved_members(
                    members,
                    members.len() as int,
                    msg.target(),
                    old(self).store.tree@,
                    now,
                    sums@,
                );
                match update_gate(*old(self), client_id@, *msg, volatile) {
                    Some(o) => replies(
                        r,
                        *old(self),
                        *final(self),
                        client_id@,
                        msg.request(),
                        o,
                    ),
                    None => match filled {
                        Ok(ms) => r matches WriteStep::AuthorizeMerge(x) && value::members_json(x@)
                            == ms && *final(self) == *old(self),
                        Err(Trouble::NeedsSum(c, d)) => r == (WriteStep::NeedsSum {
                            current: c,
                            delta: d,
                        }) && *final(self) == *old(self),
                        Err(t) => replies(
                            r,
                            *old(self),
                            *final(self),
                            client_id@,
                            msg.request(),
                            sv_outcome(t, false, true),
                        ),
                    },
                }
            }),
    {
        let request_id = msg.request_text();
        let path_str = msg.target_text();
        let max_depth = self.limits.max_path_depth;
        let path_check = validate_path(path_str, max_depth);
        if path_check.is_err() {
            return WriteStep::Reply(self.nack_invalid_key(client_id, request_id));
        }
        match &msg.value {
            Some(JsonValue::Object(members)) => {
                match self.bad_merge_member(path_str, members) {
                    Some(true) => {
                        return WriteStep::Reply(self.nack_too_deep(client_id, request_id));
                    },
                    Some(false) => {
                        return WriteStep::Reply(self.nack_invalid_key(client_id, request_id));
                    },
                    None => {},
                }
            },
            _ => {},
        }
        match self.check_write(client_id, msg, !volatile) {
            Some(reply) => {
                return WriteStep::Reply(reply);
            },
            None => {},
        }
        if volatile {
            let heavy = match &msg.value {
                Some(v) => estimate_value_bytes(v) > self.limits.max_volatile_write_size,
                None => false,
            };
            if heavy {
                return WriteStep::Reply(None);
            }
        }
        if self.is_at_size_cap() {
            return WriteStep::Reply(
                self.refuse(
                    client_id,
                    request_id,
                    ErrorCode::DatabaseFull,
                    "database is at its size limit",
                ),
            );
        }
        let members = match &msg.value {
            Some(JsonValue::Object(members)) => members,
            _ => {
                return WriteStep::Reply(
                    self.refuse(
                        client_id,
                        request_id,
                        ErrorCode::InvalidData,
                        "update requires an object value",
                    ),
                );
            },
        };
        match members_priority(members, path_str) {
            Ok(_) => {},
            Err(e) => {
                return WriteStep::Reply(
                    self.refuse(client_id, request_id, ErrorCode::InvalidData, e.as_str()),
                );
            },
        }
        match fill_members(members, path_str, &self.store.tree, now, sums) {
            Ok(ms) => WriteStep::AuthorizeMerge(ms),
            Err(Complaint::NeedsSum { current, delta }) => WriteStep::NeedsSum { current, delta },
            Err(e) => WriteStep::Reply(self.refuse_server_value(client_id, request_id, e, true)),
        }
    }

    /// What is wrong with the first bad member of a merge: that it lies too deep, or
    /// else a path or key.
    pub(crate) fn bad_merge_member(&self, base: &str, members: &Vec<Member>) -> (r: Option<bool>)
        ensures
            ({
                let ms = value::members_json(members@);
                bad_member(*self, base@, ms, ms.len() as int) == match r {
                    Some(deep) => Some(
                        if deep {
                            too_deep()
                        } else {
                            invalid_key()
                        },
                    ),
                    None => None,
                }
            }),
    {
        let ghost ms = value::members_json(members@);
        let max_depth = self.limits.max_path_depth;
        let mut i: usize = 0;
        while i < members.len()
            invariant
                i <= members@.len(),
                ms == value::members_json(members@),
                max_depth == self.limits.max_path_depth,
                bad_member(*self, base@, ms, i as int) is None,
            decreases members@.len() - i,
        {
            let m = &members[i];
            assert(ms[i as int] == (m.key@, m.value@));
            let full = child_path_text(base, m.key.as_str());
            let path_check = validate_path(full.as_str(), max_depth);
            let key_check = validate_value_keys(&m.value);
            if path_check.is_err() || key_check.is_err() {
                proof {
                    lemma_bad_member(*self, base@, ms, i + 1, ms.len() as int);
                }
                return Some(false);
            }
            if lies_too_deep(full.as_str(), &m.value, max_depth) {
                proof {
                    lemma_bad_member(*self, base@, ms, i + 1, ms.len() as int);
                }
                return Some(true);
            }
            i = i + 1;
        }
        None
    }

    /// Where an authorized merge or removal goes.
    fn route_plain(&self, volatile: bool, charged: bool) -> (r: WriteStep)
        ensures
            r == plain_route(*self, volatile, charged),
    {
        if volatile {
            WriteStep::Commit
        } else if charged && !self.ephemeral {
            WriteStep::Charge
        } else {
            WriteStep::Append
        }
    }

    /// Goes on with a merge once the security rules have spoken about the whole of it.
    /// Where they refuse, every member is looked at alone.
    pub fn update_authorized(&self, volatile: bool, members: &Vec<Member>, allowed: bool) -> (r:
        WriteStep)
        ensures
            r == if allowed || members@.len() == 0 {
                plain_route(*self, volatile, true)
            } else {
                WriteStep::AuthorizeChild(0)
            },
    {
        if allowed || members.len() == 0 {
            self.route_plain(volatile, true)
        } else {
            WriteStep::AuthorizeChild(0)
        }
    }

    /// Goes on with a merge once the security rules have spoken about one member.
    pub fn update_child_authorized(
        &mut self,
        client_id: &str,
        msg: &ClientMessage,
        volatile: bool,
        members: &Vec<Member>,
        index: usize,
        allowed: bool,
    ) -> (r: WriteStep)
        requires
            old(self).inv(),
            index < members@.len(),
        ensures
            final(self).inv(),
            if !allowed {
                replies(r, *old(self), *final(self), client_id@, msg.request(), denied())
            } else {
                &&& *final(self) == *old(self)
                &&& r == if index + 1 < members@.len() {
                    WriteStep::AuthorizeChild((index + 1) as usize)
                } else {
                    plain_route(*old(self), volatile, true)
                }
            },
    {
        if !allowed {
            return WriteStep::Reply(
                self.refuse(
                    client_id,
                    msg.request_text(),
                    ErrorCode::PermissionDenied,
                    "Permission denied",
                ),
            );
        }
        if members.len() - index > 1 {
            WriteStep::AuthorizeChild(index + 1)
        } else {
            self.route_plain(volatile, true)
        }
    }

    /// Carries out a merge. A volatile merge is neither logged nor remembered.
    pub fn commit_update(
        &mut self,
        client_id: &str,
        msg: &ClientMessage,
        volatile: bool,
        members: Vec<Member>,
        outcome: AppendOutcome,
        sync: Option<SyncOutcome>,
        settings: &Settings,
    ) -> (r: Written)
        requires
            old(self).inv(),
        ensures
            final(self).inv(),
            settled(
                *old(self),
                *final(self),
                client_id@,
                msg.request(),
                Entry {
                    op: WalOp::Update,
                    path: path::segments(msg.target()),
                    value: Some(Json::Object(value::members_json(members@))),
                },
                logged_outcome(outcome, volatile),
                sync,
                *settings,
                !volatile,
                ack_if_named(msg.request(), !msg.says_volatile()),
                r.reply,
            ),
            told(
                r.event,
                change::landing(
                    seq![logged_outcome(outcome, volatile)],
                    sync,
                    *settings,
                ) is Lost,
                volatile,
                client_id@,
            ),
            r.event matches Some(e) ==> exists|c: Change| #[trigger]
                change::event_tells(e, c) && c is Merge && c.place() == msg.target() && c@.value
                    == Some(Json::Object(value::members_json(members@))),
            r.compact == (sync == Some(SyncOutcome::Synced { rotated: true })),
    {
        let c = Change::Merge { path: msg.target_text().to_owned(), members };
        let kept = if volatile {
            AppendOutcome::NoWriter
        } else {
            outcome
        };
        let (reply, lost, compact) = self.settle(
            client_id,
            msg.request_text(),
            &c,
            kept,
            sync,
            settings,
            !volatile,
            !msg.is_volatile(),
        );
        let event = if lost {
            None
        } else {
            Some(mutation_event(&c, volatile, Some(client_id)))
        };
        Written { reply, event, compact }
    }

    /// Starts a removal.
    pub fn begin_remove(&mut self, client_id: &str, msg: &ClientMessage, volatile: bool) -> (r:
        WriteStep)
        requires
            old(self).inv(),
        ensures
            final(self).inv(),
            match remove_gate(*old(self), client_id@, *msg, volatile) {
                Some(o) => replies(
                    r,
                    *old(self),
                    *final(self),
                    client_id@,
                    msg.request(),
                    o,
                ),
                None => r == WriteStep::AuthorizeRemove && *final(self) == *old(self),
            },
    {
        let path_check = validate_path(msg.target_text(), self.limits.max_path_depth);
        if path_check.is_err() {
            return WriteStep::Reply(self.nack_invalid_key(client_id, msg.request_text()));
        }
        match self.check_write(client_id, msg, !volatile) {
            Some(reply) => WriteStep::Reply(reply),
            None => WriteStep::AuthorizeRemove,
        }
    }

    /// Goes on with a removal once the security rules have spoken. Removals are not
    /// charged, so that a full database can be emptied.
    pub fn remove_authorized(
        &mut self,
        client_id: &str,
        msg: &ClientMessage,
        volatile: bool,
        allowed: bool,
    ) -> (r: WriteStep)
        requires
            old(self).inv(),
        ensures
            final(self).inv(),
            if allowed {
                r == plain_route(*old(self), volatile, false) && *final(self) == *old(self)
            } else {
                replies(r, *old(self), *final(self), client_id@, msg.request(), denied())
            },
    {
        if allowed {
            return self.route_plain(volatile, false);
        }
        WriteStep::Reply(
            self.refuse(
                client_id,
                msg.request_text(),
                ErrorCode::PermissionDenied,
                "Permission denied",
            ),
        )
    }

    /// Carries out a removal. A volatile removal is neither logged nor remembered.
    pub fn commit_remove(
        &mut self,
        client_id: &str,
        msg: &ClientMessage,
        volatile: bool,
        outcome: AppendOutcome,
        sync: Option<SyncOutcome>,
        settings: &Settings,
    ) -> (r: Written)
        requires
            old(self).inv(),
        ensures
            final(self).inv(),
            settled(
                *old(self),
                *final(self),
                client_id@,
                msg.request(),
                Entry {
                    op: WalOp::Delete,
                    path: path::segments(msg.target()),
                    value: None,
                },
                logged_outcome(outcome, volatile),
                sync,
                *settings,
                !volatile,
                ack_if_named(msg.request(), true),
                r.reply,
            ),
            told(
                r.event,
                change::landing(
                    seq![logged_outcome(outcome, volatile)],
                    sync,
                    *settings,
                ) is Lost,
                volatile,
                client_id@,
            ),
            r.event matches Some(e) ==> exists|c: Change| #[trigger]
                change::event_tells(e, c) && c is Drop && c.place() == msg.target(),
            r.compact == (sync == Some(SyncOutcome::Synced { rotated: true })),
    {
        let c = Change::Drop { path: msg.target_text().to_owned() };
        let kept = if volatile {
            AppendOutcome::NoWriter
        } else {
            outcome
        };
        let (reply, lost, compact) = self.settle(
            client_id,
            msg.request_text(),
            &c,
            kept,
            sync,
            settings,
            !volatile,
            true,
        );
        let event = if lost {
            None
        } else {
            Some(mutation_event(&c, volatile, Some(client_id)))
        };
        Written { reply, event, compact }
    }
}

/// What became of the log entry of a merge or removal; a volatile one has none.
pub open spec fn logged_outcome(outcome: AppendOutcome, volatile: bool) -> AppendOutcome {
    if volatile {
        AppendOutcome::NoWriter
    } else {
        outcome
    }
}

/// Where a merge or removal goes that nothing stands in the way of.
pub open spec fn plain_route(db: Database, volatile: bool, charged: bool) -> WriteStep {
    if volatile {
        WriteStep::Commit
    } else if charged && !db.ephemeral {
        WriteStep::Charge
    } else {
        WriteStep::Append
    }
}

/// The first complaint about `.value` patterns in the members of a merge.
pub(crate) fn members_priority(members: &Vec<Member>, base: &str) -> (r: Result<(), String>)
    ensures
        ({
            let ms = value::members_json(members@);
            match r {
                Ok(_) => value::members_priority_error(ms, ms.len() as int, base@) is None,
                Err(e) => value::members_priority_error(ms, ms.len() as int, base@) == Some(e@),
            }
        }),
{
    let ghost ms = value::members_json(members@);
    let mut i: usize = 0;
    while i < members.len()
        invariant
            i <= members@.len(),
            ms == value::members_json(members@),
            value::members_priority_error(ms, i as int, base@) is None,
        decreases members@.len() - i,
    {
        let m = &members[i];
        assert(ms[i as int] == (m.key@, m.value@));
        let full = child_path_text(base, m.key.as_str());
        match validate_value_priority(&m.value, full.as_str()) {
            Ok(_) => {},
            Err(e) => {
                proof {
                    value::lemma_members_priority(ms, i + 1, ms.len() as int, base@);
                }
                return Err(e);
            },
        }
        i = i + 1;
    }
    Ok(())
}

/// The members of a merge with their server values filled in.
pub(crate) fn fill_members(
    members: &Vec<Member>,
    base: &str,
    tree: &crate::tree::Tree,
    now: i64,
    sums: &Vec<Sum>,
) -> (r: Result<Vec<Member>, Complaint>)
    ensures
        ({
            let ms = value::members_json(members@);
            let filled = server_value::resolved_members(
                ms,
                ms.len() as int,
                base@,
                tree@,
                now,
                sums@,
            );
            match r {
                Ok(out) => filled == Ok::<Seq<(Seq<char>, Json)>, Trouble>(
                    value::members_json(out@),
                ),
                Err(e) => filled == Err::<Seq<(Seq<char>, Json)>, Trouble>(e@),
            }
        }),
{
    let ghost ms = value::members_json(members@);
    let mut out: Vec<Member> = Vec::new();
    let mut i: usize = 0;
    assert(value::members_json(out@) =~= Seq::empty());
    while i < members.len()
        invariant
            i <= members@.len(),
            ms == value::members_json(members@),
            server_value::resolved_members(ms, i as int, base@, tree@, now, sums@) == Ok::<
                Seq<(Seq<char>, Json)>,
                Trouble,
            >(value::members_json(out@)),
        decreases members@.len() - i,
    {
        let m = &members[i];
        assert(ms[i as int] == (m.key@, m.value@));
        let full = child_path_text(base, m.key.as_str());
        match process_server_values(&m.value, full.as_str(), tree, now, sums) {
            Ok((v, _)) => {
                let ghost before = out@;
                out.push(Member { key: m.key.clone(), value: v });
                assert(value::members_json(out@) =~= value::members_json(before).push(
                    (m.key@, v@),
                ));
            },
            Err(e) => {
                proof {
                    server_value::lemma_members_error(
                        ms,
                        i + 1,
                        ms.len() as int,
                        base@,
                        tree@,
                        now,
                        sums@,
                    );
                }
                return Err(e);
            },
        }
        i = i + 1;
    }
    Ok(out)
}

/// Whatever a value holds that may be written can be read by its path: the place has a
/// path that keeps the key rules and the depth limit, and leads there.
pub proof fn law_written_data_can_be_addressed(
    db: Database,
    p: Seq<char>,
    v: Json,
    q: Seq<Seq<char>>,
)
    requires
        path_fits(db, p),
        value::keys_valid(v),
        !sinks(db, p, v),
        value::depth(v) <= usize::MAX,
        shape::at(value::cleaned(v), q) is Some,
    ensures
        path_fits(db, path::path_text(path::segments(p) + q)),
        path::segments(path::path_text(path::segments(p) + q)) == path::segments(p) + q,
{
    let max = db.limits.max_path_depth as nat;
    let s = path::segments(p);
    let full = s + q;
    path::lemma_valid_segments(p, max);
    value::lemma_place_in_value(v, q);
    assert forall|i: int| 0 <= i < full.len() implies path::valid_key(#[trigger] full[i]) by {
        if i < s.len() {
            assert(full[i] == s[i]);
        } else {
            assert(full[i] == q[i - s.len()]);
        }
    }
    path::lemma_valid_text(full, max);
    path::law_path_text_is_read_back(full);
}

/// A set gets past the first look exactly if its path and the keys of its value are valid,
/// nothing of it lies too deep, it neither builds on a refused write nor repeats one that was
/// carried out, the log takes writes or it needs none, the database is not full, and `.value`
/// stands alone in it.
pub proof fn law_sets_that_may_go_on(
    db: Database,
    client: Seq<char>,
    msg: ClientMessage,
    volatile: bool,
)
    ensures
        set_gate(db, client, msg, volatile) is None <==> {
            &&& path::valid_path(msg.target(), db.limits.max_path_depth as nat)
            &&& msg.value matches Some(v) ==> value::keys_valid(v@) && path::segments(
                msg.target(),
            ).len() + value::held(value::depth(v@)) <= db.limits.max_path_depth
            &&& !db.tainted(client, msg.pending_writes)
            &&& !db.processed(client, msg.request())
            &&& volatile || !db.wal.failed
            &&& !db.full()
            &&& msg.value matches Some(v) ==> value::priority_error(v@, msg.target()) is None
        },
{
}

/// An update gets past the first look exactly if it gives an object whose keys lead to valid
/// paths and whose values may be written there, and all else is as for a set.
pub proof fn law_updates_that_may_go_on(
    db: Database,
    client: Seq<char>,
    msg: ClientMessage,
    volatile: bool,
)
    ensures
        update_gate(db, client, msg, volatile) is None <==> {
            &&& path::valid_path(msg.target(), db.limits.max_path_depth as nat)
            &&& msg.value is Some
            &&& msg.value->0@ matches Json::Object(members) && (forall|i: int|
                0 <= i < members.len() ==> {
                    let full = path::child_path(msg.target(), (#[trigger] members[i]).0);
                    &&& path::valid_path(full, db.limits.max_path_depth as nat)
                    &&& value::keys_valid(members[i].1)
                    &&& path::segments(full).len() + value::held(value::depth(members[i].1))
                        <= db.limits.max_path_depth
                    &&& value::priority_error(members[i].1, full) is None
                })
            &&& !db.tainted(client, msg.pending_writes)
            &&& !db.processed(client, msg.request())
            &&& volatile || !db.wal.failed
            &&& volatile ==> value::held(value::weight(msg.value->0@))
                <= db.limits.max_volatile_write_size
            &&& !db.full()
        },
{
    let members = merged_members(msg);
    lemma_bad_members(db, msg.target(), members, members.len() as int);
    value::lemma_member_complaints(members, members.len() as int, msg.target());
    if msg.value is Some && msg.value->0@ is Object {
        assert(msg.value->0@->Object_0 == members);
        if update_gate(db, client, msg, volatile) is None {
            assert forall|i: int| 0 <= i < members.len() implies {
                let full = path::child_path(msg.target(), (#[trigger] members[i]).0);
                &&& path::valid_path(full, db.limits.max_path_depth as nat)
                &&& value::keys_valid(members[i].1)
                &&& path::segments(full).len() + value::held(value::depth(members[i].1))
                    <= db.limits.max_path_depth
                &&& value::priority_error(members[i].1, full) is None
            } by {}
        }
    }
}

/// A member among the first may not be merged exactly if one of them may not.
proof fn lemma_bad_members(
    db: Database,
    base: Seq<char>,
    members: Seq<(Seq<char>, Json)>,
    n: int,
)
    requires
        0 <= n <= members.len(),
    ensures
        bad_member(db, base, members, n) is None <==> forall|i: int|
            0 <= i < n ==> {
                let full = path::child_path(base, (#[trigger] members[i]).0);
                &&& path::valid_path(full, db.limits.max_path_depth as nat)
                &&& value::keys_valid(members[i].1)
                &&& path::segments(full).len() + value::held(value::depth(members[i].1))
                    <= db.limits.max_path_depth
            },
    decreases n,
{
    if n > 0 {
        lemma_bad_members(db, base, members, n - 1);
    }
}

/// A removal gets past the first look exactly if its path is valid, it neither builds on a
/// refused write nor repeats one that was carried out, and the log takes writes or it needs
/// none.
pub proof fn law_removals_that_may_go_on(
    db: Database,
    client: Seq<char>,
    msg: ClientMessage,
    volatile: bool,
)
    ensures
        remove_gate(db, client, msg, volatile) is None <==> {
            &&& path::valid_path(msg.target(), db.limits.max_path_depth as nat)
            &&& !db.tainted(client, msg.pending_writes)
            &&& !db.processed(client, msg.request())
            &&& volatile || !db.wal.failed
        },
{
}

/// A set on condition goes through exactly if the data at its path has the hash that it
/// names; or, where it only says that it expects nothing, if there is no data.
pub proof fn law_conditional_sets_compare(
    db: Database,
    msg: ClientMessage,
    other_hash: Option<Seq<char>>,
)
    ensures
        ({
            let there = plain::seen_opt(
                shape::at(db.store.tree@, path::segments(msg.target())),
            );
            let wanted = match msg.hash {
                Some(h) => h@,
                None => Seq::empty(),
            };
            let has = match other_hash {
                Some(h) => h,
                None => hash::data_hash(there),
            };
            &&& wanted.len() > 0 ==> (hash_refusal(db, msg, other_hash) is None <==> has == wanted)
            &&& wanted.len() == 0 && msg.hash_provided == Some(true) ==> (hash_refusal(
                db,
                msg,
                other_hash,
            ) is None <==> there == plain::Plain::Null)
            &&& wanted.len() == 0 && msg.hash_provided != Some(true) ==> hash_refusal(
                db,
                msg,
                other_hash,
            ) is None && !is_conditional(msg)
            &&& wanted.len() > 0 || msg.hash_provided == Some(true) ==> is_conditional(msg)
            &&& hash_refusal(db, msg, other_hash) matches Some(o) ==> (o matches Outcome::Refuse(
                code,
                _,
                remembered,
            ) && code == ErrorCode::ConditionFailed && !remembered)
        }),
{
}

/// A set of a durable path is logged, and charged for unless the database keeps nothing; one
/// of a volatile path is passed on, unless it weighs more than allowed, and is never logged.
pub proof fn law_sets_take_their_way(db: Database, msg: ClientMessage, v: Json)
    ensures
        db.volatile_path(msg.target()) ==> {
            &&& set_route(db, msg, v) is Buffer || set_route(db, msg, v) == WriteStep::Reply(None)
            &&& set_route(db, msg, v) is Buffer <==> value::held(value::weight(v))
                <= db.limits.max_volatile_write_size
        },
        !db.volatile_path(msg.target()) ==> {
            &&& db.ephemeral ==> set_route(db, msg, v) is Append
            &&& !db.ephemeral ==> set_route(db, msg, v) is Charge
        },
        !(plain_route(db, true, true) is Append),
        plain_route(db, true, true) is Commit && plain_route(db, true, false) is Commit,
        plain_route(db, false, false) is Append,
        plain_route(db, false, true) is Charge <==> !db.ephemeral,
        plain_route(db, false, true) is Append <==> db.ephemeral,
{
}

/// Each reason to refuse a write has its own code, and every such refusal is remembered, so
/// that writes that build on it are dropped.
pub proof fn law_refusals_have_their_codes(t: Trouble)
    ensures
        invalid_key() matches Outcome::Refuse(c, why, r) && c == ErrorCode::InvalidData && why
            == "invalid path or key"@ && r,
        too_deep() matches Outcome::Refuse(c, why, r) && c == ErrorCode::InvalidData && why
            == "write exceeds maximum path depth"@ && r,
        out_of_order() matches Outcome::Refuse(c, why, r) && c == ErrorCode::Unavailable && why
            == "Storage unavailable (WAL I/O failure)"@ && r,
        at_limit() matches Outcome::Refuse(c, why, r) && c == ErrorCode::DatabaseFull && why
            == "database is at its size limit"@ && r,
        denied() matches Outcome::Refuse(c, why, r) && c == ErrorCode::PermissionDenied && why
            == "Permission denied"@ && r,
        over_budget() matches Outcome::Refuse(c, why, r) && c == ErrorCode::RateLimited && why
            == "write rate limit exceeded; retry shortly"@ && r,
        sv_outcome(t, false, true) matches Outcome::Refuse(c, why, r) && c
            == ErrorCode::InvalidData && why == database::trouble_text(t) && r,
        sv_outcome(t, false, false) matches Outcome::Refuse(c, why, r) && c
            == ErrorCode::InvalidData && why == database::trouble_text(t) && !r,
        sv_outcome(t, true, true) is Silent,
        sv_outcome(t, true, false) is Silent,
{
}

/// What an acknowledged set wrote is what is read at its path.
pub proof fn law_read_after_acknowledged_set(
    before: Database,
    after: Database,
    client: Seq<char>,
    request: Seq<char>,
    p: Seq<Seq<char>>,
    v: Json,
    outcome: AppendOutcome,
    sync: Option<SyncOutcome>,
    settings: Settings,
    remembered: bool,
    ack: Option<Answer>,
    reply: Option<ServerMessage>,
)
    requires
        settled(
            before,
            after,
            client,
            request,
            Entry { op: WalOp::Assign, path: p, value: Some(v) },
            outcome,
            sync,
            settings,
            remembered,
            ack,
            reply,
        ),
        protocol::said(reply) == Some(Answer::Ack(request)),
    ensures
        v is Null ==> plain::seen_opt(shape::at(after.store.tree@, p)) == plain::Plain::Null,
        plain::tidy(v) && plain::is_whole(v) ==> plain::seen_opt(shape::at(after.store.tree@, p))
            == plain::plain(v),
        forall|q: Seq<Seq<char>>|
            !path::related(p, q) ==> #[trigger] shape::at(after.store.tree@, q) == shape::at(
                before.store.tree@,
                q,
            ),
        remembered && request.len() > 0 && before.connection(client).len() > 0
            ==> after.processed(client, request),
{
    let e = Entry { op: WalOp::Assign, path: p, value: Some(v) };
    let t = before.store.tree@;
    let lazy = before.store.blob_backed;
    replay::law_set_stands(t, e, lazy);
    if plain::tidy(v) && plain::is_whole(v) {
        plain::law_written_value_is_read_back(v);
    }
    assert forall|q: Seq<Seq<char>>| !path::related(p, q) implies #[trigger] shape::at(
        after.store.tree@,
        q,
    ) == shape::at(t, q) by {
        replay::law_write_spares_the_rest(t, e, lazy, q);
    }
    if remembered && request.len() > 0 && before.connection(client).len() > 0 {
        let c = before.connection(client);
        assert(after.connection(client) == c);
        ledger::law_noted_is_found(before.ledger.processed.kept(c), request);
        assert(after.ledger.processed.kept(c).contains(request));
    }
}

/// Whether a request is refused for a reason, and the refusal is remembered.
pub open spec fn is_refused(o: Option<Outcome>, code: ErrorCode) -> bool {
    o matches Some(Outcome::Refuse(c, _, remembered)) && c == code && remembered
}

/// What may stop any write, in this order: it builds on a refused one and goes unanswered;
/// it was done before and is acknowledged again; the log has failed. Else it goes on.
pub proof fn law_what_stops_any_write(
    db: Database,
    client: Seq<char>,
    msg: ClientMessage,
    durable: bool,
)
    ensures
        ({
            let o = write_gate(db, client, msg, durable);
            let dropped = db.tainted(client, msg.pending_writes);
            let repeated = db.processed(client, msg.request());
            &&& dropped <==> o == Some(Outcome::Silent)
            &&& !dropped && repeated <==> o == Some(Outcome::Ack)
            &&& !dropped && !repeated && durable && db.wal.failed <==> is_refused(
                o,
                ErrorCode::Unavailable,
            )
            &&& o is None <==> !dropped && !repeated && !(durable && db.wal.failed)
        }),
{
}

/// A set that may not go on is answered by the first of these that holds: its path or keys are
/// invalid or it lies too deep, what stops any write, the database is full, its value mixes
/// what must not be mixed. Of the last a volatile one is not told.
pub proof fn law_refused_sets_are_answered(
    db: Database,
    client: Seq<char>,
    msg: ClientMessage,
    volatile: bool,
)
    ensures
        ({
            let o = set_gate(db, client, msg, volatile);
            let formed = path::valid_path(msg.target(), db.limits.max_path_depth as nat) && (
            msg.value matches Some(v) ==> value::keys_valid(v@) && path::segments(
                msg.target(),
            ).len() + value::held(value::depth(v@)) <= db.limits.max_path_depth);
            let stopped = write_gate(db, client, msg, !volatile);
            &&& !formed ==> is_refused(o, ErrorCode::InvalidData)
            &&& formed && stopped is Some ==> o == stopped
            &&& formed && stopped is None && db.full() ==> is_refused(o, ErrorCode::DatabaseFull)
            &&& formed && stopped is None && !db.full() && msg.value is Some ==> (
            value::priority_error(msg.value->0@, msg.target()) matches Some(e) ==> if volatile {
                o == Some(Outcome::Silent)
            } else {
                o == Some(Outcome::Refuse(ErrorCode::InvalidData, e, true))
            })
        }),
{
}

/// An update that may not go on is answered by the first of these that holds: its path, or a
/// member's path, keys or depth is invalid; what stops any write; it is volatile and too large,
/// and goes unanswered; the database is full; it brings no object; a member's value mixes what
/// must not be mixed.
pub proof fn law_refused_updates_are_answered(
    db: Database,
    client: Seq<char>,
    msg: ClientMessage,
    volatile: bool,
)
    ensures
        ({
            let o = update_gate(db, client, msg, volatile);
            let members = merged_members(msg);
            let formed = path::valid_path(msg.target(), db.limits.max_path_depth as nat) && (
            forall|i: int|
                0 <= i < members.len() ==> {
                    let full = path::child_path(msg.target(), (#[trigger] members[i]).0);
                    &&& path::valid_path(full, db.limits.max_path_depth as nat)
                    &&& value::keys_valid(members[i].1)
                    &&& path::segments(full).len() + value::held(value::depth(members[i].1))
                        <= db.limits.max_path_depth
                });
            let stopped = write_gate(db, client, msg, !volatile);
            let heavy = volatile && msg.value is Some && value::held(value::weight(msg.value->0@))
                > db.limits.max_volatile_write_size;
            &&& !formed ==> is_refused(o, ErrorCode::InvalidData)
            &&& formed && stopped is Some ==> o == stopped
            &&& formed && stopped is None && heavy ==> o == Some(Outcome::Silent)
            &&& formed && stopped is None && !heavy && db.full() ==> is_refused(
                o,
                ErrorCode::DatabaseFull,
            )
            &&& formed && stopped is None && !heavy && !db.full() && o is Some ==> is_refused(
                o,
                ErrorCode::InvalidData,
            )
        }),
{
    let members = merged_members(msg);
    lemma_bad_members(db, msg.target(), members, members.len() as int);
    lemma_bad_is_invalid(db, msg.target(), members, members.len() as int);
}

/// A bad member is refused as invalid data.
proof fn lemma_bad_is_invalid(
    db: Database,
    base: Seq<char>,
    members: Seq<(Seq<char>, Json)>,
    n: int,
)
    ensures
        bad_member(db, base, members, n) is Some ==> is_refused(
            bad_member(db, base, members, n),
            ErrorCode::InvalidData,
        ),
    decreases n,
{
    if 0 < n <= members.len() {
        lemma_bad_is_invalid(db, base, members, n - 1);
    }
}

/// A removal that may not go on is refused for its path, or answered by what stops any write.
pub proof fn law_refused_removals_are_answered(
    db: Database,
    client: Seq<char>,
    msg: ClientMessage,
    volatile: bool,
)
    ensures
        !path::valid_path(msg.target(), db.limits.max_path_depth as nat) ==> is_refused(
            remove_gate(db, client, msg, volatile),
            ErrorCode::InvalidData,
        ),
        path::valid_path(msg.target(), db.limits.max_path_depth as nat) ==> remove_gate(
            db,
            client,
            msg,
            volatile,
        ) == write_gate(db, client, msg, !volatile),
{
}

/// A write that the log refused leaves no trace: the data is as it was, the log counts as
/// failed, and the client is told that storage is unavailable. One whose flush failed is not
/// acknowledged either.
pub proof fn law_lost_write_leaves_no_trace(
    before: Database,
    after: Database,
    client: Seq<char>,
    request: Seq<char>,
    e: Entry,
    outcome: AppendOutcome,
    sync: Option<SyncOutcome>,
    settings: Settings,
    remembered: bool,
    ack: Option<Answer>,
    reply: Option<ServerMessage>,
)
    requires
        settled(
            before,
            after,
            client,
            request,
            e,
            outcome,
            sync,
            settings,
            remembered,
            ack,
            reply,
        ),
    ensures
        outcome is Failed ==> after.store == before.store && after.wal.failed
            && after.ledger.processed == before.ledger.processed && (protocol::said(reply)
            matches Some(Answer::Nack(id, code, _)) && id == request && code
            == ErrorCode::Unavailable),
        outcome is Appended && settings.wal_sync_interval_ms == 0 && !(sync is Some
            && sync->0 is Synced) ==> after.ledger.processed == before.ledger.processed && (
        protocol::said(reply) matches Some(Answer::Nack(id, code, _)) && id == request && code
            == ErrorCode::Unavailable),
        outcome is NoWriter || (outcome is Appended && settings.wal_sync_interval_ms != 0)
            ==> protocol::said(reply) == ack,
{
    let outcomes = seq![outcome];
    change::law_where_writes_land(outcomes, sync, settings);
    assert(outcomes[0] == outcome);
    if outcomes.contains(AppendOutcome::Failed) {
        let i = choose|i: int| 0 <= i < outcomes.len() && outcomes[i] == AppendOutcome::Failed;
        assert(i == 0);
    }
    if exists|i: int| 0 <= i < outcomes.len() && (#[trigger] outcomes[i]) is Appended {
        let i = choose|i: int| 0 <= i < outcomes.len() && (#[trigger] outcomes[i]) is Appended;
        assert(i == 0);
    }
}

/// Only a request with a name is acknowledged by it, and only where that is wanted. Volatile
/// writes never reach the log.
pub proof fn law_what_volatile_writes_skip(
    request: Seq<char>,
    outcome: AppendOutcome,
    event: Option<MutationEvent>,
    lost: bool,
    volatile: bool,
    client: Seq<char>,
)
    ensures
        ack_if_named(request, false) is None,
        ack_if_named(Seq::empty(), true) is None,
        request.len() > 0 ==> ack_if_named(request, true) == Some(Answer::Ack(request)),
        logged_outcome(outcome, true) is NoWriter,
        logged_outcome(outcome, false) == outcome,
        told(event, lost, volatile, client) ==> (lost <==> event is None),
        told(event, lost, volatile, client) && event is Some ==> event->0.volatile == volatile
            && event->0.writer is Some && event->0.writer->0@ == client,
{
}

} // verus!
