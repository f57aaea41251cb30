//! The state of one database and the checks that every request goes through.
use crate::clients::Clients;
use crate::json;
use crate::json::{show_members, show_value};
use crate::ledger;
use crate::ledger::{RequestLog, WriteLedger};
use crate::path;
use crate::path::{extract_pure_database_id, path_matches_pattern};
use crate::plain;
use crate::protocol;
use crate::protocol::{Answer, ErrorCode, ServerMessage};
use crate::server_value::{Complaint, Trouble};
use crate::store::Store;
use crate::text::concat;
use crate::value::{Json, JsonValue};
use vstd::prelude::*;

verus! {

/// Largest size of a database on disk; at this size only removals are accepted.
pub const MAX_DATABASE_SIZE_BYTES: u64 = 1_099_511_627_776;

/// Whether a database is ready for requests.
#[derive(Debug, Clone, Copy, PartialEq, Eq, Structural)]
pub enum DatabaseState {
    /// Loading from storage.
    Loading,
    /// Serving requests.
    Serving,
}

/// Why something could not be sent to a client.
#[derive(Debug, Clone, Copy, PartialEq, Eq, Structural)]
pub enum SendError {
    Closed,
    BufferFull,
}

/// A write that waits for its client to disconnect.
pub struct DisconnectAction {
    pub path: String,
    pub action: String,
    pub value: Option<JsonValue>,
}

/// The waiting writes of one client.
pub struct ClientHooks {
    pub client_id: String,
    pub actions: Vec<DisconnectAction>,
}

/// How large paths, values and answers may get.
pub struct Limits {
    /// Segments of a path, and levels of a value under it, together.
    pub max_path_depth: usize,
    /// Estimated bytes of a volatile write.
    pub max_volatile_write_size: usize,
    /// Estimated bytes of an answer.
    pub max_response_size: usize,
}

/// The state of the log writer.
pub struct WalState {
    /// Whether there is a writer.
    pub writer: bool,
    /// Whether something was written since the last sync.
    pub dirty: bool,
    /// Whether writing has failed; until recovery writes are turned down.
    pub failed: bool,
    pub pending_entries: usize,
    pub pending_bytes: u64,
}

/// A database.
pub struct Database {
    pub id: String,
    pub project_id: String,
    /// Core that the database runs on.
    pub core_id: usize,
    /// The id without the project in front of it.
    pub pure_database_id: String,
    /// Whether nothing is kept on disk.
    pub ephemeral: bool,
    pub store: Store,
    pub clients: Clients,
    pub ledger: WriteLedger,
    pub on_disconnect: Vec<ClientHooks>,
    pub state: DatabaseState,
    /// Time of the last message, in milliseconds.
    pub last_activity: u64,
    /// Whether the database has to stop.
    pub fatal_error: bool,
    pub volatile_paths: Vec<String>,
    /// Whether security rules are installed.
    pub has_rules: bool,
    /// Whether the rules ask about the query of a read.
    pub rules_use_query: bool,
    pub project_secret: Option<String>,
    pub data_dir: Option<String>,
    pub wal: WalState,
    pub blob_generation: u64,
    pub template_mode: bool,
    pub pending_template_dir: Option<String>,
    pub pending_disk_load: bool,
    pub needs_startup_compaction: bool,
    /// Size on disk as last measured.
    pub data_size: u64,
    pub limits: Limits,
}

/// What a request comes to when it does not go through.
pub ghost enum Outcome {
    /// It is ignored.
    Silent,
    /// It counts as done.
    Ack,
    /// It is turned down with a code and a text; the flag says whether the refusal is
    /// remembered.
    Refuse(ErrorCode, Seq<char>, bool),
}

/// Whether a log of requests has taken in a request of a connection; requests without
/// an id, and clients without a connection, leave no trace.
pub open spec fn noted(
    before: RequestLog,
    after: RequestLog,
    connection: Seq<char>,
    request: Seq<char>,
) -> bool {
    if connection.len() == 0 || request.len() == 0 {
        after == before
    } else {
        forall|c: Seq<char>| #[trigger]
            after.kept(c) == if c == connection {
                ledger::remember(before.kept(c), request)
            } else {
                before.kept(c)
            }
    }
}

/// Whether one of the pending requests was turned down.
pub open spec fn builds_on(pending: Seq<String>, refused: Seq<Seq<char>>) -> bool {
    exists|i: int| 0 <= i < pending.len() && refused.contains((#[trigger] pending[i])@)
}

/// What a complaint about a server value says, and the value it is about.
pub open spec fn trouble_text(t: Trouble) -> Seq<char> {
    match t {
        Trouble::UnknownObject(members) => "unknown server value object: "@ + json::members_debug(
            plain::plain(Json::Object(members)),
        ),
        Trouble::Unknown(v) => "unknown server value: "@ + json::value_debug(plain::plain(v)),
        Trouble::DeltaNotNumber(v) => "increment delta must be a number, got "@
            + json::value_debug(plain::plain(v)),
        Trouble::InvalidDelta => "invalid increment delta"@,
        Trouble::NeedsSum(_, _) => "invalid increment delta"@,
    }
}

/// What a complaint about a server value says.
pub fn complaint_text(e: Complaint) -> (r: String)
    ensures
        r@ == trouble_text(e@),
{
    match e {
        Complaint::UnknownObject(members) => concat(
            "unknown server value object: ",
            show_members(members).as_str(),
        ),
        Complaint::Unknown(v) => concat("unknown server value: ", show_value(&v).as_str()),
        Complaint::DeltaNotNumber(v) => concat(
            "increment delta must be a number, got ",
            show_value(&v).as_str(),
        ),
        Complaint::InvalidDelta => "invalid increment delta".to_owned(),
        Complaint::NeedsSum { .. } => "invalid increment delta".to_owned(),
    }
}

impl Database {
    /// The parts hold their own invariants.
    pub open spec fn inv(&self) -> bool {
        &&& self.store.inv()
        &&& self.clients.inv()
    }

    /// The connection of a client; empty where there is none.
    pub open spec fn connection(&self, client: Seq<char>) -> Seq<char> {
        if self.clients@.contains_key(client) {
            self.clients@[client].connection
        } else {
            Seq::empty()
        }
    }

    /// Whether a request was already carried out.
    pub open spec fn processed(&self, client: Seq<char>, request: Seq<char>) -> bool {
        &&& request.len() > 0
        &&& self.connection(client).len() > 0
        &&& self.ledger.processed.kept(self.connection(client)).contains(request)
    }

    /// Whether a write builds on one that was turned down.
    pub open spec fn tainted(&self, client: Seq<char>, pending: Option<Vec<String>>) -> bool {
        match pending {
            None => false,
            Some(p) => self.connection(client).len() > 0 && builds_on(
                p@,
                self.ledger.nacked.kept(self.connection(client)),
            ),
        }
    }

    /// Whether a path is volatile.
    pub open spec fn volatile_path(&self, path: Seq<char>) -> bool {
        exists|i: int|
            0 <= i < self.volatile_paths@.len() && path::pattern_covers(
                path::segments(path),
                path::segments((#[trigger] self.volatile_paths@[i])@),
            )
    }

    /// Whether the database may not grow any more.
    pub open spec fn full(&self) -> bool {
        self.data_size >= MAX_DATABASE_SIZE_BYTES
    }

    /// Whether this state and an answer are what an outcome leaves of a request.
    pub open spec fn answered(
        &self,
        before: &Database,
        client: Seq<char>,
        request: Seq<char>,
        outcome: Outcome,
        reply: Option<ServerMessage>,
    ) -> bool {
        match outcome {
            Outcome::Silent => reply is None && *self == *before,
            Outcome::Ack => protocol::said(reply) == Some(Answer::Ack(request)) && *self
                == *before,
            Outcome::Refuse(code, message, remembered) => {
                &&& protocol::said(reply) == Some(Answer::Nack(request, code, message))
                &&& if remembered {
                    self.noted_refusal(before, client, request)
                } else {
                    *self == *before
                }
            },
        }
    }

    /// Whether this state differs from an earlier one in a remembered refusal alone.
    pub open spec fn noted_refusal(
        &self,
        before: &Database,
        client: Seq<char>,
        request: Seq<char>,
    ) -> bool {
        &&& *self == (Database { ledger: self.ledger, ..*before })
        &&& self.ledger.processed == before.ledger.processed
        &&& noted(
            before.ledger.nacked,
            self.ledger.nacked,
            before.connection(client),
            request,
        )
    }

    /// Whether this state differs from an earlier one in a remembered success alone.
    pub open spec fn noted_success(
        &self,
        before: &Database,
        client: Seq<char>,
        request: Seq<char>,
    ) -> bool {
        &&& *self == (Database { ledger: self.ledger, ..*before })
        &&& self.ledger.nacked == before.ledger.nacked
        &&& noted(
            before.ledger.processed,
            self.ledger.processed,
            before.connection(client),
            request,
        )
    }

    /// Whether this is a database as it starts out.
    pub open spec fn fresh(
        &self,
        id: String,
        project_id: String,
        ephemeral: bool,
        data_dir: Option<String>,
        limits: Limits,
    ) -> bool {
        &&& self.id == id
        &&& self.project_id == project_id
        &&& self.pure_database_id@ == path::pure_database_name(id@)
        &&& self.core_id == 0
        &&& self.ephemeral == ephemeral
        &&& self.store.tree@ == crate::shape::Shape::Null
        &&& !self.store.blob_backed
        &&& self.store.log().len() == 0
        &&& self.store.promoted_paths@.len() == 0
        &&& self.store.blob_sequence == 0
        &&& self.store.sentinel_paths@ == Set::<Seq<Seq<char>>>::empty()
        &&& self.clients@.len() == 0
        &&& self.clients.list@.len() == 0
        &&& self.on_disconnect@.len() == 0
        &&& self.state == DatabaseState::Loading
        &&& !self.fatal_error
        &&& self.volatile_paths@.len() == 0
        &&& !self.has_rules
        &&& !self.rules_use_query
        &&& self.project_secret is None
        &&& self.data_dir == data_dir
        &&& !self.wal.writer && !self.wal.dirty && !self.wal.failed
        &&& self.wal.pending_entries == 0 && self.wal.pending_bytes == 0
        &&& self.blob_generation == 0
        &&& !self.template_mode
        &&& self.pending_template_dir is None
        &&& self.pending_disk_load == (data_dir is Some)
        &&& !self.needs_startup_compaction
        &&& self.data_size == 0
        &&& self.limits == limits
        &&& forall|c: Seq<char>| #[trigger]
                self.ledger.processed.kept(c) == Seq::<Seq<char>>::empty()
        &&& forall|c: Seq<char>| #[trigger] self.ledger.nacked.kept(c) == Seq::<Seq<char>>::empty()
    }

    /// A database that starts empty and keeps nothing on disk unless told where to.
    fn with_dir(
        id: String,
        project_id: String,
        ephemeral: bool,
        data_dir: Option<String>,
        limits: Limits,
    ) -> (r: Database)
        ensures
            r.inv(),
            r.fresh(id, project_id, ephemeral, data_dir, limits),
    {
        let pure_database_id = extract_pure_database_id(id.as_str());
        let pending_disk_load = data_dir.is_some();
        Database {
            id,
            project_id,
            core_id: 0,
            pure_database_id,
            ephemeral,
            store: Store::new(),
            clients: Clients::new(),
            ledger: WriteLedger::new(),
            on_disconnect: Vec::new(),
            state: DatabaseState::Loading,
            last_activity: 0,
            fatal_error: false,
            volatile_paths: Vec::new(),
            has_rules: false,
            rules_use_query: false,
            project_secret: None,
            data_dir,
            wal: WalState {
                writer: false,
                dirty: false,
                failed: false,
                pending_entries: 0,
                pending_bytes: 0,
            },
            blob_generation: 0,
            template_mode: false,
            pending_template_dir: None,
            pending_disk_load,
            needs_startup_compaction: false,
            data_size: 0,
            limits,
        }
    }

    /// A new database without anything on disk.
    pub fn new(id: String, project_id: String, ephemeral: bool, limits: Limits) -> (r: Database)
        ensures
            r.inv(),
            r.fresh(id, project_id, ephemeral, None, limits),
    {
        Database::with_dir(id, project_id, ephemeral, None, limits)
    }

    /// A new database that is kept in a directory; it loads from there before it
    /// serves.
    pub fn new_with_persistence(
        id: String,
        project_id: String,
        data_dir: String,
        limits: Limits,
    ) -> (r: Database)
        ensures
            r.inv(),
            r.fresh(id, project_id, false, Some(data_dir), limits),
    {
        Database::with_dir(id, project_id, false, Some(data_dir), limits)
    }

    /// The connection that a client came in on.
    pub fn get_client_connection_id(&self, client_id: &str) -> (r: Option<&str>)
        requires
            self.clients.inv(),
        ensures
            match r {
                Some(c) => self.clients@.contains_key(client_id@) && c@ == self.connection(
                    client_id@,
                ),
                None => !self.clients@.contains_key(client_id@),
            },
    {
        self.clients.connection_of(client_id)
    }

    /// The connection that a client came in on, unless it has none.
    fn named_connection(&self, client_id: &str) -> (r: Option<String>)
        requires
            self.clients.inv(),
        ensures
            match r {
                Some(c) => c@ == self.connection(client_id@) && c@.len() > 0,
                None => self.connection(client_id@).len() == 0,
            },
    {
        match self.get_client_connection_id(client_id) {
            Some(c) => if c.is_empty() {
                None
            } else {
                Some(c.to_owned())
            },
            None => None,
        }
    }

    /// Whether a request was already carried out.
    pub fn is_write_processed(&self, client_id: &str, request_id: &str) -> (r: bool)
        requires
            self.clients.inv(),
        ensures
            r == self.processed(client_id@, request_id@),
    {
        if request_id.is_empty() {
            return false;
        }
        match self.named_connection(client_id) {
            Some(c) => self.ledger.processed.contains(c.as_str(), request_id),
            None => false,
        }
    }

    /// Remembers that a request was carried out.
    pub fn record_processed_write(&mut self, client_id: &str, request_id: &str)
        requires
            old(self).clients.inv(),
        ensures
            final(self).noted_success(old(self), client_id@, request_id@),
    {
        if request_id.is_empty() {
            return;
        }
        match self.named_connection(client_id) {
            Some(c) => {
                self.ledger.processed.record(c.as_str(), request_id);
            },
            None => {},
        }
    }

    /// Whether a write builds on one that was turned down, and is to be ignored.
    pub fn is_write_tainted(&self, client_id: &str, pending_writes: &Option<Vec<String>>) -> (r:
        bool)
        requires
            self.clients.inv(),
        ensures
            r == self.tainted(client_id@, *pending_writes),
    {
        let pending = match pending_writes {
            Some(p) => p,
            None => {
                return false;
            },
        };
        let connection = match self.named_connection(client_id) {
            Some(c) => c,
            None => {
                return false;
            },
        };
        let mut i: usize = 0;
        while i < pending.len()
            invariant
                i <= pending@.len(),
                connection@ == self.connection(client_id@),
                connection@.len() > 0,
                *pending_writes == Some(*pending),
                forall|j: int|
                    0 <= j < i ==> !self.ledger.nacked.kept(connection@).contains(
                        (#[trigger] pending@[j])@,
                    ),
            decreases pending@.len() - i,
        {
            if self.ledger.nacked.contains(connection.as_str(), pending[i].as_str()) {
                assert(builds_on(pending@, self.ledger.nacked.kept(connection@))) by {
                    assert(self.ledger.nacked.kept(connection@).contains(pending@[i as int]@));
                }
                return true;
            }
            i = i + 1;
        }
        false
    }

    /// Remembers that a request was turned down.
    pub fn record_nacked_write(&mut self, client_id: &str, request_id: &str)
        requires
            old(self).clients.inv(),
        ensures
            final(self).noted_refusal(old(self), client_id@, request_id@),
    {
        if request_id.is_empty() {
            return;
        }
        match self.named_connection(client_id) {
            Some(c) => {
                self.ledger.nacked.record(c.as_str(), request_id);
            },
            None => {},
        }
    }

    /// Turns a request down and remembers it.
    pub fn refuse(
        &mut self,
        client_id: &str,
        request_id: &str,
        code: ErrorCode,
        message: &str,
    ) -> (r: Option<ServerMessage>)
        requires
            old(self).clients.inv(),
        ensures
            final(self).answered(
                old(self),
                client_id@,
                request_id@,
                Outcome::Refuse(code, message@, true),
                r,
            ),
    {
        self.record_nacked_write(client_id, request_id);
        Some(ServerMessage::nack(request_id, code, message))
    }

    /// Turns a write down because its path or a key in its value is not valid.
    pub fn nack_invalid_key(&mut self, client_id: &str, request_id: &str) -> (r: Option<
        ServerMessage,
    >)
        requires
            old(self).clients.inv(),
        ensures
            final(self).answered(
                old(self),
                client_id@,
                request_id@,
                Outcome::Refuse(ErrorCode::InvalidData, "invalid path or key"@, true),
                r,
            ),
    {
        self.refuse(client_id, request_id, ErrorCode::InvalidData, "invalid path or key")
    }

    /// Turns a write down because it would land deeper than can be read.
    pub fn nack_too_deep(&mut self, client_id: &str, request_id: &str) -> (r: Option<
        ServerMessage,
    >)
        requires
            old(self).clients.inv(),
        ensures
            final(self).answered(
                old(self),
                client_id@,
                request_id@,
                Outcome::Refuse(
                    ErrorCode::InvalidData,
                    "write exceeds maximum path depth"@,
                    true,
                ),
                r,
            ),
    {
        self.refuse(
            client_id,
            request_id,
            ErrorCode::InvalidData,
            "write exceeds maximum path depth",
        )
    }

    /// Turns a write down because of a server value in it.
    pub fn refuse_server_value(
        &mut self,
        client_id: &str,
        request_id: &str,
        e: Complaint,
        remembered: bool,
    ) -> (r: Option<ServerMessage>)
        requires
            old(self).clients.inv(),
        ensures
            final(self).answered(
                old(self),
                client_id@,
                request_id@,
                Outcome::Refuse(ErrorCode::InvalidData, trouble_text(e@), remembered),
                r,
            ),
    {
        if remembered {
            self.record_nacked_write(client_id, request_id);
        }
        let message = complaint_text(e);
        Some(ServerMessage::nack(request_id, ErrorCode::InvalidData, message.as_str()))
    }

    /// Whether a path is volatile under the installed patterns.
    pub fn is_volatile_path(&self, path: &str) -> (r: bool)
        ensures
            r == self.volatile_path(path@),
    {
        let mut i: usize = 0;
        while i < self.volatile_paths.len()
            invariant
                i <= self.volatile_paths@.len(),
                forall|j: int|
                    0 <= j < i ==> !path::pattern_covers(
                        path::segments(path@),
                        path::segments((#[trigger] self.volatile_paths@[j])@),
                    ),
            decreases self.volatile_paths@.len() - i,
        {
            if path_matches_pattern(path, self.volatile_paths[i].as_str()) {
                assert(path::pattern_covers(
                    path::segments(path@),
                    path::segments(self.volatile_paths@[i as int]@),
                ));
                return true;
            }
            i = i + 1;
        }
        false
    }

    /// Whether the database may not grow any more.
    pub fn is_at_size_cap(&self) -> (r: bool)
        ensures
            r == self.full(),
    {
        self.data_size >= MAX_DATABASE_SIZE_BYTES
    }

    /// Whether the log cannot be written.
    pub fn is_wal_failed(&self) -> (r: bool)
        ensures
            r == self.wal.failed,
    {
        self.wal.failed
    }

    /// Whether the data lies in a blob.
    pub fn is_blob_backed(&self) -> (r: bool)
        ensures
            r == self.store.blob_backed,
    {
        self.store.blob_backed
    }
}

/// A request that was carried out is known when it comes again on the same connection,
/// and a write that names a refused one as pending is known to build on it.
pub proof fn law_requests_are_remembered(
    before: Database,
    done: Database,
    refused: Database,
    client: Seq<char>,
    request: Seq<char>,
    pending: Vec<String>,
    i: int,
)
    requires
        before.connection(client).len() > 0,
        request.len() > 0,
        done.noted_success(&before, client, request),
        refused.noted_refusal(&before, client, request),
        0 <= i < pending@.len(),
        pending@[i]@ == request,
    ensures
        done.processed(client, request),
        refused.tainted(client, Some(pending)),
{
    let c = before.connection(client);
    assert(done.connection(client) == c);
    assert(refused.connection(client) == c);
    ledger::law_noted_is_found(before.ledger.processed.kept(c), request);
    ledger::law_noted_is_found(before.ledger.nacked.kept(c), request);
    assert(done.ledger.processed.kept(c).contains(request));
    assert(refused.ledger.nacked.kept(c).contains(pending@[i]@));
    assert(builds_on(pending@, refused.ledger.nacked.kept(c)));
}

/// A request without an id is never taken for one that was carried out.
pub proof fn law_nameless_requests_never_repeat(db: Database, client: Seq<char>)
    ensures
        !db.processed(client, Seq::empty()),
{
}

/// Only a request that was carried out on a connection is taken for one, and only a write
/// that was refused there taints others.
pub proof fn law_only_noted_requests_are_known(
    before: Database,
    done: Database,
    refused: Database,
    client: Seq<char>,
    request: Seq<char>,
    other: Seq<char>,
    x: Seq<char>,
)
    requires
        done.noted_success(&before, client, request),
        refused.noted_refusal(&before, client, request),
    ensures
        done.processed(other, x) ==> before.processed(other, x) || (x == request
            && before.connection(other) == before.connection(client)),
        forall|p: Option<Vec<String>>| #[trigger]
            done.tainted(other, p) == before.tainted(other, p),
        refused.processed(other, x) == before.processed(other, x),
{
    let c = before.connection(other);
    assert(done.connection(other) == c);
    assert(refused.connection(other) == c);
    if c.len() > 0 && request.len() > 0 && c == before.connection(client) {
        ledger::law_only_noted_is_found(before.ledger.processed.kept(c), request, x);
        assert(done.ledger.processed.kept(c) == ledger::remember(
            before.ledger.processed.kept(c),
            request,
        ));
    } else if c.len() > 0 && request.len() > 0 && before.connection(client).len() > 0 {
        assert(done.ledger.processed.kept(c) == before.ledger.processed.kept(c));
    }
    assert forall|p: Option<Vec<String>>| #[trigger] done.tainted(other, p) == before.tainted(
        other,
        p,
    ) by {
        assert(done.connection(other) == before.connection(other));
    }
}

/// A database takes writes until its data reaches one tebibyte.
pub proof fn law_databases_fill_up(db: Database)
    ensures
        db.full() <==> db.data_size >= 1_099_511_627_776,
{
}

/// A path is volatile exactly if a pattern of the database covers it.
pub proof fn law_patterns_make_paths_volatile(db: Database, p: Seq<char>)
    ensures
        db.volatile_paths@.len() == 0 ==> !db.volatile_path(p),
        forall|i: int|
            0 <= i < db.volatile_paths@.len() && path::is_prefix(
                path::segments((#[trigger] db.volatile_paths@[i])@),
                path::segments(p),
            ) ==> db.volatile_path(p),
{
    assert forall|i: int|
        0 <= i < db.volatile_paths@.len() && path::is_prefix(
            path::segments((#[trigger] db.volatile_paths@[i])@),
            path::segments(p),
        ) implies db.volatile_path(p) by {
        let pattern = path::segments(db.volatile_paths@[i]@);
        let q = path::segments(p);
        assert forall|j: int| 0 <= j < pattern.len() implies (#[trigger] pattern[j] == seq!['*']
            || pattern[j] == q[j]) by {
            assert(q.take(pattern.len() as int)[j] == q[j]);
        }
        assert(path::pattern_covers(q, pattern));
    }
}

/// A client without a connection has done nothing and was refused nothing.
pub proof fn law_unconnected_clients_are_unknown(
    db: Database,
    client: Seq<char>,
    request: Seq<char>,
    pending: Option<Vec<String>>,
)
    requires
        !db.clients@.contains_key(client) || db.clients@[client].connection.len() == 0,
    ensures
        !db.processed(client, request),
        !db.tainted(client, pending),
{
}

/// A write builds on a refused one exactly if it names one that was refused on the same
/// connection.
pub proof fn law_writes_build_on_refused_ones(
    db: Database,
    client: Seq<char>,
    pending: Vec<String>,
)
    requires
        db.clients@.contains_key(client),
        db.clients@[client].connection.len() > 0,
    ensures
        db.tainted(client, Some(pending)) <==> exists|i: int|
            0 <= i < pending@.len() && db.ledger.nacked.kept(
                db.clients@[client].connection,
            ).contains((#[trigger] pending@[i])@),
        !db.tainted(client, None),
{
}

/// What is wrong with a placeholder is told in words that show what stands in it.
pub proof fn law_placeholder_complaints_show_the_value(v: Json, members: Seq<(Seq<char>, Json)>)
    ensures
        ({
            let shown = json::value_debug(plain::plain(v));
            let listed = json::members_debug(plain::plain(Json::Object(members)));
            &&& trouble_text(Trouble::Unknown(v)) == "unknown server value: "@ + shown
            &&& trouble_text(Trouble::DeltaNotNumber(v))
                == "increment delta must be a number, got "@ + shown
            &&& trouble_text(Trouble::UnknownObject(members)) == "unknown server value object: "@
                + listed
        }),
        forall|t: Trouble|
            t is InvalidDelta || t is NeedsSum ==> #[trigger] trouble_text(t)
                == "invalid increment delta"@,
{
}

/// A new database is empty: nothing can be read, nobody is known, nothing is owed to the log,
/// and there is room.
pub proof fn law_new_databases_are_empty(
    db: Database,
    id: String,
    project_id: String,
    ephemeral: bool,
    data_dir: Option<String>,
    limits: Limits,
    p: Seq<Seq<char>>,
    client: Seq<char>,
    request: Seq<char>,
    pending: Option<Vec<String>>,
)
    requires
        db.fresh(id, project_id, ephemeral, data_dir, limits),
    ensures
        plain::seen_opt(crate::shape::at(db.store.tree@, p)) == plain::Plain::Null,
        db.clients@.len() == 0,
        !db.processed(client, request),
        !db.tainted(client, pending),
        !db.full(),
        !db.wal.failed && !db.wal.dirty && !db.wal.writer,
        db.wal.pending_entries == 0 && db.wal.pending_bytes == 0,
        db.store.records().len() == 0,
        !db.volatile_path(request),
        !db.has_rules,
        db.limits == limits,
        db.ephemeral == ephemeral,
        db.pending_disk_load <==> data_dir is Some,
        db.state == DatabaseState::Loading,
{
    assert(db.store.records().len() == db.store.log().len());
    if p.len() > 0 {
        assert(crate::shape::at(db.store.tree@, p) is None);
    }
}

} // verus!
