//! A database with a blob, a log and rules around it.
use lark_server::access::TreeAccessor;
use lark_server::change::{Change, MutationEvent, MutationKind};
use lark_server::database::{Database, Limits};
use lark_server::hooks::{
    HookStep, MAX_ON_DISCONNECT_ACTIONS_PER_CLIENT, MAX_ON_DISCONNECT_BYTES_PER_CLIENT,
};
use lark_server::inbox::{InboxMessage, Route};
use lark_server::json::{export_json, import_json};
use lark_server::lifecycle::{
    drain_reply, CompactionComplete, CompactionStep, StartStep, SwitchOutcome, SyncOutcome,
};
use lark_server::node::{cleaned_node, Node};
use lark_server::path::{path_matches_pattern, Path};
use lark_server::plain::node_value;
use lark_server::promotion::{
    PromoteStep, ShallowChild, ShallowOutcome, ShallowRead, SubtreeRead,
};
use lark_server::protocol::{
    ClientMessage, ErrorCode, Operation, ServerMessage, TransactionOp,
};
use lark_server::reads::{
    QueryOutcome, ReadStep, SnapshotSource, SnapshotStep, SubscribeOutcome,
};
use lark_server::rules::{RulesStep, Verdict};
use lark_server::server_value::Sum;
use lark_server::settings::{set_wal_sync_interval_ms, Settings};
use lark_server::store::{AppendOutcome, Promoted};
use lark_server::transaction::{TransactionStep, MAX_TRANSACTION_OPS};
use lark_server::value::{validate_value_keys, JsonValue, Member};
use lark_server::wal::WalEntry;
use lark_server::writes::WriteStep;

/// The idle time after which data is evicted, in seconds.
const IDLE_SECS: u64 = 300;

fn j(text: &str) -> serde_json::Value {
    serde_json::from_str(text).unwrap()
}

fn v(text: &str) -> JsonValue {
    import_json(j(text))
}

fn limits() -> Limits {
    Limits { max_path_depth: 32, max_volatile_write_size: 2048, max_response_size: 16_777_216 }
}

fn ephemeral() -> Database {
    Database::new("test".to_string(), "test-project".to_string(), true, limits())
}

type Rules = fn(&Database, &str) -> Verdict;

fn open_rules(_db: &Database, _path: &str) -> Verdict {
    Verdict::Allowed
}

/// A database with what stands around it: a blob in memory, a log that only counts,
/// rules, subscriptions and a clock.
struct Bench {
    db: Database,
    blob: serde_json::Value,
    rules: Rules,
    sequence: i64,
    now: u64,
    views: Vec<(String, String)>,
    events: Vec<String>,
    sent: Vec<ServerMessage>,
    blob_fails: bool,
    log_fails: bool,
    charge_fails: bool,
    /// What comes of the sync that a write waits for, if it waits for one.
    sync: Option<SyncOutcome>,
    settings: Settings,
}

fn bench(db: Database, blob: serde_json::Value) -> Bench {
    Bench {
        db,
        blob,
        rules: open_rules,
        sequence: 0,
        now: 1_000_000_000,
        views: Vec::new(),
        events: Vec::new(),
        sent: Vec::new(),
        blob_fails: false,
        log_fails: false,
        charge_fails: false,
        sync: None,
        settings: Settings::default(),
    }
}

fn ephemeral_bench() -> Bench {
    let mut b = bench(ephemeral(), serde_json::Value::Null);
    b.db.add_client_internal("client1", None, "conn1");
    b
}

/// A blob-backed database with known data in the blob and a log.
fn make_blob_backed_db(data: serde_json::Value) -> Bench {
    let mut db = Database::new_with_persistence(
        "test/evict".to_string(),
        "test".to_string(),
        "data".to_string(),
        limits(),
    );
    db.load_from_disk(0, None, Vec::new(), 0);
    assert!(matches!(db.init_wal_writer(), StartStep::OpenLog { .. }));
    assert!(matches!(db.run_log_opened(true), StartStep::Serve { .. }));
    assert!(db.is_blob_backed());
    let mut b = bench(db, data);
    b.db.add_client_internal("client1", None, "conn1");
    b
}

impl Bench {
    fn blob_at(&self, path: &str) -> Option<&serde_json::Value> {
        let mut at = &self.blob;
        for s in &Path::parse(path).segments {
            at = at.get(s.as_str())?;
        }
        Some(at)
    }

    fn subtree(&self, path: &str) -> SubtreeRead {
        if self.blob_fails {
            return SubtreeRead::Failed("disk error".to_string());
        }
        match self.blob_at(path) {
            Some(x) => SubtreeRead::Found(cleaned_node(&import_json(x.clone()))),
            None => SubtreeRead::NotFound,
        }
    }

    fn shallow(&self, path: &str) -> ShallowRead {
        if self.blob_fails {
            return ShallowRead::Failed("disk error".to_string());
        }
        match self.blob_at(path) {
            None => ShallowRead::NotFound,
            Some(serde_json::Value::Object(map)) => ShallowRead::Children(
                map.iter()
                    .map(|(k, x)| ShallowChild {
                        key: k.clone(),
                        value: if x.is_object() {
                            None
                        } else {
                            Some(cleaned_node(&import_json(x.clone())))
                        },
                        size: x.to_string().len() as u64,
                    })
                    .collect(),
            ),
            Some(x) => ShallowRead::Primitive(cleaned_node(&import_json(x.clone()))),
        }
    }

    fn load_subtree(&mut self, path: &str) -> Result<bool, String> {
        let read = self.subtree(path);
        self.db.store.promote_path_unchecked(path, read, self.now)
    }

    fn promote_path_shallow(&mut self, path: &str) -> Result<bool, String> {
        let read = self.shallow(path);
        match self.db.store.promote_path_shallow(path, read, self.now) {
            ShallowOutcome::Loaded => Ok(true),
            ShallowOutcome::ReadSubtree => self.load_subtree(path),
            ShallowOutcome::Failed(e) => Err(e),
        }
    }

    fn promote_path(&mut self, path: &str) -> Result<bool, String> {
        match self.db.store.promote_path(path, self.now) {
            PromoteStep::Ready => Ok(false),
            PromoteStep::ReadShallow => self.promote_path_shallow(path),
            PromoteStep::ReadSubtree => self.load_subtree(path),
        }
    }

    fn promote_path_deep(&mut self, path: &str) -> Result<bool, String> {
        match self.db.store.promote_path_deep(path, self.now) {
            PromoteStep::Ready => Ok(false),
            PromoteStep::ReadShallow => self.promote_path_shallow(path),
            PromoteStep::ReadSubtree => self.load_subtree(path),
        }
    }

    fn is_promoted(&self, path: &str) -> bool {
        self.db.store.is_promoted(&Path::parse(path))
    }

    fn mark_promoted(&mut self, path: &str, at: u64) {
        self.db.store.note_promoted(&Path::parse(path), at);
    }

    fn evict_idle_paths(&mut self) {
        self.db.store.evict_idle_paths(self.now, IDLE_SECS);
    }

    fn force_evict(&mut self, path: &str) {
        let p = Path::parse(path);
        self.db.store.evict_path(&p);
        let kept: Vec<Promoted> = self
            .db
            .store
            .promoted_paths
            .drain(..)
            .filter(|x| !x.path.same(&p))
            .collect();
        self.db.store.promoted_paths = kept;
    }

    fn get(&self, path: &str) -> Option<serde_json::Value> {
        self.db.store.tree.get(&Path::parse(path)).map(|n| export_json(&node_value(n)))
    }

    fn put(&mut self, path: &str, text: &str) {
        self.db.store.tree.set(&Path::parse(path), &v(text));
    }

    fn allowed(&mut self, client: &str, path: &str) -> bool {
        let (mut check, mut step) = self.db.begin_rules_check(client);
        loop {
            match step {
                RulesStep::Decided(d) => return d,
                RulesStep::Evaluate => {
                    let verdict = (self.rules)(&self.db, path);
                    step = check.evaluated(verdict);
                }
                RulesStep::Load(p) => {
                    let done = self.promote_path(&p).is_ok();
                    step = check.loaded(done);
                }
            }
        }
    }

    fn append(&mut self) -> AppendOutcome {
        if !self.db.wal.writer {
            return AppendOutcome::NoWriter;
        }
        if self.log_fails {
            return AppendOutcome::Failed;
        }
        self.sequence += 1;
        AppendOutcome::Appended { sequence: self.sequence, bytes: 10 }
    }

    /// Tells the subscriptions that an event affects.
    fn tell(&mut self, event: &MutationEvent) {
        for (_, view) in &self.views {
            let at = Path::parse(&event.path);
            let view_path = Path::parse(view);
            if view_path.leads_to(&at) || at.leads_to(&view_path) {
                let value = match &event.new_value {
                    Some(x) => export_json(x).to_string(),
                    None => String::new(),
                };
                self.events.push(format!("{} {}", event.path, value));
            }
        }
    }

    fn sum(current: Option<serde_json::Number>, delta: serde_json::Number) -> Sum {
        let a = current.as_ref().and_then(|n| n.as_f64()).unwrap_or(0.0);
        let total = delta.as_f64().and_then(|d| serde_json::Number::from_f64(a + d));
        Sum { current, delta, total }
    }

    fn handle_set(
        &mut self,
        client: &str,
        msg: &ClientMessage,
        volatile: bool,
    ) -> Option<ServerMessage> {
        let mut sums: Vec<Sum> = Vec::new();
        let path = msg.target_text().to_string();
        let mut value = JsonValue::Null;
        let mut step = self.db.begin_set(client, msg, volatile, 1234, &sums);
        loop {
            match step {
                WriteStep::Reply(r) => return r,
                WriteStep::NeedsSum { current, delta } => {
                    sums.push(Bench::sum(current, delta));
                    step = self.db.begin_set(client, msg, volatile, 1234, &sums);
                }
                WriteStep::Authorize(x) => {
                    let ok = self.allowed(client, &path);
                    value = x;
                    step = self.db.set_authorized(client, msg, volatile, &value, ok);
                }
                WriteStep::LoadForHash => {
                    let failure = self.promote_path_deep(&path).err();
                    step = self.db.set_loaded(client, msg, &value, failure.as_deref(), None);
                }
                WriteStep::Charge => {
                    let ok = !self.charge_fails;
                    step = self.db.write_charged(client, msg, ok);
                }
                WriteStep::Append => {
                    let outcome = self.append();
                    let done = self.db.commit_set(client, msg, value, outcome, self.sync, &self.settings);
                    if let Some(event) = &done.event {
                        self.tell(event);
                    }
                    return done.reply;
                }
                WriteStep::Buffer => return None,
                _ => panic!("unexpected step"),
            }
        }
    }

    fn handle_update(
        &mut self,
        client: &str,
        msg: &ClientMessage,
        volatile: bool,
    ) -> Option<ServerMessage> {
        let mut sums: Vec<Sum> = Vec::new();
        let path = msg.target_text().to_string();
        let mut members: Vec<Member> = Vec::new();
        let mut step = self.db.begin_update(client, msg, volatile, 1234, &sums);
        loop {
            match step {
                WriteStep::Reply(r) => return r,
                WriteStep::NeedsSum { current, delta } => {
                    sums.push(Bench::sum(current, delta));
                    step = self.db.begin_update(client, msg, volatile, 1234, &sums);
                }
                WriteStep::AuthorizeMerge(ms) => {
                    let ok = self.allowed(client, &path);
                    members = ms;
                    step = self.db.update_authorized(volatile, &members, ok);
                }
                WriteStep::AuthorizeChild(i) => {
                    let child = format!("{}/{}", path, members[i].key);
                    let ok = self.allowed(client, &child);
                    step = self
                        .db
                        .update_child_authorized(client, msg, volatile, &members, i, ok);
                }
                WriteStep::Charge => {
                    let ok = !self.charge_fails;
                    step = self.db.write_charged(client, msg, ok);
                }
                WriteStep::Append => {
                    let outcome = self.append();
                    let done = self.db.commit_update(
                        client,
                        msg,
                        volatile,
                        members,
                        outcome,
                        self.sync,
                        &self.settings,
                    );
                    if let Some(event) = &done.event {
                        self.tell(event);
                    }
                    return done.reply;
                }
                WriteStep::Commit => {
                    let none = AppendOutcome::NoWriter;
                    let done = self.db.commit_update(
                        client,
                        msg,
                        volatile,
                        members,
                        none,
                        None,
                        &self.settings,
                    );
                    if let Some(event) = &done.event {
                        self.tell(event);
                    }
                    return done.reply;
                }
                _ => panic!("unexpected step"),
            }
        }
    }

    fn handle_remove(
        &mut self,
        client: &str,
        msg: &ClientMessage,
        volatile: bool,
    ) -> Option<ServerMessage> {
        let path = msg.target_text().to_string();
        let mut step = self.db.begin_remove(client, msg, volatile);
        loop {
            match step {
                WriteStep::Reply(r) => return r,
                WriteStep::AuthorizeRemove => {
                    let ok = self.allowed(client, &path);
                    step = self.db.remove_authorized(client, msg, volatile, ok);
                }
                WriteStep::Charge => {
                    let ok = !self.charge_fails;
                    step = self.db.write_charged(client, msg, ok);
                }
                WriteStep::Append => {
                    let outcome = self.append();
                    let done = self.db.commit_remove(
                        client,
                        msg,
                        volatile,
                        outcome,
                        self.sync,
                        &self.settings,
                    );
                    if let Some(event) = &done.event {
                        self.tell(event);
                    }
                    return done.reply;
                }
                WriteStep::Commit => {
                    let none = AppendOutcome::NoWriter;
                    let done =
                        self.db.commit_remove(client, msg, volatile, none, None, &self.settings);
                    if let Some(event) = &done.event {
                        self.tell(event);
                    }
                    return done.reply;
                }
                _ => panic!("unexpected step"),
            }
        }
    }

    fn handle_transaction(&mut self, client: &str, msg: &ClientMessage) -> Option<ServerMessage> {
        let mut sums: Vec<Sum> = Vec::new();
        let paths: Vec<String> = match &msg.operations {
            Some(ops) => ops.iter().map(|o| o.path.clone()).collect(),
            None => Vec::new(),
        };
        let mut step = self.db.begin_transaction(client, msg);
        loop {
            match step {
                TransactionStep::Reply(r) => return r,
                TransactionStep::Authorize(i) => {
                    let ok = self.allowed(client, &paths[i]);
                    step = self.db.transaction_authorized(client, msg, i, ok);
                }
                TransactionStep::Load(i) => {
                    let failure = self.promote_path_deep(&paths[i]).err();
                    step = self.db.transaction_loaded(client, msg, i, failure.as_deref());
                }
                TransactionStep::Charge => {
                    let ok = !self.charge_fails;
                    step = self.db.transaction_charged(client, msg, ok);
                }
                TransactionStep::Resolve => {
                    step = self.db.resolve_transaction(msg, 1234, &sums);
                }
                TransactionStep::NeedsSum { current, delta } => {
                    sums.push(Bench::sum(current, delta));
                    step = self.db.resolve_transaction(msg, 1234, &sums);
                }
                TransactionStep::Append(changes) => {
                    let outcomes: Vec<AppendOutcome> =
                        changes.iter().map(|_| self.append()).collect();
                    let done = self.db.commit_transaction(
                        client,
                        msg,
                        &changes,
                        &outcomes,
                        self.sync,
                        &self.settings,
                    );
                    for e in &done.events {
                        self.tell(e);
                    }
                    return done.reply;
                }
            }
        }
    }

    fn handle_once(&mut self, client: &str, msg: &ClientMessage) -> ServerMessage {
        let path = msg.target_text().to_string();
        let mut step = self.db.begin_read(msg);
        loop {
            match step {
                ReadStep::Reply(r) => return r,
                ReadStep::Authorize => {
                    let ok = self.allowed(client, &path);
                    step = self.db.once_authorized(msg, ok);
                }
                ReadStep::ReadShallow => {
                    let read = self.shallow(&path);
                    return self.db.answer_shallow(msg, read);
                }
                ReadStep::Measure => {
                    let size = self.blob_at(&path).map(|x| x.to_string().len() as u64);
                    step = self.db.read_measured(msg, size);
                }
                ReadStep::Load => {
                    let failure = self.promote_path_deep(&path).err();
                    step = self.db.once_loaded(msg, failure.as_deref());
                }
                ReadStep::Answer => return self.db.answer_once(msg, QueryOutcome::NoQuery),
                ReadStep::Subscribe => panic!("unexpected step"),
            }
        }
    }

    /// Subscribes; where there is a query, it picks the given children.
    fn handle_subscribe(&mut self, client: &str, msg: &ClientMessage, query: Option<Vec<String>>) {
        let path = msg.target_text().to_string();
        let mut step = self.db.begin_read(msg);
        loop {
            match step {
                ReadStep::Reply(r) => {
                    self.sent.push(r);
                    return;
                }
                ReadStep::Authorize => {
                    let ok = self.allowed(client, &path);
                    step = self.db.subscribe_authorized(msg, ok);
                }
                ReadStep::Measure => {
                    let size = self.blob_at(&path).map(|x| x.to_string().len() as u64);
                    step = self.db.read_measured(msg, size);
                }
                ReadStep::Load => {
                    let failure = self.promote_path_deep(&path).err();
                    step = self.db.subscribe_loaded(client, msg, failure.as_deref());
                }
                ReadStep::Subscribe => {
                    self.views.push((client.to_string(), path.clone()));
                    step = self.db.subscribe_entered(msg, SubscribeOutcome::Entered);
                }
                ReadStep::Answer => {
                    let source = match query {
                        Some(keys) => SnapshotSource::Query(keys),
                        None => SnapshotSource::Whole,
                    };
                    match self.db.first_snapshot(msg, source, None) {
                        SnapshotStep::Send { event, ack, .. } => {
                            self.sent.push(ack);
                            self.sent.push(event);
                        }
                        SnapshotStep::Undo(r) => {
                            self.views.pop();
                            self.sent.push(r);
                        }
                    }
                    return;
                }
                ReadStep::ReadShallow => panic!("unexpected step"),
            }
        }
    }

    fn handle_unsubscribe(&mut self, client: &str, msg: &ClientMessage) -> ServerMessage {
        let (view, reply) = self.db.handle_unsubscribe(msg, None);
        assert_eq!(view, "default");
        let path = msg.target_text().to_string();
        self.views.retain(|(c, p)| !(c.as_str() == client && *p == path));
        reply
    }

    fn handle_on_disconnect(&mut self, client: &str, msg: &ClientMessage) -> ServerMessage {
        let path = msg.target_text().to_string();
        match self.db.begin_on_disconnect(client, msg) {
            HookStep::Reply(r) => r,
            HookStep::Authorize(_) => {
                let ok = self.allowed(client, &path);
                self.db.on_disconnect_authorized(client, msg, ok)
            }
        }
    }

    fn handle_disconnect(&mut self, client: &str) {
        let changes = self.db.begin_disconnect(client);
        let outcomes: Vec<AppendOutcome> = changes.iter().map(|_| self.append()).collect();
        let events = self.db.finish_disconnect(client, &changes, &outcomes);
        self.views.retain(|(c, _)| c.as_str() != client);
        for e in &events {
            self.tell(e);
        }
    }

    fn compact(&mut self, done: CompactionComplete) {
        match self.db.begin_compaction(&done) {
            CompactionStep::SwitchBlob => {
                self.db.compaction_switched(&done, SwitchOutcome::Opened)
            }
            _ => {}
        }
        self.db.handle_compaction_complete(&done);
    }

    fn set_pending(&mut self, entries: Vec<WalEntry>) {
        self.db.store.wal_index.rebuild(&entries);
        self.db.store.pending_wal_entries = entries;
    }
}

fn request(op: Operation, path: Option<&str>, id: &str) -> ClientMessage {
    let mut msg = ClientMessage::new(op);
    msg.path = path.map(|p| p.to_string());
    msg.request_id = Some(id.to_string());
    msg
}

fn set_msg(path: &str, text: &str, id: &str) -> ClientMessage {
    let mut msg = request(Operation::Assign, Some(path), id);
    msg.value = Some(v(text));
    msg
}

fn update_msg(path: &str, text: &str, id: &str) -> ClientMessage {
    let mut msg = request(Operation::Update, Some(path), id);
    msg.value = Some(v(text));
    msg
}

fn remove_msg(path: &str, id: &str) -> ClientMessage {
    request(Operation::Remove, Some(path), id)
}

fn once_msg(path: &str, id: &str) -> ClientMessage {
    request(Operation::Once, Some(path), id)
}

fn shallow_once_msg(path: &str, id: &str) -> ClientMessage {
    let mut msg = once_msg(path, id);
    msg.shallow = Some(true);
    msg
}

fn subscribe_msg(path: &str, id: &str) -> ClientMessage {
    request(Operation::Subscribe, Some(path), id)
}

fn hook_msg(path: &str, action: &str, value: Option<JsonValue>, id: &str) -> ClientMessage {
    let mut msg = request(Operation::OnDisconnect, Some(path), id);
    msg.action = Some(action.to_string());
    msg.value = value;
    msg
}

fn op(kind: &str, path: &str, text: Option<&str>) -> TransactionOp {
    TransactionOp {
        op: kind.to_string(),
        path: path.to_string(),
        value: text.map(v),
        hash: None,
    }
}

fn transaction_msg(ops: Vec<TransactionOp>, id: &str) -> ClientMessage {
    let mut msg = request(Operation::Transaction, None, id);
    msg.operations = Some(ops);
    msg
}

fn error_of(r: &ServerMessage) -> Option<ErrorCode> {
    match r {
        ServerMessage::Nack { code, .. } => Some(*code),
        _ => None,
    }
}

fn refusal(r: &ServerMessage) -> &str {
    match r {
        ServerMessage::Nack { message, .. } => message.as_str(),
        _ => panic!("not a refusal"),
    }
}

fn is_nack(r: &ServerMessage) -> bool {
    error_of(r).is_some()
}

fn once_value(r: &ServerMessage) -> Option<serde_json::Value> {
    match r {
        ServerMessage::OnceResponse { value, .. } => Some(export_json(&node_value(value))),
        _ => None,
    }
}

fn assert_is_size_marker(val: &serde_json::Value, context: &str) {
    let obj = val
        .as_object()
        .unwrap_or_else(|| panic!("{}: expected object, got {:?}", context, val));
    assert!(obj.contains_key(".sz"), "{}: expected .sz key, got {:?}", context, obj);
    let sz = obj[".sz"]
        .as_i64()
        .unwrap_or_else(|| panic!("{}: .sz should be integer", context));
    assert!(sz >= 0, "{}: .sz should be non-negative, got {}", context, sz);
}

fn assign_at(path: &str, text: &str, sequence: i64) -> WalEntry {
    let mut e = WalEntry::assign(path, &v(text));
    e.sequence = sequence;
    e
}

fn compacted(sequence: i64) -> CompactionComplete {
    CompactionComplete { sequence, blob_generation: 0 }
}

#[test]
fn test_validate_value_keys() {
    assert!(validate_value_keys(&v(r#"{"a": {"b": [1, 2, {"c": 3}]}}"#)).is_ok());
    assert!(validate_value_keys(&v(r#"{"createdAt": {".sv": "timestamp"}}"#)).is_ok());
    assert!(validate_value_keys(&v(r#"{".priority": 5, "name": "x"}"#)).is_ok());
    assert!(validate_value_keys(&v(r#"{"a/b": 1}"#)).is_err());
    assert!(validate_value_keys(&v(r#"{"ok": {"bad$key": 1}}"#)).is_err());
    assert!(validate_value_keys(&v(r#"{"arr": [{"in.mid": 1}]}"#)).is_err());
    assert!(validate_value_keys(&v(r#"{"": 1}"#)).is_err());
}

#[test]
fn test_path_matches_pattern() {
    assert!(path_matches_pattern("/cursors/test", "cursors/*"));
    assert!(path_matches_pattern("/cursors/abc", "cursors/*"));
    assert!(path_matches_pattern("/players/p1/position", "players/*/position"));

    assert!(path_matches_pattern("/cursors/a/b", "cursors/*"));
    assert!(path_matches_pattern("/players/p1/position/x", "players/*/position"));
    assert!(path_matches_pattern("/cursors/a/b/c", "cursors"));

    assert!(!path_matches_pattern("/cursors", "cursors/*"));
    assert!(!path_matches_pattern("/other/test", "cursors/*"));
}

#[test]
fn test_database_set_and_get() {
    let mut b = ephemeral_bench();
    b.put("/players/abc/name", "\"Alice\"");
    assert_eq!(b.get("/players/abc/name"), Some(j("\"Alice\"")));
}

#[test]
fn test_handle_set() {
    let mut b = ephemeral_bench();
    let response = b.handle_set("client1", &set_msg("/foo", "\"bar\"", "r1"), false);
    assert!(response.is_some());
    assert_eq!(b.get("/foo"), Some(j("\"bar\"")));
}

#[test]
fn test_write_handlers_reject_invalid_paths_and_keys() {
    let mut b = ephemeral_bench();

    let resp = b.handle_set("client1", &set_msg("/users//abc", "\"x\"", "r1"), false).unwrap();
    assert!(error_of(&resp) == Some(ErrorCode::InvalidData));
    assert!(is_nack(&resp));
    assert_eq!(b.get("/users"), None);

    let resp = b.handle_set("client1", &set_msg("/ok", r#"{"a/b": 1}"#, "r2"), false).unwrap();
    assert!(is_nack(&resp));
    assert_eq!(b.get("/ok"), None);

    let resp = b
        .handle_update("client1", &update_msg("/acct", r#"{"bal$ance": 5}"#, "r3"), false)
        .unwrap();
    assert!(is_nack(&resp));

    let resp = b
        .handle_set("client1", &set_msg("/users/abc", r#"{"name": "Alice"}"#, "r4"), false)
        .unwrap();
    assert!(!is_nack(&resp), "valid write must not be nacked");
    assert_eq!(b.get("/users/abc"), Some(j(r#"{"name": "Alice"}"#)));
}

fn locked_rules(_db: &Database, path: &str) -> Verdict {
    if path.starts_with("/open") {
        Verdict::Allowed
    } else {
        Verdict::Denied
    }
}

#[test]
fn test_on_disconnect_enforces_rules_and_validation() {
    let mut b = ephemeral_bench();
    b.rules = locked_rules;
    b.db.set_rules(Vec::new(), false);

    let resp = b.handle_on_disconnect("client1", &hook_msg("/locked", "s", Some(v("\"x\"")), "r1"));
    assert!(error_of(&resp) == Some(ErrorCode::PermissionDenied));

    let resp =
        b.handle_on_disconnect("client1", &hook_msg("/open//x", "s", Some(v("\"x\"")), "r2"));
    assert!(error_of(&resp) == Some(ErrorCode::InvalidData));

    let resp =
        b.handle_on_disconnect("client1", &hook_msg("/open/ok", "s", Some(v("\"v\"")), "r3"));
    assert!(!is_nack(&resp), "allowed onDisconnect should ack");

    b.handle_disconnect("client1");
    assert_eq!(b.get("/open/ok"), Some(j("\"v\"")));
    assert_eq!(b.get("/locked"), None);
}

#[test]
fn test_on_disconnect_caps_per_client() {
    let mut b = ephemeral_bench();
    b.db.set_rules(Vec::new(), false);

    for i in 0..MAX_ON_DISCONNECT_ACTIONS_PER_CLIENT {
        let msg = hook_msg(&format!("/p{}", i), "s", Some(v("\"v\"")), &format!("r{}", i));
        let resp = b.handle_on_disconnect("client1", &msg);
        assert!(!is_nack(&resp), "action {} within cap should ack", i);
    }

    let resp =
        b.handle_on_disconnect("client1", &hook_msg("/overflow", "s", Some(v("\"v\"")), "rovf"));
    assert!(error_of(&resp) == Some(ErrorCode::PayloadTooLarge));

    b.db.add_client_internal("client2", None, "conn2");
    let big = "x".repeat(MAX_ON_DISCONNECT_BYTES_PER_CLIENT + 1);
    let resp = b.handle_on_disconnect(
        "client2",
        &hook_msg("/big", "s", Some(JsonValue::String(big)), "rbig"),
    );
    assert!(error_of(&resp) == Some(ErrorCode::PayloadTooLarge));
}

#[test]
fn test_handle_subscribe() {
    let mut b = ephemeral_bench();
    b.put("/players/abc", r#"{"name": "Alice"}"#);

    b.handle_subscribe("client1", &subscribe_msg("/players/abc", "r1"), None);

    assert!(!b.sent.is_empty(), "Expected at least 1 message, got {}", b.sent.len());
    assert_eq!(b.views.len(), 1);
    match &b.sent[b.sent.len() - 1] {
        ServerMessage::PutEvent { path, relative, value, tag } => {
            assert_eq!(path, "/players/abc");
            assert_eq!(relative, "/");
            assert_eq!(export_json(&node_value(value)), j(r#"{"name": "Alice"}"#));
            assert!(tag.is_none());
        }
        _ => panic!("no snapshot"),
    }
}

#[test]
fn test_handle_unsubscribe() {
    let mut b = ephemeral_bench();
    b.handle_subscribe("client1", &subscribe_msg("/players", "r1"), None);
    assert_eq!(b.views.len(), 1);

    let msg = request(Operation::Unsubscribe, Some("/players"), "r2");
    let reply = b.handle_unsubscribe("client1", &msg);
    assert!(matches!(reply, ServerMessage::Ack { .. }));
    assert_eq!(b.views.len(), 0);
}

#[test]
fn test_subscribe_with_query() {
    let mut b = ephemeral_bench();
    b.put("/players/alice", r#"{"name": "Alice", "score": 200}"#);
    b.put("/players/bob", r#"{"name": "Bob", "score": 100}"#);
    b.put("/players/charlie", r#"{"name": "Charlie", "score": 300}"#);

    // The query picks the two children with the lowest scores.
    let mut picked: Vec<(i64, String)> = b
        .db
        .query_keys(&Path::parse("/players"))
        .into_iter()
        .map(|k| {
            let at = b.get(&format!("/players/{}/score", k)).unwrap();
            (at.as_i64().unwrap(), k)
        })
        .collect();
    picked.sort();
    let keys: Vec<String> = picked.into_iter().take(2).map(|(_, k)| k).collect();

    b.handle_subscribe("client1", &subscribe_msg("/players", "r1"), Some(keys));

    assert!(!b.sent.is_empty(), "Expected at least 1 message, got {}", b.sent.len());
    match &b.sent[b.sent.len() - 1] {
        ServerMessage::PutEvent { value, .. } => {
            let shown = export_json(&node_value(value));
            let obj = shown.as_object().unwrap();
            assert_eq!(obj.len(), 2);
            assert!(obj.contains_key("bob"));
            assert!(obj.contains_key("alice"));
            assert!(!obj.contains_key("charlie"));
        }
        _ => panic!("no snapshot"),
    }
}

#[test]
fn test_disconnect_removes_subscriptions() {
    let mut b = ephemeral_bench();
    b.handle_subscribe("client1", &subscribe_msg("/a", "r1"), None);
    b.handle_subscribe("client1", &subscribe_msg("/b", "r2"), None);
    assert_eq!(b.views.len(), 2);

    b.handle_disconnect("client1");
    assert_eq!(b.views.len(), 0);
    assert_eq!(b.db.client_count(), 0);
}

#[test]
fn test_wal_failed_flag_nacks_set() {
    let mut b = ephemeral_bench();
    b.db.wal.failed = true;

    let resp = b.handle_set("client1", &set_msg("/foo", "\"bar\"", "r1"), false).unwrap();
    assert!(is_nack(&resp));
    assert!(error_of(&resp) == Some(ErrorCode::Unavailable));
    assert!(b.get("/foo").is_none(), "Tree should not have value after WAL-failed NACK");
}

#[test]
fn test_wal_failed_flag_nacks_update() {
    let mut b = ephemeral_bench();
    b.put("/users/1", r#"{"name": "Alice"}"#);
    b.db.wal.failed = true;

    let resp =
        b.handle_update("client1", &update_msg("/users/1", r#"{"age": 30}"#, "r1"), false).unwrap();
    assert!(is_nack(&resp));
    assert!(error_of(&resp) == Some(ErrorCode::Unavailable));
    assert!(b.get("/users/1").unwrap().get("age").is_none());
}

#[test]
fn test_wal_failed_flag_nacks_remove() {
    let mut b = ephemeral_bench();
    b.put("/data", "\"important\"");
    b.db.wal.failed = true;

    let resp = b.handle_remove("client1", &remove_msg("/data", "r1"), false).unwrap();
    assert!(is_nack(&resp));
    assert!(error_of(&resp) == Some(ErrorCode::Unavailable));
    assert_eq!(b.get("/data"), Some(j("\"important\"")));
}

#[test]
fn test_wal_failed_flag_nacks_transaction() {
    let mut b = ephemeral_bench();
    b.db.wal.failed = true;

    let mut msg = transaction_msg(vec![op("s", "/counter", Some("42"))], "r1");
    msg.path = Some("/counter".to_string());
    let resp = b.handle_transaction("client1", &msg).unwrap();
    assert!(is_nack(&resp));
    assert!(error_of(&resp) == Some(ErrorCode::Unavailable));
}

#[test]
fn test_transaction_op_count_cap() {
    let mut b = ephemeral_bench();

    let ops_at_cap: Vec<TransactionOp> = (0..MAX_TRANSACTION_OPS)
        .map(|i| op("s", &format!("/k{}", i), Some(&i.to_string())))
        .collect();
    let resp = b.handle_transaction("client1", &transaction_msg(ops_at_cap, "r1")).unwrap();
    assert!(!is_nack(&resp), "transaction at the cap should not be rejected for size");

    let too_many: Vec<TransactionOp> = (0..=MAX_TRANSACTION_OPS)
        .map(|i| op("s", &format!("/k{}", i), Some(&i.to_string())))
        .collect();
    let resp = b.handle_transaction("client1", &transaction_msg(too_many, "r2")).unwrap();
    assert!(error_of(&resp) == Some(ErrorCode::PayloadTooLarge));
}

#[test]
fn test_wal_failed_allows_volatile_writes() {
    let mut b = ephemeral_bench();
    b.db.set_volatile_paths(vec!["cursors/*".to_string()]);
    b.db.wal.failed = true;

    let mut msg = set_msg("/cursors/player1", r#"{"x": 100, "y": 200}"#, "r1");
    msg.volatile = Some(true);
    let response = b.handle_set("client1", &msg, true);
    assert!(response.is_none(), "Volatile writes should not be NACKed even when WAL failed");
}

#[test]
fn test_wal_recovery_clears_failed_flag() {
    let mut db = Database::new_with_persistence(
        "test".to_string(),
        "test-project".to_string(),
        "data".to_string(),
        limits(),
    );
    assert!(matches!(db.init_wal_writer(), StartStep::OpenLog { .. }));
    db.run_log_opened(true);

    db.wal.failed = true;
    assert!(db.is_wal_failed());

    assert!(db.recovery_entry().is_some());
    db.try_recover_wal(true, true);
    assert!(!db.is_wal_failed(), "WAL should have recovered since disk is fine");

    let mut b = bench(db, serde_json::Value::Null);
    b.db.add_client_internal("client1", None, "conn1");
    let resp = b.handle_set("client1", &set_msg("/test", "\"recovered\"", "r1"), false).unwrap();
    assert!(!is_nack(&resp), "Should not be NACKed after recovery");
    assert_eq!(b.get("/test"), Some(j("\"recovered\"")));
}

#[test]
fn test_wal_recovery_no_op_when_not_failed() {
    let mut db = ephemeral();
    assert!(!db.is_wal_failed());
    assert!(db.recovery_entry().is_none());
    db.try_recover_wal(true, true);
    assert!(!db.is_wal_failed());
}

#[test]
fn test_init_wal_writer_returns_true_for_ephemeral() {
    let db = ephemeral();
    assert!(matches!(db.init_wal_writer(), StartStep::Serve { .. }));
}

#[test]
fn test_init_wal_writer_returns_true_for_valid_dir() {
    let mut db = Database::new_with_persistence(
        "test".to_string(),
        "test-project".to_string(),
        "data".to_string(),
        limits(),
    );
    assert!(matches!(db.init_wal_writer(), StartStep::OpenLog { .. }));
    assert!(matches!(db.run_log_opened(true), StartStep::Serve { .. }));
    assert!(db.wal.writer);
}

#[test]
fn test_eviction_basic_timer() {
    let mut b = make_blob_backed_db(j(r#"{"users": {"alice": {"name": "Alice"}}}"#));

    let loaded = b.promote_path("/users/alice").unwrap();
    assert!(loaded, "Should have loaded from blob");
    assert!(b.is_promoted("/users/alice"));
    assert_eq!(b.get("/users/alice"), Some(j(r#"{"name": "Alice"}"#)));

    let then = b.now - 600_000;
    b.mark_promoted("/users/alice", then);
    b.evict_idle_paths();

    assert!(!b.is_promoted("/users/alice"));
    let node = b.db.store.tree.get(&Path::parse("/users/alice"));
    assert!(node.is_none() || node.unwrap().is_sentinel());
}

#[test]
fn test_eviction_repromotion_resets_timer() {
    let mut b = make_blob_backed_db(j(r#"{"users": {"alice": {"name": "Alice"}}}"#));
    b.promote_path("/users/alice").unwrap();

    b.force_evict("/users/alice");
    assert!(!b.is_promoted("/users/alice"));

    let loaded = b.promote_path("/users/alice").unwrap();
    assert!(loaded, "Should have re-loaded from blob after eviction");
    assert!(b.is_promoted("/users/alice"));

    b.evict_idle_paths();
    assert!(b.is_promoted("/users/alice"), "Freshly re-promoted path should not be evicted");
}

#[test]
fn test_eviction_then_once_read() {
    let mut b = make_blob_backed_db(j(r#"{"users": {"alice": {"name": "Alice", "score": 100}}}"#));
    b.promote_path("/users/alice").unwrap();
    b.force_evict("/users/alice");

    let resp = b.handle_once("client1", &once_msg("/users/alice", "r1"));
    assert!(!is_nack(&resp), "once() should succeed");
    assert_eq!(once_value(&resp), Some(j(r#"{"name": "Alice", "score": 100}"#)));
}

#[test]
fn test_eviction_then_subscribe() {
    let mut b = make_blob_backed_db(j(r#"{"users": {"alice": {"name": "Alice"}}}"#));
    b.promote_path("/users/alice").unwrap();
    b.force_evict("/users/alice");

    b.handle_subscribe("client1", &subscribe_msg("/users/alice", "r1"), None);
    assert_eq!(b.views.len(), 1);
    assert!(!b.sent.is_empty(), "Should have received initial snapshot");
    match &b.sent[b.sent.len() - 1] {
        ServerMessage::PutEvent { value, .. } => {
            assert_eq!(export_json(&node_value(value)), j(r#"{"name": "Alice"}"#));
        }
        _ => panic!("no snapshot"),
    }
}

#[test]
fn test_eviction_then_set() {
    let mut b = make_blob_backed_db(
        j(r#"{"chat": {"msg1": {"text": "hello"}, "msg2": {"text": "world"}}}"#),
    );
    b.promote_path("/chat").unwrap();
    b.force_evict("/chat");

    let resp = b
        .handle_set("client1", &set_msg("/chat/msg3", r#"{"text": "new message"}"#, "r1"), false)
        .unwrap();
    assert!(!is_nack(&resp), "SET should succeed after eviction");
    assert_eq!(b.get("/chat/msg3"), Some(j(r#"{"text": "new message"}"#)));

    b.promote_path_deep("/chat").unwrap();
    let obj = b.get("/chat").unwrap();
    assert_eq!(obj.get("msg1"), Some(&j(r#"{"text": "hello"}"#)));
    assert_eq!(obj.get("msg2"), Some(&j(r#"{"text": "world"}"#)));
    assert_eq!(obj.get("msg3"), Some(&j(r#"{"text": "new message"}"#)));
}

#[test]
fn test_eviction_then_update() {
    let mut b = make_blob_backed_db(j(r#"{"users": {"alice": {"name": "Alice", "score": 100}}}"#));
    b.promote_path("/users/alice").unwrap();
    b.force_evict("/users/alice");

    let resp = b
        .handle_update("client1", &update_msg("/users/alice", r#"{"badge": "gold"}"#, "r1"), false)
        .unwrap();
    assert!(!is_nack(&resp), "UPDATE should succeed after eviction");

    b.promote_path_deep("/users/alice").unwrap();
    let val = b.get("/users/alice").unwrap();
    assert_eq!(val.get("name"), Some(&j("\"Alice\"")));
    assert_eq!(val.get("score"), Some(&j("100")));
    assert_eq!(val.get("badge"), Some(&j("\"gold\"")));
}

#[test]
fn test_eviction_then_delete() {
    let mut b =
        make_blob_backed_db(j(r#"{"users": {"alice": {"name": "Alice"}, "bob": {"name": "Bob"}}}"#));
    b.promote_path("/users").unwrap();
    b.force_evict("/users");

    let resp = b.handle_remove("client1", &remove_msg("/users/alice", "r1"), false).unwrap();
    assert!(!is_nack(&resp), "DELETE should succeed after eviction");

    b.promote_path_deep("/users").unwrap();
    let val = b.get("/users").unwrap();
    assert!(val.get("alice").is_none(), "alice should be deleted");
    assert_eq!(val.get("bob"), Some(&j(r#"{"name": "Bob"}"#)));
}

#[test]
fn test_eviction_subscription_receives_delta_event() {
    let mut b = make_blob_backed_db(j(r#"{"chat": {"msg1": {"text": "hello"}}}"#));
    b.promote_path("/chat").unwrap();
    b.handle_subscribe("client1", &subscribe_msg("/chat", "r1"), None);
    b.events.clear();
    b.force_evict("/chat");

    b.handle_set("client1", &set_msg("/chat/msg2", r#"{"text": "new"}"#, "r2"), false);
    assert!(
        b.events.iter().any(|e| e.contains("msg2")),
        "Subscriber should receive delta event for new child after eviction"
    );
}

#[test]
fn test_eviction_query_view_recompute() {
    let mut b = make_blob_backed_db(j(
        r#"{"players": {"alice": {"name": "Alice", "score": 300},
            "bob": {"name": "Bob", "score": 100}, "charlie": {"name": "Charlie", "score": 200}}}"#,
    ));
    b.promote_path("/players").unwrap();
    let keys = vec!["bob".to_string(), "charlie".to_string()];
    b.handle_subscribe("client1", &subscribe_msg("/players", "r1"), Some(keys));
    b.events.clear();
    b.force_evict("/players");

    let response = b.handle_remove("client1", &remove_msg("/players/bob", "r2"), false);
    assert!(response.is_none() || !is_nack(response.as_ref().unwrap()));
    assert!(!b.events.is_empty(), "Should have received query recompute events after eviction");

    // The view works its children out anew from the data.
    b.promote_path_deep("/players").unwrap();
    let left = b.db.query_keys(&Path::parse("/players"));
    assert_eq!(left, vec!["alice".to_string(), "charlie".to_string()]);
}

#[test]
fn test_eviction_wal_replay_preserves_all_writes() {
    let mut b = make_blob_backed_db(j(r#"{"chat": {"msg1": {"text": "from blob"}}}"#));
    b.handle_set("client1", &set_msg("/chat/msg2", r#"{"text": "from wal 1"}"#, "r1"), false);
    b.force_evict("/chat");
    b.handle_set("client1", &set_msg("/chat/msg3", r#"{"text": "from wal 2"}"#, "r2"), false);

    b.promote_path_deep("/chat").unwrap();
    let val = b.get("/chat").unwrap();
    assert_eq!(val.get("msg1"), Some(&j(r#"{"text": "from blob"}"#)), "blob data preserved");
    assert_eq!(val.get("msg2"), Some(&j(r#"{"text": "from wal 1"}"#)), "first WAL write preserved");
    assert_eq!(val.get("msg3"), Some(&j(r#"{"text": "from wal 2"}"#)), "second WAL write preserved");
}

#[test]
fn test_eviction_orphaned_descendants_replaced_on_promote() {
    let mut b = make_blob_backed_db(j(r#"{"chat": {"msg1": {"text": "original"}}}"#));
    b.handle_set("client1", &set_msg("/chat/msg2", r#"{"text": "orphan"}"#, "r1"), false);
    assert_eq!(b.get("/chat/msg2"), Some(j(r#"{"text": "orphan"}"#)));

    b.promote_path_deep("/chat").unwrap();
    let val = b.get("/chat").unwrap();
    assert_eq!(val.get("msg1"), Some(&j(r#"{"text": "original"}"#)), "blob data present");
    assert_eq!(val.get("msg2"), Some(&j(r#"{"text": "orphan"}"#)), "WAL orphan data present");
}

#[test]
fn test_eviction_selective_only_idle_paths() {
    let mut b = make_blob_backed_db(j(
        r#"{"users": {"alice": {"name": "Alice"}}, "config": {"theme": "dark"},
            "stats": {"views": 42}}"#,
    ));
    b.promote_path("/users").unwrap();
    b.promote_path("/config").unwrap();
    b.promote_path("/stats").unwrap();

    let then = b.now - 600_000;
    b.mark_promoted("/users", then);
    b.mark_promoted("/stats", then);
    b.evict_idle_paths();

    assert!(!b.is_promoted("/users"), "/users should be evicted");
    assert!(!b.is_promoted("/stats"), "/stats should be evicted");
    assert!(b.is_promoted("/config"), "/config should stay");
    assert_eq!(b.get("/config"), Some(j(r#"{"theme": "dark"}"#)));
}

#[test]
fn test_eviction_repeated_once_reads() {
    let mut b = make_blob_backed_db(j(r#"{"data": {"key": "value", "count": 42}}"#));
    let resp1 = b.handle_once("client1", &once_msg("/data", "r1"));
    assert!(!is_nack(&resp1));
    assert_eq!(once_value(&resp1), Some(j(r#"{"key": "value", "count": 42}"#)));

    b.force_evict("/data");

    let resp2 = b.handle_once("client1", &once_msg("/data", "r2"));
    assert!(!is_nack(&resp2));
    assert_eq!(once_value(&resp2), Some(j(r#"{"key": "value", "count": 42}"#)));
}

fn public_rules(db: &Database, path: &str) -> Verdict {
    if !path.starts_with("/data") {
        return Verdict::Denied;
    }
    let tree = TreeAccessor::new(&db.store.tree, db.is_blob_backed());
    if !tree.node_is_loaded("/config/public") {
        return Verdict::NeedsData("/config/public".to_string());
    }
    match tree.get_value("/config/public") {
        Some(JsonValue::Bool(true)) => Verdict::Allowed,
        _ => Verdict::Denied,
    }
}

#[test]
fn test_eviction_rules_evaluation_promotes() {
    let mut b = make_blob_backed_db(
        j(r#"{"config": {"public": true}, "data": {"secret": "value"}}"#),
    );
    b.rules = public_rules;
    b.db.set_rules(Vec::new(), false);

    b.promote_path("/config").unwrap();
    let resp1 = b.handle_once("client1", &once_msg("/data", "r1"));
    assert!(!is_nack(&resp1), "First read should succeed (config promoted)");

    b.force_evict("/config");

    let resp2 =
        b.handle_set("client1", &set_msg("/data/new_key", "\"new_value\"", "r2"), false).unwrap();
    assert!(!is_nack(&resp2), "rules should re-promote /config");
    assert_eq!(b.get("/data/new_key"), Some(j("\"new_value\"")));
}

#[test]
fn test_eviction_transaction_condition_promotes() {
    let mut b = make_blob_backed_db(j(r#"{"counter": 42}"#));
    b.promote_path("/counter").unwrap();
    assert_eq!(b.get("/counter"), Some(j("42")));
    b.force_evict("/counter");

    let mut msg = transaction_msg(
        vec![op("c", "/counter", Some("42")), op("s", "/counter", Some("43"))],
        "r1",
    );
    msg.path = Some("/counter".to_string());
    let resp = b.handle_transaction("client1", &msg).unwrap();
    assert!(!is_nack(&resp), "condition check should promote from blob");
    assert_eq!(b.get("/counter"), Some(j("43")));
}

#[test]
fn test_compaction_complete_trims_old_entries() {
    let mut b = make_blob_backed_db(j(r#"{"x": 1}"#));
    b.set_pending(vec![
        assign_at("/a", "1", 1),
        assign_at("/b", "2", 2),
        assign_at("/c", "3", 3),
        assign_at("/d", "4", 4),
        assign_at("/e", "5", 5),
    ]);
    b.compact(compacted(3));
    let left = &b.db.store.pending_wal_entries;
    assert_eq!(left.len(), 2);
    assert_eq!(left[0].sequence, 4);
    assert_eq!(left[1].sequence, 5);
}

#[test]
fn test_compaction_complete_updates_blob_sequence() {
    let mut b = make_blob_backed_db(j(r#"{"x": 1}"#));
    assert_eq!(b.db.store.blob_sequence, 0);
    b.compact(compacted(42));
    assert_eq!(b.db.store.blob_sequence, 42);
    b.compact(compacted(100));
    assert_eq!(b.db.store.blob_sequence, 100);
}

#[test]
fn test_compaction_complete_no_entries_is_noop() {
    let mut b = make_blob_backed_db(j(r#"{"x": 1}"#));
    assert!(b.db.store.pending_wal_entries.is_empty());
    b.compact(compacted(10));
    assert_eq!(b.db.store.blob_sequence, 10);
    assert!(b.db.store.pending_wal_entries.is_empty());
}

#[test]
fn test_compaction_complete_all_entries_trimmed() {
    let mut b = make_blob_backed_db(j(r#"{"x": 1}"#));
    b.set_pending(vec![assign_at("/a", "1", 1), assign_at("/b", "2", 2)]);
    b.compact(compacted(5));
    assert!(b.db.store.pending_wal_entries.is_empty());
    assert_eq!(b.db.store.blob_sequence, 5);
}

#[test]
fn test_compaction_complete_none_trimmed() {
    let mut b = make_blob_backed_db(j(r#"{"x": 1}"#));
    b.set_pending(vec![assign_at("/a", "10", 10), assign_at("/b", "11", 11)]);
    b.compact(compacted(5));
    assert_eq!(b.db.store.pending_wal_entries.len(), 2);
    assert_eq!(b.db.store.blob_sequence, 5);
}

#[test]
fn test_compaction_complete_progressive_trimming() {
    let mut b = make_blob_backed_db(j(r#"{"x": 1}"#));
    b.set_pending(vec![
        assign_at("/a", "1", 1),
        assign_at("/b", "2", 2),
        assign_at("/c", "3", 3),
        assign_at("/d", "4", 4),
    ]);

    b.compact(compacted(1));
    assert_eq!(b.db.store.pending_wal_entries.len(), 3);
    assert_eq!(b.db.store.blob_sequence, 1);

    b.compact(compacted(3));
    assert_eq!(b.db.store.pending_wal_entries.len(), 1);
    assert_eq!(b.db.store.pending_wal_entries[0].sequence, 4);
    assert_eq!(b.db.store.blob_sequence, 3);

    b.compact(compacted(4));
    assert!(b.db.store.pending_wal_entries.is_empty());
    assert_eq!(b.db.store.blob_sequence, 4);
}

#[test]
fn test_compaction_complete_promotion_uses_remaining_entries() {
    let mut b = make_blob_backed_db(j(r#"{"users": {"alice": {"name": "Alice"}}}"#));
    b.set_pending(vec![
        assign_at("/users/alice/score", "100", 1),
        assign_at("/users/bob", r#"{"name": "Bob"}"#, 2),
    ]);

    b.compact(compacted(1));
    assert_eq!(b.db.store.pending_wal_entries.len(), 1);
    assert_eq!(b.db.store.pending_wal_entries[0].path, "/users/bob");

    let loaded = b.promote_path("/users").unwrap();
    assert!(loaded);
    assert!(b.get("/users/alice").is_some(), "Alice should exist from blob");
    assert_eq!(b.get("/users/bob"), Some(j(r#"{"name": "Bob"}"#)));
}

#[test]
fn test_shallow_once_basic_blob() {
    let mut b = make_blob_backed_db(j(
        r#"{"characters": {"alice": {"hp": 100}}, "chat": {"msg1": {"text": "hello"}},
            "config": {"mode": "dark"}}"#,
    ));
    let resp = b.handle_once("client1", &shallow_once_msg("/", "r1"));
    assert!(!is_nack(&resp), "Shallow once should succeed");
    let val = once_value(&resp).unwrap();
    let obj = val.as_object().unwrap();
    assert_eq!(obj.len(), 3);
    assert_is_size_marker(&obj["characters"], "characters");
    assert_is_size_marker(&obj["chat"], "chat");
    assert_is_size_marker(&obj["config"], "config");
}

#[test]
fn test_shallow_once_nested_path() {
    let mut b = make_blob_backed_db(j(
        r#"{"characters": {"alice": {"hp": 100, "name": "Alice"},
            "bob": {"hp": 50, "name": "Bob"}}}"#,
    ));
    let resp = b.handle_once("client1", &shallow_once_msg("/characters", "r1"));
    assert!(!is_nack(&resp));
    let val = once_value(&resp).unwrap();
    let obj = val.as_object().unwrap();
    assert_eq!(obj.len(), 2);
    assert_is_size_marker(&obj["alice"], "alice");
    assert_is_size_marker(&obj["bob"], "bob");
}

#[test]
fn test_shallow_once_nonexistent_path() {
    let mut b = make_blob_backed_db(j(r#"{"users": {"alice": {"hp": 100}}}"#));
    let resp = b.handle_once("client1", &shallow_once_msg("/nonexistent", "r1"));
    assert!(!is_nack(&resp));
    assert_eq!(once_value(&resp).unwrap(), serde_json::Value::Null);
}

#[test]
fn test_shallow_once_leaf_value() {
    let mut b = make_blob_backed_db(j(r#"{"users": {"alice": {"hp": 100, "name": "Alice"}}}"#));
    let resp = b.handle_once("client1", &shallow_once_msg("/users/alice/hp", "r1"));
    assert!(!is_nack(&resp));
    assert_eq!(once_value(&resp).unwrap(), j("100"));
}

#[test]
fn test_shallow_once_wal_adds_children() {
    let mut b = make_blob_backed_db(j(r#"{"characters": {"alice": {"hp": 100}}}"#));
    b.handle_set("client1", &set_msg("/characters/bob", r#"{"hp": 50}"#, "w1"), false);

    let resp = b.handle_once("client1", &shallow_once_msg("/characters", "r1"));
    assert!(!is_nack(&resp));
    let val = once_value(&resp).unwrap();
    let obj = val.as_object().unwrap();
    assert_eq!(obj.len(), 2);
    assert_is_size_marker(&obj["alice"], "alice from blob");
    assert_is_size_marker(&obj["bob"], "bob from WAL");
}

#[test]
fn test_shallow_once_wal_deletes_child() {
    let mut b =
        make_blob_backed_db(j(r#"{"characters": {"alice": {"hp": 100}, "bob": {"hp": 50}}}"#));
    b.handle_remove("client1", &remove_msg("/characters/bob", "w1"), false);

    let resp = b.handle_once("client1", &shallow_once_msg("/characters", "r1"));
    assert!(!is_nack(&resp));
    let val = once_value(&resp).unwrap();
    let obj = val.as_object().unwrap();
    assert_eq!(obj.len(), 1);
    assert_is_size_marker(&obj["alice"], "alice");
}

#[test]
fn test_shallow_once_data_already_in_tree() {
    let mut b =
        make_blob_backed_db(j(r#"{"users": {"alice": {"name": "Alice"}, "bob": {"name": "Bob"}}}"#));
    b.promote_path_deep("/users").unwrap();

    let resp = b.handle_once("client1", &shallow_once_msg("/users", "r1"));
    assert!(!is_nack(&resp));
    let val = once_value(&resp).unwrap();
    let obj = val.as_object().unwrap();
    assert_eq!(obj.len(), 2);
    assert_is_size_marker(&obj["alice"], "alice");
    assert_is_size_marker(&obj["bob"], "bob");
}

#[test]
fn test_shallow_once_ephemeral_db() {
    let mut b = ephemeral_bench();
    b.put("/a", "1");
    b.put("/b", "\"hello\"");
    b.put("/c", r#"{"nested": true}"#);

    let resp = b.handle_once("client1", &shallow_once_msg("/", "r1"));
    assert!(!is_nack(&resp));
    let val = once_value(&resp).unwrap();
    let obj = val.as_object().unwrap();
    assert_eq!(obj.len(), 3);
    assert_eq!(obj["a"], j("1"));
    assert_eq!(obj["b"], j("\"hello\""));
    assert_is_size_marker(&obj["c"], "c");
}

#[test]
fn test_shallow_once_wal_deep_descendant() {
    let mut b = make_blob_backed_db(j(r#"{"data": {}}"#));
    b.handle_set("client1", &set_msg("/data/users/alice/score", "100", "w1"), false);

    let resp = b.handle_once("client1", &shallow_once_msg("/data", "r1"));
    assert!(!is_nack(&resp));
    let val = once_value(&resp).unwrap();
    let obj = val.as_object().unwrap();
    assert_eq!(obj.len(), 1);
    assert_is_size_marker(&obj["users"], "users");
}

#[test]
fn test_shallow_once_wal_set_replaces_node() {
    let mut b = make_blob_backed_db(j(r#"{"config": {"old_key1": "a", "old_key2": "b"}}"#));
    b.handle_set("client1", &set_msg("/config", r#"{"new_key": "value"}"#, "w1"), false);

    let resp = b.handle_once("client1", &shallow_once_msg("/config", "r1"));
    assert!(!is_nack(&resp));
    assert_eq!(once_value(&resp).unwrap(), j(r#"{"new_key": "value"}"#));
}

#[test]
fn test_shallow_once_mixed_children() {
    let mut b = make_blob_backed_db(j(
        r#"{"game": {"title": "My Game", "version": 2, "active": true,
            "characters": {"alice": {"hp": 100}}, "settings": {"volume": 80}}}"#,
    ));
    let resp = b.handle_once("client1", &shallow_once_msg("/game", "r1"));
    assert!(!is_nack(&resp));
    let val = once_value(&resp).unwrap();
    let obj = val.as_object().unwrap();
    assert_eq!(obj.len(), 5);
    assert_eq!(obj["title"], j("\"My Game\""));
    assert_eq!(obj["version"], j("2"));
    assert_eq!(obj["active"], j("true"));
    assert_is_size_marker(&obj["characters"], "characters");
    assert_is_size_marker(&obj["settings"], "settings");
}

#[test]
fn test_shallow_once_string_leaf() {
    let mut b = make_blob_backed_db(j(r#"{"message": {"body": "Hello!"}}"#));
    let resp = b.handle_once("client1", &shallow_once_msg("/message/body", "r1"));
    assert!(!is_nack(&resp));
    assert_eq!(once_value(&resp).unwrap(), j("\"Hello!\""));
}

fn sorcerers(ids: &[&str]) -> serde_json::Value {
    let mut chars = serde_json::Map::new();
    for id in ids {
        let text = format!(
            "{{\"class_id\": \"sorcerer\", \"character_name\": \"Char-{}\", \
             \"last_played_ms\": 1000, \"zone_id\": \"greenhollow\", \"level\": 30}}",
            id
        );
        chars.insert(id.to_string(), j(&text));
    }
    serde_json::Value::Object(chars)
}

fn nested(keys: &[&str], inner: serde_json::Value) -> serde_json::Value {
    let mut out = inner;
    for k in keys.iter().rev() {
        let mut map = serde_json::Map::new();
        map.insert(k.to_string(), out);
        out = serde_json::Value::Object(map);
    }
    out
}

#[test]
fn test_repro_transaction_then_once_returns_partial() {
    let ids = ["c1", "c2", "c3", "c4", "c5", "c6", "c7", "c8"];
    let mut blob = nested(&["accounts", "A", "characters"], sorcerers(&ids));
    blob.as_object_mut()
        .unwrap()
        .insert("character_names".to_string(), j(r#"{"sorcerertest": "c1"}"#));
    let mut b = make_blob_backed_db(blob);

    let msg = transaction_msg(
        vec![
            op("s", "/accounts/A/characters/c1/level", Some("99")),
            op("s", "/accounts/A/characters/c1/zone_id", Some("\"newzone\"")),
            op("s", "/accounts/A/characters/c1/last_played_ms", Some("9999")),
        ],
        "tx1",
    );
    let resp = b.handle_transaction("client1", &msg).unwrap();
    assert!(!is_nack(&resp), "tx should ack");

    let response = b.handle_once("client1", &once_msg("/accounts/A/characters", "r1"));
    assert!(!is_nack(&response), "once() should succeed");
    let val = once_value(&response).unwrap();
    let obj = val.as_object().expect("expected object response");
    assert_eq!(obj.len(), 8, "should have 8 chars from blob, got {}: {}", obj.len(), val);
    for id in &ids {
        let c = obj.get(*id).unwrap_or_else(|| panic!("missing char {}", id));
        for f in &["class_id", "character_name", "last_played_ms", "zone_id", "level"] {
            assert!(c.get(f).is_some(), "char {} missing {}: {}", id, f, c);
        }
    }
    assert_eq!(obj["c1"]["level"], j("99"));
    assert_eq!(obj["c1"]["class_id"], j("\"sorcerer\""));
}

#[test]
fn test_repro_transaction_update_loses_blob_fields() {
    let mut b = make_blob_backed_db(j(
        r#"{"characters": {"c1": {"class_id": "sorcerer", "character_name": "Alice",
            "level": 30, "zone_id": "greenhollow", "last_played_ms": 1000}}}"#,
    ));
    let msg = transaction_msg(
        vec![op("u", "/characters/c1", Some(r#"{"level": 99, "zone_id": "newzone"}"#))],
        "tx1",
    );
    let resp = b.handle_transaction("client1", &msg).unwrap();
    assert!(!is_nack(&resp), "tx should ack");

    let response = b.handle_once("client1", &once_msg("/characters/c1", "r1"));
    assert!(!is_nack(&response));
    let val = once_value(&response).unwrap();
    assert_eq!(val.get("class_id"), Some(&j("\"sorcerer\"")));
    assert_eq!(val.get("character_name"), Some(&j("\"Alice\"")));
    assert_eq!(val.get("last_played_ms"), Some(&j("1000")));
    assert_eq!(val.get("level"), Some(&j("99")));
    assert_eq!(val.get("zone_id"), Some(&j("\"newzone\"")));
}

fn tracked_as_sentinel(b: &Bench, path: &str) -> bool {
    b.db.store.sentinel_paths.contains(&Path::parse(path))
}

#[test]
fn test_repro_transaction_delete_leaks_sentinel_tracking() {
    let mut b = make_blob_backed_db(j(
        r#"{"users": {"alice": {"name": "Alice", "score": 100},
            "bob": {"name": "Bob", "score": 200}}}"#,
    ));
    b.promote_path("/users").unwrap();
    assert!(tracked_as_sentinel(&b, "/users/alice"), "shallow promote should track alice");
    assert!(tracked_as_sentinel(&b, "/users/bob"), "shallow promote should track bob");

    let msg = transaction_msg(vec![op("d", "/users/alice", None)], "tx1");
    let resp = b.handle_transaction("client1", &msg).unwrap();
    assert!(!is_nack(&resp), "delete tx should ack");
    assert!(!tracked_as_sentinel(&b, "/users/alice"), "DELETE should remove the entry");
}

#[test]
fn test_repro_transaction_condition_on_container_path_fails() {
    let mut b =
        make_blob_backed_db(j(r#"{"config": {"feature_a": {"enabled": true}, "theme": "dark"}}"#));
    let msg = transaction_msg(
        vec![
            op("c", "/config", Some(r#"{"feature_a": {"enabled": true}, "theme": "dark"}"#)),
            op("s", "/marker", Some("\"did_run\"")),
        ],
        "tx1",
    );
    let resp = b.handle_transaction("client1", &msg).unwrap();
    assert!(!is_nack(&resp), "condition on container path should pass");
    assert!(error_of(&resp).is_none());
}

#[test]
fn test_repro_transaction_then_sibling_once_returns_null() {
    let mut b = make_blob_backed_db(
        j(r#"{"character_names": {"sorcerertest": "c1", "alice": "c2", "bob": "c3"}}"#),
    );
    let msg = transaction_msg(vec![op("s", "/character_names/newchar", Some("\"c99\""))], "tx1");
    let resp = b.handle_transaction("client1", &msg).unwrap();
    assert!(!is_nack(&resp), "tx should ack");

    let response = b.handle_once("client1", &once_msg("/character_names/sorcerertest", "r1"));
    assert!(!is_nack(&response), "once() should succeed");
    assert_eq!(once_value(&response).unwrap(), j("\"c1\""));
}

#[test]
fn test_find_sentinel_tracking_violations_clean_tree() {
    let b = make_blob_backed_db(j(r#"{"a": 1}"#));
    assert!(b.db.find_sentinel_tracking_violations().is_empty());
}

#[test]
fn test_find_sentinel_tracking_violations_after_promote() {
    let mut b = make_blob_backed_db(j(r#"{"users": {"alice": {"name": "Alice"}}}"#));
    b.promote_path_deep("/users/alice").unwrap();
    assert!(b.db.find_sentinel_tracking_violations().is_empty());
}

#[test]
fn test_find_sentinel_tracking_violations_detects_stale_missing() {
    let mut b = make_blob_backed_db(j(r#"{"a": 1}"#));
    b.db.store.tree.set_node(&Path::parse("/a/b"), Node::empty_sentinel(), true);

    let violations = b.db.find_sentinel_tracking_violations();
    assert!(!violations.is_empty(), "untracked in-tree Sentinel must be reported");
    assert!(violations.iter().any(|p| p == "/a/b"), "got: {:?}", violations);
}

#[test]
fn test_promote_path_shallow_pathnotfound_preserves_primitive_parent() {
    let mut b = make_blob_backed_db(j(r#"{"unrelated": "value"}"#));
    b.db.store.tree.set_lazy(&Path::parse("/a"), &v("5"));
    assert_eq!(b.get("/a"), Some(j("5")), "precondition: /a is the primitive 5");

    let _ = b.promote_path_shallow("/a/b");
    assert_eq!(b.get("/a"), Some(j("5")), "primitive /a must be preserved");
}

#[test]
fn test_promote_path_shallow_pathnotfound_writes_marker_through_absent_ancestors() {
    let mut b = make_blob_backed_db(j(r#"{"a": {"x": 1}}"#));
    b.promote_path("/a").unwrap();

    let blob_backed = b.db.is_blob_backed();
    assert!(TreeAccessor::new(&b.db.store.tree, blob_backed).node_is_loaded("/a"));
    assert_eq!(b.get("/a/b"), None);

    b.promote_path_shallow("/a/b/c/d").unwrap();

    assert_eq!(b.get("/a/b/c/d"), Some(serde_json::Value::Null), "leaf must be marked as Null");
    assert_eq!(b.get("/a/x"), Some(j("1")), "unrelated existing data must be preserved");
}

#[test]
fn test_selective_eviction_preserves_hot_subtree() {
    let ids = ["a", "b", "c", "d", "e", "f", "g", "h"];
    let mut b =
        make_blob_backed_db(nested(&["accounts", "a1", "characters"], sorcerers(&ids)));
    let parent = "/accounts/a1/characters";
    b.promote_path_deep(parent).unwrap();

    let stale = b.now - 600_000;
    let fresh = b.now;
    b.mark_promoted(parent, stale);
    for id in &ids[..4] {
        b.mark_promoted(&format!("{}/{}", parent, id), stale);
    }
    for id in &ids[4..] {
        b.mark_promoted(&format!("{}/{}", parent, id), fresh);
    }

    let before: Vec<(String, serde_json::Value)> = ids[4..]
        .iter()
        .map(|id| {
            let p = format!("{}/{}", parent, id);
            let x = b.get(&p).expect("hot path must exist before eviction");
            (p, x)
        })
        .collect();

    b.evict_idle_paths();

    for (p, expected) in &before {
        let after = b.get(p).unwrap_or_else(|| panic!("hot path {} disappeared", p));
        assert_eq!(&after, expected, "selective eviction corrupted hot path {}", p);
        assert!(!b.db.store.has_sentinel_at_or_below(p));
    }
    for id in &ids[..4] {
        let p = format!("{}/{}", parent, id);
        match b.db.store.tree.get(&Path::parse(&p)) {
            Some(Node::Sentinel(children)) => assert!(children.is_empty()),
            _ => panic!("cold path {} should be an empty sentinel", p),
        }
    }
}

#[test]
fn test_drain_inbox_with_error_disconnects_pending_clients() {
    let inbox = vec![
        InboxMessage::client_added("client1".to_string(), None, "conn1".to_string()),
        InboxMessage::client_added("client2".to_string(), None, "conn2".to_string()),
    ];
    let mut closed = 0;
    for m in &inbox {
        assert!(m.route() == Route::AddClient);
        match drain_reply(m.add_client, m.has_connection, "Database failed to initialize") {
            Some(reply) => {
                assert!(error_of(&reply) == Some(ErrorCode::Unavailable));
                assert_eq!(refusal(&reply), "Database failed to initialize");
                closed += 1;
            }
            None => panic!("the client was told nothing"),
        }
    }
    assert_eq!(closed, 2);
}

#[test]
fn test_repeated_requests_are_done_once() {
    let mut b = ephemeral_bench();
    b.put("/n", "1");
    let msg = set_msg("/n", r#"{".sv": {"increment": 1}}"#, "r1");
    assert!(!is_nack(&b.handle_set("client1", &msg, false).unwrap()));
    assert_eq!(b.get("/n"), Some(j("2")));
    // The same request on the same connection is acknowledged and not done again.
    let again = b.handle_set("client1", &msg, false).unwrap();
    assert!(matches!(again, ServerMessage::Ack { .. }));
    assert_eq!(b.get("/n"), Some(j("2")));
    // A request without an id is done every time, and not answered.
    let mut nameless = msg;
    nameless.request_id = None;
    assert!(b.handle_set("client1", &nameless, false).is_none());
    assert!(b.handle_set("client1", &nameless, false).is_none());
    assert_eq!(b.get("/n"), Some(j("4")));
    // Another connection has its own requests.
    b.db.add_client_internal("client2", None, "conn2");
    b.handle_set("client2", &set_msg("/n", "9", "r1"), false);
    assert_eq!(b.get("/n"), Some(j("9")));
}

#[test]
fn test_writes_on_refused_ones_are_dropped() {
    let mut b = ephemeral_bench();
    let bad = b.handle_set("client1", &set_msg("/a#b", "1", "r1"), false).unwrap();
    assert_eq!(refusal(&bad), "invalid path or key");
    let mut next = set_msg("/x", "2", "r2");
    next.pending_writes = Some(vec!["r0".to_string(), "r1".to_string()]);
    assert!(b.handle_set("client1", &next, false).is_none());
    assert_eq!(b.get("/x"), None);
    let mut tx = transaction_msg(vec![op("s", "/x", Some("1"))], "r3");
    tx.pending_writes = Some(vec!["r1".to_string()]);
    assert!(b.handle_transaction("client1", &tx).is_none());
    next.pending_writes = Some(vec!["r0".to_string()]);
    assert!(!is_nack(&b.handle_set("client1", &next, false).unwrap()));
}

#[test]
fn test_refusals_of_sets() {
    let mut b = ephemeral_bench();
    let deep = "/a".repeat(33);
    let r = b.handle_set("client1", &set_msg(&deep, "1", "r1"), false).unwrap();
    assert_eq!(refusal(&r), "invalid path or key");
    let r = b
        .handle_set("client1", &set_msg(&"/a".repeat(32), r#"{"b": 1}"#, "r2"), false)
        .unwrap();
    assert_eq!(refusal(&r), "write exceeds maximum path depth");
    let r = b
        .handle_set("client1", &set_msg("/a", r#"{".value": 1, "x": 2}"#, "r3"), false)
        .unwrap();
    assert!(refusal(&r).starts_with("Data at /a contains \".value\""));
    let r = b.handle_set("client1", &set_msg("/a", r#"{".sv": "nope"}"#, "r4"), false).unwrap();
    assert_eq!(refusal(&r), "unknown server value: String(\"nope\")");
    b.db.refresh_data_size(1_099_511_627_776);
    let r = b.handle_set("client1", &set_msg("/a", "1", "r5"), false).unwrap();
    assert!(error_of(&r) == Some(ErrorCode::DatabaseFull));
    // Removals are still accepted at the limit.
    let r = b.handle_remove("client1", &remove_msg("/a", "r6"), false).unwrap();
    assert!(!is_nack(&r));
    b.db.refresh_data_size(0);
    b.db.set_rules(Vec::new(), false);
    b.rules = locked_rules;
    let r = b.handle_set("client1", &set_msg("/a", "1", "r7"), false).unwrap();
    assert!(error_of(&r) == Some(ErrorCode::PermissionDenied));
    assert_eq!(b.get("/a"), None);
    // Volatile writes are refused without a word.
    let mut quiet = set_msg("/a", "1", "r8");
    quiet.volatile = Some(true);
    assert!(b.handle_set("client1", &quiet, true).is_none());
}

#[test]
fn test_durable_writes_are_charged() {
    let mut b = make_blob_backed_db(j("{}"));
    b.charge_fails = true;
    let r = b.handle_set("client1", &set_msg("/a", "1", "r1"), false).unwrap();
    assert!(error_of(&r) == Some(ErrorCode::RateLimited));
    assert_eq!(refusal(&r), "write rate limit exceeded; retry shortly");
    let r = b
        .handle_transaction("client1", &transaction_msg(vec![op("s", "/a", Some("1"))], "r2"))
        .unwrap();
    assert!(error_of(&r) == Some(ErrorCode::RateLimited));
    assert_eq!(b.get("/a"), None);
    assert!(b.db.store.pending_wal_entries.is_empty());
}

#[test]
fn test_a_failing_log_is_noticed() {
    let mut b = make_blob_backed_db(j("{}"));
    b.log_fails = true;
    let r = b.handle_set("client1", &set_msg("/a", "1", "r1"), false).unwrap();
    assert!(error_of(&r) == Some(ErrorCode::Unavailable));
    assert_eq!(refusal(&r), "Storage unavailable (WAL I/O failure)");
    assert!(b.db.is_wal_failed());
    // The write left no trace: nothing was written, told or taken for done.
    assert_eq!(b.get("/a"), None);
    assert!(b.db.store.pending_wal_entries.is_empty());
    assert!(b.events.is_empty());
    assert!(!b.db.is_write_processed("client1", "r1"));
    assert!(b.db.is_write_tainted("client1", &Some(vec!["r1".to_string()])));
    let r = b.handle_set("client1", &set_msg("/b", "1", "r2"), false).unwrap();
    assert!(error_of(&r) == Some(ErrorCode::Unavailable));
    assert_eq!(refusal(&r), "Storage unavailable (WAL I/O failure)");
}

#[test]
fn test_writes_that_the_log_refuses_are_not_carried_out() {
    let mut b = make_blob_backed_db(j("{}"));
    b.handle_set("client1", &set_msg("/a", r#"{"x": 1}"#, "r1"), false);
    b.log_fails = true;
    let r = b.handle_update("client1", &update_msg("/a", r#"{"x": 2}"#, "r2"), false).unwrap();
    assert!(error_of(&r) == Some(ErrorCode::Unavailable));
    b.db.try_recover_wal(true, true);
    let r = b.handle_remove("client1", &remove_msg("/a", "r3"), false).unwrap();
    assert!(error_of(&r) == Some(ErrorCode::Unavailable));
    b.db.try_recover_wal(true, true);
    let ops = vec![op("s", "/a/x", Some("3")), op("d", "/a", None)];
    let r = b.handle_transaction("client1", &transaction_msg(ops, "r4")).unwrap();
    assert!(error_of(&r) == Some(ErrorCode::Unavailable));
    assert_eq!(b.get("/a/x"), Some(j("1")));
    assert_eq!(b.db.store.pending_wal_entries.len(), 1);
    // Once the log works again the same requests go through.
    b.db.try_recover_wal(true, true);
    b.log_fails = false;
    let r = b.handle_update("client1", &update_msg("/a", r#"{"x": 2}"#, "r2"), false).unwrap();
    assert!(!is_nack(&r));
    assert_eq!(b.get("/a/x"), Some(j("2")));
}

#[test]
fn test_one_refused_entry_stops_a_whole_transaction() {
    let mut b = make_blob_backed_db(j("{}"));
    let ops = vec![op("s", "/a", Some("1")), op("s", "/b", Some("2"))];
    let msg = transaction_msg(ops, "r1");
    let changes = match b.db.resolve_transaction(&msg, 0, &Vec::new()) {
        TransactionStep::Append(changes) => changes,
        _ => panic!("expected the writes"),
    };
    let outcomes =
        vec![AppendOutcome::Appended { sequence: 1, bytes: 10 }, AppendOutcome::Failed];
    let settings = Settings::default();
    let done =
        b.db.commit_transaction("client1", &msg, &changes, &outcomes, None, &settings);
    assert!(error_of(&done.reply.unwrap()) == Some(ErrorCode::Unavailable));
    assert!(done.events.is_empty());
    assert_eq!(b.get("/a"), None);
    assert_eq!(b.get("/b"), None);
    assert!(b.db.is_wal_failed());
    assert!(!b.db.is_write_processed("client1", "r1"));
}

#[test]
fn test_writes_wait_for_the_flush_where_they_are_told_to() {
    let mut b = make_blob_backed_db(j("{}"));
    set_wal_sync_interval_ms(&mut b.settings, 0);
    b.sync = Some(SyncOutcome::Synced { rotated: false });
    let r = b.handle_set("client1", &set_msg("/a", "1", "r1"), false).unwrap();
    assert!(!is_nack(&r));
    assert!(!b.db.wants_sync());
    // The log holds what it could not flush, but the client is not told that it is safe.
    b.sync = Some(SyncOutcome::Failed);
    let r = b.handle_set("client1", &set_msg("/b", "2", "r2"), false).unwrap();
    assert!(error_of(&r) == Some(ErrorCode::Unavailable));
    assert!(b.db.is_wal_failed());
    assert_eq!(b.get("/b"), Some(j("2")));
    assert_eq!(b.db.store.pending_wal_entries.len(), 2);
    assert!(!b.db.is_write_processed("client1", "r2"));
    b.db.try_recover_wal(true, true);
    b.sync = None;
    let ops = vec![op("s", "/c", Some("3"))];
    let r = b.handle_transaction("client1", &transaction_msg(ops, "r3")).unwrap();
    assert!(error_of(&r) == Some(ErrorCode::Unavailable));
    b.sync = Some(SyncOutcome::Synced { rotated: true });
    let ops = vec![op("s", "/c", Some("3"))];
    let r = b.handle_transaction("client1", &transaction_msg(ops, "r4")).unwrap();
    assert!(!is_nack(&r));
}

#[test]
fn test_conditional_sets() {
    let mut b = make_blob_backed_db(j(r#"{"a": {"x": 1}}"#));
    let hash = lark_server::hash::compute_value_hash(&v(r#"{"x": 1}"#));
    let mut msg = set_msg("/a", "2", "r1");
    msg.hash = Some("0000".to_string());
    let r = b.handle_set("client1", &msg, false).unwrap();
    assert_eq!(refusal(&r), "data changed since read (hash mismatch)");
    // A failed condition is not remembered: the request can be tried again.
    msg.hash = Some(hash);
    let r = b.handle_set("client1", &msg, false).unwrap();
    assert!(!is_nack(&r));
    assert_eq!(b.get("/a"), Some(j("2")));

    let mut fresh = set_msg("/a", "3", "r2");
    fresh.hash_provided = Some(true);
    fresh.hash = Some(String::new());
    let r = b.handle_set("client1", &fresh, false).unwrap();
    assert_eq!(refusal(&r), "data exists (speculative write rejected)");
    fresh.path = Some("/new".to_string());
    assert!(!is_nack(&b.handle_set("client1", &fresh, false).unwrap()));

    b.force_evict("/a");
    b.blob_fails = true;
    let mut unread = set_msg("/a", "4", "r3");
    unread.hash = Some("0000".to_string());
    let r = b.handle_set("client1", &unread, false).unwrap();
    assert!(refusal(&r).starts_with("Failed to load data for hash verification: "));
}

#[test]
fn test_merges() {
    let mut b = ephemeral_bench();
    b.put("/a", r#"{"x": 1, "y": {"z": 2}}"#);
    let msg = update_msg("/a", r#"{"x": null, "w": 3, "t": {".sv": "timestamp"}}"#, "r1");
    assert!(!is_nack(&b.handle_update("client1", &msg, false).unwrap()));
    assert_eq!(b.get("/a"), Some(j(r#"{"y": {"z": 2}, "w": 3, "t": 1234}"#)));
    let r = b.handle_update("client1", &update_msg("/a", "5", "r2"), false).unwrap();
    assert_eq!(refusal(&r), "update requires an object value");
    // Where the merge as a whole is denied, each member is asked about by itself.
    b.db.set_rules(Vec::new(), false);
    b.rules = members_only_rules;
    assert!(!is_nack(&b.handle_update("client1", &update_msg("/a", r#"{"ok1": 1, "ok2": 2}"#, "r3"), false).unwrap()));
    let r = b
        .handle_update("client1", &update_msg("/a", r#"{"ok1": 5, "bad": 6}"#, "r4"), false)
        .unwrap();
    assert!(error_of(&r) == Some(ErrorCode::PermissionDenied));
    assert_eq!(b.get("/a/ok1"), Some(j("1")));
    assert_eq!(b.get("/a/bad"), None);
}

fn members_only_rules(_db: &Database, path: &str) -> Verdict {
    if path.starts_with("/a/ok") {
        Verdict::Allowed
    } else {
        Verdict::Denied
    }
}

#[test]
fn test_transactions_go_through_together_or_not_at_all() {
    let mut b = ephemeral_bench();
    b.put("/n", "1");
    let r = b
        .handle_transaction(
            "client1",
            &transaction_msg(
                vec![
                    op("s", "/a", Some("1")),
                    op("s", "/n", Some(r#"{".sv": {"increment": 1}}"#)),
                    op("s", "/n", Some(r#"{".sv": {"increment": 1}}"#)),
                    op("d", "/a", None),
                ],
                "r1",
            ),
        )
        .unwrap();
    assert!(!is_nack(&r));
    // Each operation sees what the ones before it did.
    assert_eq!(b.get("/n"), Some(j("3")));
    assert_eq!(b.get("/a"), None);

    let r = b
        .handle_transaction(
            "client1",
            &transaction_msg(
                vec![op("s", "/b", Some("1")), op("s", "/c", Some(r#"{".sv": "nope"}"#))],
                "r2",
            ),
        )
        .unwrap();
    assert_eq!(refusal(&r), "unknown server value: String(\"nope\")");
    assert_eq!(b.get("/b"), None);

    let r = b
        .handle_transaction(
            "client1",
            &transaction_msg(vec![op("s", "/b", Some("1")), op("c", "/n", Some("7"))], "r3"),
        )
        .unwrap();
    assert_eq!(refusal(&r), "condition not met");
    assert!(error_of(&r) == Some(ErrorCode::ConditionFailed));
    assert_eq!(b.get("/b"), None);
}

#[test]
fn test_conditions_of_transactions() {
    let mut b = make_blob_backed_db(j(r#"{"a": {"x": 1}}"#));
    let with_hash = |path: &str, hash: String| TransactionOp {
        op: "c".to_string(),
        path: path.to_string(),
        value: None,
        hash: Some(hash),
    };
    let good = lark_server::hash::compute_value_hash(&v(r#"{"x": 1}"#));
    let r = b
        .handle_transaction(
            "client1",
            &transaction_msg(vec![with_hash("/a", good), op("s", "/m", Some("1"))], "r1"),
        )
        .unwrap();
    assert!(!is_nack(&r));
    let r = b
        .handle_transaction(
            "client1",
            &transaction_msg(vec![with_hash("/a", "00".to_string())], "r2"),
        )
        .unwrap();
    assert_eq!(refusal(&r), "hash mismatch");
    let r = b
        .handle_transaction("client1", &transaction_msg(vec![op("c", "/a", None)], "r3"))
        .unwrap();
    assert_eq!(refusal(&r), "expected null but path exists");
    let r = b
        .handle_transaction(
            "client1",
            &transaction_msg(vec![op("c", "/none", None), op("s", "/none", Some("1"))], "r4"),
        )
        .unwrap();
    assert!(!is_nack(&r));
    b.blob_fails = true;
    b.force_evict("/a");
    let r = b
        .handle_transaction("client1", &transaction_msg(vec![op("c", "/a", None)], "r5"))
        .unwrap();
    assert!(refusal(&r).starts_with("Failed to load data for condition check: "));
}

#[test]
fn test_malformed_transactions() {
    let mut b = ephemeral_bench();
    let r = b
        .handle_transaction("client1", &request(Operation::Transaction, None, "r1"))
        .unwrap();
    assert_eq!(refusal(&r), "missing operations");
    let r = b.handle_transaction("client1", &transaction_msg(vec![], "r2")).unwrap();
    assert_eq!(refusal(&r), "empty transaction");
    let r = b
        .handle_transaction("client1", &transaction_msg(vec![op("s", "/a//b", Some("1"))], "r3"))
        .unwrap();
    assert!(error_of(&r) == Some(ErrorCode::InvalidData));
    b.db.set_rules(Vec::new(), false);
    b.rules = locked_rules;
    let r = b
        .handle_transaction("client1", &transaction_msg(vec![op("s", "/a", Some("1"))], "r4"))
        .unwrap();
    assert_eq!(refusal(&r), "write permission denied");
}

#[test]
fn test_refusals_of_reads() {
    let mut b = make_blob_backed_db(j(r#"{"a": {"x": 1}}"#));
    let r = b.handle_once("client1", &once_msg("/a//b", "r1"));
    assert_eq!(refusal(&r), "invalid path");
    b.blob_fails = true;
    let r = b.handle_once("client1", &once_msg("/a", "r2"));
    assert!(refusal(&r).starts_with("Failed to load data for read: "));
    let r = b.handle_once("client1", &shallow_once_msg("/a", "r3"));
    assert!(refusal(&r).starts_with("Failed to read shallow data: "));
    b.handle_subscribe("client1", &subscribe_msg("/a", "r4"), None);
    assert!(refusal(&b.sent[0]).starts_with("Failed to load data for subscription: "));
    assert!(b.views.is_empty());
    b.blob_fails = false;
    let r = b.db.answer_once(&once_msg("/a", "r5"), QueryOutcome::LimitTooLarge(10001));
    assert_eq!(refusal(&r), "Query limit 10001 exceeds maximum allowed (10000)");
    match b.db.subscribe_entered(&subscribe_msg("/a", "r6"), SubscribeOutcome::TooMany(200)) {
        ReadStep::Reply(r) => {
            assert_eq!(refusal(&r), "subscription limit reached (200 per connection)")
        }
        _ => panic!(),
    }
    match b.db.first_snapshot(
        &subscribe_msg("/a", "r7"),
        SnapshotSource::Invalid("bad order".to_string()),
        None,
    ) {
        SnapshotStep::Undo(r) => assert_eq!(refusal(&r), "Invalid query: bad order"),
        _ => panic!(),
    }
    b.db.limits.max_response_size = 10;
    b.promote_path_deep("/a").unwrap();
    b.put("/a", r#"{"x": "0123456789"}"#);
    let r = b.db.answer_once(&once_msg("/a", "r8"), QueryOutcome::NoQuery);
    assert_eq!(refusal(&r), "Response size 19 exceeds maximum allowed (10 bytes)");
    match b.db.read_measured(&once_msg("/a", "r9"), Some(16)) {
        ReadStep::Reply(r) => assert_eq!(refusal(&r), "Subtree too large to read"),
        _ => panic!(),
    }
    assert!(matches!(b.db.read_measured(&once_msg("/a", "r9"), Some(15)), ReadStep::Load));
    b.db.set_rules(Vec::new(), false);
    b.rules = locked_rules;
    let r = b.handle_once("client1", &once_msg("/a", "r10"));
    assert!(error_of(&r) == Some(ErrorCode::PermissionDenied));
}

#[test]
fn test_queries_show_the_picked_children() {
    let mut b = ephemeral_bench();
    b.put("/p", r#"{"a": 1, "b": 2, "c": 3}"#);
    let p = Path::parse("/p");
    let keys = vec!["c".to_string(), "a".to_string(), "zz".to_string()];
    let picked = b.db.get_query_result_with_keys(&p, &keys);
    assert_eq!(export_json(&node_value(&picked)), j(r#"{"a": 1, "c": 3}"#));
    let shared = b.db.get_result_from_cached_keys(&p, &keys);
    assert_eq!(export_json(&node_value(&shared)), j(r#"{"a": 1, "c": 3}"#));
    match b.db.answer_once(&once_msg("/p", "r"), QueryOutcome::Keys(vec!["b".to_string()])) {
        ServerMessage::OnceResponse { value, .. } => {
            assert_eq!(export_json(&node_value(&value)), j(r#"{"b": 2}"#))
        }
        _ => panic!(),
    }
}

#[test]
fn test_waiting_writes_are_carried_out_in_order() {
    let mut b = make_blob_backed_db(j(r#"{"s": {"x": 1}}"#));
    b.db.add_client_internal("other", None, "conn2");
    let hooks = vec![
        hook_msg("/a", "s", Some(v("1")), "r1"),
        hook_msg("/s", "u", Some(v(r#"{"y": 2}"#)), "r2"),
        hook_msg("/gone", "s", Some(v("1")), "r3"),
        hook_msg("/a", "s", Some(v("2")), "r4"),
        hook_msg("/s/x", "d", None, "r5"),
    ];
    for h in &hooks {
        assert!(!is_nack(&b.handle_on_disconnect("client1", h)));
    }
    assert!(!is_nack(&b.handle_on_disconnect("client1", &hook_msg("/gone", "c", None, "r6"))));
    assert_eq!(b.get("/a"), None);
    b.handle_disconnect("client1");
    assert_eq!(b.get("/a"), Some(j("2")));
    assert_eq!(b.get("/gone"), None);
    let r = b.handle_once("other", &once_msg("/s", "q"));
    assert_eq!(once_value(&r), Some(j(r#"{"y": 2}"#)));
    assert_eq!(b.db.store.pending_wal_entries.len(), 4);
    let too_deep = hook_msg(&"/a".repeat(32), "s", Some(v(r#"{"b": 1}"#)), "r7");
    let r = b.handle_on_disconnect("other", &too_deep);
    assert_eq!(refusal(&r), "write exceeds maximum path depth");
}

#[test]
fn test_housekeeping_gives_up_idle_paths() {
    let mut b = make_blob_backed_db(j(r#"{"a": {"x": 1}, "b": {"y": 2}}"#));
    b.promote_path_deep("/a").unwrap();
    b.promote_path_deep("/b").unwrap();
    let mut settings = lark_server::settings::Settings::default();
    lark_server::settings::set_eviction_idle_secs(&mut settings, 300);
    let later = b.now + 200_000;
    b.mark_promoted("/b", later);
    let now = b.now + 400_000;
    b.db.housekeeping(now, &settings);
    assert!(!b.is_promoted("/a"));
    assert!(b.is_promoted("/b"));
    assert!(b.db.store.has_sentinel_at_or_below("/a"));
    assert_eq!(b.get("/b"), Some(j(r#"{"y": 2}"#)));
    b.db.store.force_evict_all_paths();
    assert!(!b.is_promoted("/b"));
    assert!(b.db.store.has_sentinel_at_or_below("/"));
    assert!(b.db.find_sentinel_tracking_violations().is_empty());
    // Everything can be read again.
    let r = b.handle_once("client1", &once_msg("/", "r"));
    assert_eq!(once_value(&r), Some(j(r#"{"a": {"x": 1}, "b": {"y": 2}}"#)));
}

#[test]
fn test_blob_and_log_tell_the_same_before_and_after_compaction() {
    let mut b = make_blob_backed_db(j(r#"{"a": {"x": 1}}"#));
    b.handle_set("client1", &set_msg("/a/y", "2", "r1"), false);
    b.handle_update("client1", &update_msg("/a", r#"{"z": 3}"#, "r2"), false);
    let full = j(r#"{"x": 1, "y": 2, "z": 3}"#);
    let r = b.handle_once("client1", &once_msg("/a", "q1"));
    assert_eq!(once_value(&r), Some(full.clone()));
    // The storage worker writes the first entry into the blob.
    b.blob = j(r#"{"a": {"x": 1, "y": 2}}"#);
    b.compact(compacted(1));
    assert_eq!(b.db.store.pending_wal_entries.len(), 1);
    b.db.store.force_evict_all_paths();
    let r = b.handle_once("client1", &once_msg("/a", "q2"));
    assert_eq!(once_value(&r), Some(full));
}

#[test]
fn test_writes_are_kept_under_the_numbers_of_the_log() {
    let mut b = make_blob_backed_db(j(r#"{"a": {"x": 1}}"#));
    b.sequence = 40;
    b.handle_set("client1", &set_msg("/a/y", "2", "r1"), false);
    b.handle_update("client1", &update_msg("/a", r#"{"z": 3}"#, "r2"), false);
    b.handle_remove("client1", &remove_msg("/q", "r3"), false);
    let ops = vec![op("s", "/b", Some("1")), op("d", "/c", None)];
    b.handle_transaction("client1", &transaction_msg(ops, "r4"));
    b.handle_on_disconnect("client1", &hook_msg("/d", "s", Some(v("1")), "r5"));
    b.handle_disconnect("client1");
    let kept = |b: &Bench| -> Vec<(i64, String)> {
        b.db.store.pending_wal_entries.iter().map(|e| (e.sequence, e.path.clone())).collect()
    };
    let numbered: Vec<(i64, String)> = ["/a/y", "/a", "/q", "/b", "/c", "/d"]
        .iter()
        .enumerate()
        .map(|(i, path)| (41 + i as i64, path.to_string()))
        .collect();
    assert_eq!(kept(&b), numbered);
    // What the blob does not hold yet outlives the next compaction.
    b.compact(compacted(43));
    assert_eq!(kept(&b), numbered[3..].to_vec());
    b.compact(compacted(40));
    assert_eq!(kept(&b), numbered[3..].to_vec());
}

#[test]
fn test_shallow_reads_show_log_entries_from_above() {
    let mut b = make_blob_backed_db(j(r#"{"a": {"b": {"old": 1}}}"#));
    b.handle_set("client1", &set_msg("/a", r#"{"b": {"new": 2}}"#, "r1"), false);
    b.db.store.force_evict_all_paths();
    let r = b.handle_once("client1", &shallow_once_msg("/a/b", "r2"));
    assert_eq!(once_value(&r), Some(j(r#"{"new": 2}"#)));
}

#[test]
fn test_removed_data_stays_removed() {
    let mut b = make_blob_backed_db(j(r#"{"a": {"x": {"y": 1}}}"#));
    b.handle_remove("client1", &remove_msg("/a/x", "r1"), false);
    b.db.store.force_evict_all_paths();
    let r = b.handle_once("client1", &once_msg("/a/x/y", "r2"));
    assert_eq!(once_value(&r), Some(serde_json::Value::Null));
    let removal = Change::Drop { path: "/q".to_string() };
    assert_eq!(removal.path(), "/q");
    b.db.commit(&removal, AppendOutcome::NoWriter);
    assert!(matches!(
        lark_server::change::mutation_event(&removal, false, None).kind,
        MutationKind::Remove
    ));
}

#[test]
fn test_written_data_can_be_read_by_path() {
    let mut b = ephemeral_bench();
    let base = "/a".repeat(30);
    let msg = set_msg(&base, r#"{"b": {".c": 7}, "d": null}"#, "r1");
    assert!(!is_nack(&b.handle_set("client1", &msg, false).unwrap()));
    let below = format!("{}/b/.c", base);
    let r = b.handle_once("client1", &once_msg(&below, "r2"));
    assert_eq!(once_value(&r), Some(j("7")));
    // One level more would be out of reach.
    let msg = set_msg(&base, r#"{"b": {"c": {"d": 7}}}"#, "r3");
    let r = b.handle_set("client1", &msg, false).unwrap();
    assert_eq!(refusal(&r), "write exceeds maximum path depth");
}

#[test]
fn test_shallow_reads_show_sizes_as_far_as_they_are_known() {
    let mut b = make_blob_backed_db(j(r#"{"users": {"alice": {"n": 1}, "carol": {"n": 2}}}"#));
    let msg = update_msg("/users/bob", r#"{"score": 5}"#, "r1");
    b.handle_update("client1", &msg, false);
    b.handle_remove("client1", &remove_msg("/users/alice", "r2"), false);
    b.handle_set("client1", &set_msg("/users/alice/x", "1", "r3"), false);
    b.handle_set("client1", &set_msg("/users/carol/m", "1", "r4"), false);
    let listed = once_value(&b.handle_once("client1", &shallow_once_msg("/users", "r5"))).unwrap();
    // A merge shows its own size; what was removed and written to again is not known;
    // the blob knows the rest.
    assert_eq!(listed["bob"], j(r#"{".sz": 21}"#));
    assert_eq!(listed["alice"], j(r#"{".sz": 0}"#));
    assert!(listed["carol"][".sz"].as_i64().unwrap() > 0);
}
