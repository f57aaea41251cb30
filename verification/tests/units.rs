//! The parts of the library, one by one.
use lark_server::access::TreeAccessor;
use lark_server::change::{mutation_event, Change, MutationKind};
use lark_server::clients::{AuthInfo, Clients};
use lark_server::database::{complaint_text, Database, Limits, MAX_DATABASE_SIZE_BYTES};
use lark_server::files::{
    blob_path, file_path, marker_name, parse_blob_generation, parse_sequence, parse_signed,
    parse_unsigned, sidecar_path,
};
use lark_server::hash::{compute_value_hash, hash_bytes};
use lark_server::inbox::{handle_protocol_message, Handler, InboxMessage, Route};
use lark_server::json::{export_json, import_json, show_value};
use lark_server::ledger::RequestLog;
use lark_server::lifecycle::{
    keeps_batching, CompactionComplete, CompactionStep, StartStep, SwitchOutcome, SyncOutcome,
    Timers,
};
use lark_server::node::{cleaned_node, Node};
use lark_server::path::{
    child_path_text, extract_pure_database_id, is_path_descendant, normalize_path_key, path_depth,
    path_matches_pattern, validate_key, validate_path, Path,
};
use lark_server::plain::{node_reads_as, node_value, same_value};
use lark_server::protocol::{
    encoding_fallback, ClientMessage, ErrorCode, Operation, ServerMessage, TransactionOp,
};
use lark_server::reads::subtree_exceeds_limit;
use lark_server::rules::{denied_subscriptions, RulesStep, Verdict, MAX_PROMOTION_RETRIES};
use lark_server::sentinel::PathSet;
use lark_server::server_value::{process_server_values, Complaint, Sum};
use lark_server::settings::{
    flushes_before_ack, fsync_on_wal_flush, set_eviction_idle_secs, set_fsync_on_wal_flush,
    set_wal_sync_interval_ms, wal_sync_interval_ms, Settings,
};
use lark_server::size::estimate_node_bytes;
use lark_server::stats::{percentile, PromotionStats, ReadStats};
use lark_server::transaction::{op_new_data, NewData, TransactionStep};
use lark_server::tree::Tree;
use lark_server::value::{
    estimate_value_bytes, json_value_depth, validate_value_priority, JsonValue, Member,
};
use lark_server::wal::{WalEntry, WalIndex};

fn j(text: &str) -> serde_json::Value {
    serde_json::from_str(text).unwrap()
}

fn v(text: &str) -> JsonValue {
    import_json(j(text))
}

fn members(text: &str) -> Vec<Member> {
    match v(text) {
        JsonValue::Object(m) => m,
        _ => panic!("not an object"),
    }
}

fn limits() -> Limits {
    Limits { max_path_depth: 32, max_volatile_write_size: 2048, max_response_size: 16_777_216 }
}

fn ephemeral() -> Database {
    Database::new("proj/db".to_string(), "proj".to_string(), true, limits())
}

fn code_of(r: &ServerMessage) -> Option<ErrorCode> {
    match r {
        ServerMessage::Nack { code, .. } => Some(*code),
        _ => None,
    }
}

#[test]
fn test_paths_are_read_as_segments() {
    assert_eq!(Path::parse("/a//b/").segments, vec!["a".to_string(), "b".to_string()]);
    assert!(Path::parse("").is_root());
    assert!(Path::parse("///").is_root());
    assert_eq!(Path::parse("a/b").to_text(), "/a/b");
    assert_eq!(Path::root().to_text(), "/");
    assert_eq!(Path::parse("/a/b/c").parent().unwrap().to_text(), "/a/b");
    assert!(Path::root().parent().is_none());
    assert!(Path::parse("/a").leads_to(&Path::parse("/a/b")));
    assert!(!Path::parse("/a").leads_to(&Path::parse("/ab")));
    assert_eq!(Path::parse("/a").join(&Path::parse("b/c")).to_text(), "/a/b/c");
    assert_eq!(path_depth("/a/b/c"), 3);
    assert_eq!(path_depth("/"), 0);
}

#[test]
fn test_canonical_path_keys() {
    assert_eq!(normalize_path_key("a/b"), "/a/b");
    assert_eq!(normalize_path_key("//a"), "/a");
    assert_eq!(normalize_path_key(""), "/");
    let once = normalize_path_key("///x/y");
    assert_eq!(normalize_path_key(&once), once);
    assert_eq!(child_path_text("/a/", "b"), "/a/b");
    assert_eq!(child_path_text("/", "b"), "/b");
    assert!(is_path_descendant("/a", "/a/b"));
    assert!(!is_path_descendant("/a", "/ab"));
    assert!(!is_path_descendant("/a", "/a"));
    assert_eq!(extract_pure_database_id("proj/db/x"), "db/x");
    assert_eq!(extract_pure_database_id("db"), "db");
}

#[test]
fn test_keys_and_paths_are_checked() {
    assert!(validate_key("name").is_ok());
    assert!(validate_key(".sv").is_ok());
    assert!(validate_key("").is_err());
    assert!(validate_key("a.b").is_err());
    assert!(validate_key("a\u{1}").is_err());
    assert!(validate_key("a\u{7f}").is_err());
    assert!(validate_key(&"x".repeat(768)).is_ok());
    assert!(validate_key(&"x".repeat(769)).is_err());
    // Bytes count, not characters.
    assert!(validate_key(&"\u{e9}".repeat(385)).is_err());
    assert!(validate_path("/a/b", 2).is_ok());
    assert!(validate_path("/a/b/c", 2).is_err());
    assert!(validate_path("/a//b", 9).is_err());
    assert!(validate_path("/a/", 9).is_err());
    assert!(validate_path("/", 0).is_ok());
    assert!(validate_path("", 0).is_ok());
    assert!(validate_path("/a#b", 9).is_err());
}

#[test]
fn test_volatility_cascades() {
    assert!(path_matches_pattern("/a/b", "a/*"));
    assert!(path_matches_pattern("/a/b/c/d", "a/*"));
    assert!(path_matches_pattern("/anything", ""));
    assert!(!path_matches_pattern("/b/a", "a/*"));
}

#[test]
fn test_sizes_and_depths_of_values() {
    assert_eq!(estimate_value_bytes(&v("null")), 4);
    assert_eq!(estimate_value_bytes(&v("true")), 4);
    assert_eq!(estimate_value_bytes(&v("1.5")), 8);
    assert_eq!(estimate_value_bytes(&v("\"abc\"")), 3);
    assert_eq!(estimate_value_bytes(&v("[1, 2]")), 24);
    assert_eq!(estimate_value_bytes(&v(r#"{"ab": "cde"}"#)), 13);
    assert_eq!(estimate_node_bytes(&cleaned_node(&v(r#"{"ab": "cde", "x": null}"#))), 13);
    assert_eq!(json_value_depth(&v("5")), 0);
    assert_eq!(json_value_depth(&v("{}")), 1);
    assert_eq!(json_value_depth(&v(r#"{"a": [{"b": 1}], "c": 2}"#)), 3);
    // A value weighs at least as much as a member it holds.
    let inner = v(r#"{"k": "0123456789"}"#);
    let outer = v(r#"{"o": {"k": "0123456789"}}"#);
    assert!(estimate_value_bytes(&outer) >= estimate_value_bytes(&inner) + 1 + 8);
}

#[test]
fn test_priority_patterns() {
    assert!(validate_value_priority(&v(r#"{".value": 1, ".priority": 2}"#), "/a").is_ok());
    assert!(validate_value_priority(&v(r#"{"x": 1, ".priority": 2}"#), "/a").is_ok());
    assert_eq!(
        validate_value_priority(&v(r#"{"in": {".value": 1, "b": 2, "c": 3}}"#), "/a"),
        Err(
            "Data at /a/in contains \".value\" alongside other children (b, c). \".value\" can \
             only be used with \".priority\" for primitives with priority"
                .to_string()
        )
    );
}

#[test]
fn test_json_goes_out_as_it_came_in() {
    let text = r#"{"a": [1, -2, 2.5, 18446744073709551615, null, true], "b": {"c": "é"}}"#;
    assert_eq!(export_json(&v(text)), j(text));
    assert!(matches!(v("[]"), JsonValue::Array(_)));
    assert_eq!(show_value(&v(r#"{"a": [1, "x", null, false]}"#)), format!("{:?}", j(
        r#"{"a": [1, "x", null, false]}"#
    )));
}

#[test]
fn test_values_are_told_apart() {
    assert!(same_value(&v(r#"{"a": 1, "b": [2]}"#), &v(r#"{"b": [2], "a": 1}"#)));
    assert!(!same_value(&v("1"), &v("1.0")));
    assert!(!same_value(&v("[1, 2]"), &v("[2, 1]")));
    assert!(!same_value(&v(r#"{"a": 1}"#), &v(r#"{"a": 1, "b": 2}"#)));
    let node = cleaned_node(&v(r#"{"a": {"b": 1}, "c": null}"#));
    assert!(node_reads_as(&node, &v(r#"{"a": {"b": 1}}"#)));
    assert!(!node_reads_as(&node, &v(r#"{"a": {"b": 2}}"#)));
    assert_eq!(export_json(&node_value(&node)), j(r#"{"a": {"b": 1}}"#));
}

#[test]
fn test_tree_reads_what_was_written() {
    let mut t = Tree::new();
    let p = Path::parse("/a/b");
    t.set(&p, &v(r#"{"x": 1, "y": null}"#));
    assert_eq!(export_json(&node_value(t.get(&p).unwrap())), j(r#"{"x": 1}"#));
    t.update(&p, &members(r#"{"z": 2, "x": null}"#), false);
    assert_eq!(export_json(&node_value(t.get(&p).unwrap())), j(r#"{"z": 2}"#));
    t.remove(&p);
    assert!(t.get(&p).is_none());
    let mut lazy = Tree::new_sentinel();
    lazy.set_lazy(&p, &v("1"));
    assert!(lazy.sentinel_at(&Path::root()));
    assert!(lazy.sentinel_at(&Path::parse("/a")));
    assert!(!lazy.sentinel_at(&p));
    let copy = lazy.copy();
    assert!(matches!(copy.get(&p), Some(Node::Number(_))));
}

#[test]
fn test_hashes_of_data() {
    assert_eq!(
        hash_bytes(None),
        "e3b0c44298fc1c149afbf4c8996fb92427ae41e4649b934ca495991b7852b855"
    );
    assert_eq!(
        compute_value_hash(&v("{}")),
        "44136fa355b3678a1146ad16f7e8649e94fb4fc21fe77e8310c060f61caaff8a"
    );
    // Members are put in order before the hash is taken.
    let a = JsonValue::Object(vec![
        Member { key: "b".to_string(), value: v("1") },
        Member { key: "a".to_string(), value: v("2.0") },
    ]);
    assert_eq!(compute_value_hash(&a), compute_value_hash(&v(r#"{"a": 2, "b": 1}"#)));
    assert_ne!(compute_value_hash(&v("1")), compute_value_hash(&v("2")));
}

#[test]
fn test_requests_are_remembered_up_to_a_limit() {
    let mut log = RequestLog::new();
    log.record("c", "first");
    log.record("c", "first");
    for i in 0..499 {
        log.record("c", &format!("r{}", i));
    }
    assert!(log.contains("c", "first"));
    assert!(log.contains("c", "r0"));
    assert!(!log.contains("d", "r0"));
    // The oldest goes first.
    log.record("c", "one more");
    assert!(!log.contains("c", "first"));
    assert!(log.contains("c", "r0"));
    log.record("c", "and another");
    assert!(!log.contains("c", "r0"));
    assert!(log.contains("c", "r1"));
    assert!(log.contains("c", "one more"));
}

#[test]
fn test_numbers_in_files() {
    assert_eq!(parse_unsigned("42"), Some(42));
    assert_eq!(parse_unsigned("+7"), Some(7));
    assert_eq!(parse_unsigned("18446744073709551615"), Some(u64::MAX));
    assert_eq!(parse_unsigned("18446744073709551616"), None);
    assert_eq!(parse_unsigned("-1"), None);
    assert_eq!(parse_unsigned(""), None);
    assert_eq!(parse_signed("-9223372036854775808"), Some(i64::MIN));
    assert_eq!(parse_signed("9223372036854775808"), None);
    assert_eq!(parse_blob_generation(Some(" 3\n")), 3);
    assert_eq!(parse_blob_generation(Some("x")), 0);
    assert_eq!(parse_blob_generation(None), 0);
    assert_eq!(parse_sequence(Some("\t-5 ")), -5);
    assert_eq!(parse_sequence(Some("5 5")), 0);
    assert_eq!(parse_sequence(None), 0);
    assert_eq!(file_path("dir", "wal"), "dir/wal");
    assert_eq!(file_path("dir/", "wal"), "dir/wal");
    assert_eq!(blob_path("d"), "d/blob.lark");
    assert_eq!(sidecar_path("d"), "d/sidecar.lark");
    assert_eq!(marker_name("p/d"), "p#d");
}

#[test]
fn test_percentiles() {
    let hundred: Vec<u64> = (1..=100).collect();
    assert_eq!(percentile(&hundred, 0), 1);
    assert_eq!(percentile(&hundred, 50), 51);
    assert_eq!(percentile(&hundred, 95), 95);
    assert_eq!(percentile(&hundred, 99), 99);
    assert_eq!(percentile(&hundred, 100), 100);
    assert_eq!(percentile(&vec![], 50), 0);
    assert_eq!(percentile(&vec![7], 99), 7);

    let io = ReadStats {
        pread_count: 1,
        bytes_read: 10,
        cache_hits: 2,
        cache_hit_bytes: 20,
        cache_header_misses: 3,
    };
    let mut s = PromotionStats::new();
    s.record(30, 3, io);
    s.record(10, 2, io);
    s.record(20, 1, io);
    let r = s.reset();
    assert_eq!(r.count, 3);
    assert_eq!(r.total_us, 60);
    assert_eq!(r.total_read_us, 6);
    assert_eq!(r.p50, 20);
    assert_eq!(r.p95, 30);
    assert_eq!(r.read_p50, 2);
    assert_eq!(r.io.bytes_read, 30);
    let again = s.reset();
    assert_eq!(again.count, 0);
    assert_eq!(again.p99, 0);
}

#[test]
fn test_settings() {
    let mut s = Settings::default();
    set_wal_sync_interval_ms(&mut s, 0);
    assert_eq!(wal_sync_interval_ms(&s), 0);
    assert!(flushes_before_ack(&s));
    set_wal_sync_interval_ms(&mut s, 20);
    assert!(!flushes_before_ack(&s));
    set_fsync_on_wal_flush(&mut s, true);
    assert!(fsync_on_wal_flush(&s));
    set_eviction_idle_secs(&mut s, 9);
    assert_eq!(s.eviction_idle_secs, 9);
}

fn filled(text: &str, tree: &Tree, sums: &Vec<Sum>) -> Result<(serde_json::Value, bool), Complaint> {
    process_server_values(&v(text), "/a", tree, 1234, sums).map(|(x, m)| (export_json(&x), m))
}

#[test]
fn test_server_values_are_filled_in() {
    let mut t = Tree::new();
    t.set(&Path::parse("/a/n"), &v("40"));
    let none: Vec<Sum> = Vec::new();

    let (x, changed) = filled(r#"{"b": [1, {".sv": "timestamp"}]}"#, &t, &none).ok().unwrap();
    assert_eq!(x, j(r#"{"b": [1, 1234]}"#));
    assert!(changed);

    let (x, changed) = filled(r#"{"b": {"c": "d"}}"#, &t, &none).ok().unwrap();
    assert_eq!(x, j(r#"{"b": {"c": "d"}}"#));
    assert!(!changed);

    let (x, _) = filled(r#"{"n": {".sv": {"increment": 2}}}"#, &t, &none).ok().unwrap();
    assert_eq!(x, j(r#"{"n": 42}"#));
    let (x, _) = filled(r#"{"new": {".sv": {"increment": -3}}}"#, &t, &none).ok().unwrap();
    assert_eq!(x, j(r#"{"new": -3}"#));

    // A fraction has to be added outside first.
    let (current, delta) = match filled(r#"{"n": {".sv": {"increment": 0.5}}}"#, &t, &none) {
        Err(Complaint::NeedsSum { current, delta }) => (current, delta),
        _ => panic!("no sum was asked for"),
    };
    assert_eq!(current.as_ref().unwrap().as_f64(), Some(40.0));
    assert_eq!(delta.as_f64(), Some(0.5));
    let sums = vec![Sum { current, delta, total: serde_json::Number::from_f64(40.5) }];
    let (x, _) = filled(r#"{"n": {".sv": {"increment": 0.5}}}"#, &t, &sums).ok().unwrap();
    assert_eq!(x, j(r#"{"n": 40.5}"#));
}

#[test]
fn test_bad_server_values_say_why() {
    let t = Tree::new();
    let none: Vec<Sum> = Vec::new();
    let text = |s: &str| match filled(s, &t, &none) {
        Err(e) => complaint_text(e),
        Ok(_) => panic!("it was filled in"),
    };
    assert_eq!(
        text(r#"{".sv": {"decrement": 1}}"#),
        "unknown server value object: {\"decrement\": Number(1)}"
    );
    assert_eq!(text(r#"{".sv": "date"}"#), "unknown server value: String(\"date\")");
    assert_eq!(text(r#"{".sv": null}"#), "unknown server value: Null");
    assert_eq!(
        text(r#"{".sv": {"increment": "1"}}"#),
        "increment delta must be a number, got String(\"1\")"
    );
    let delta = serde_json::Number::from_f64(0.5).unwrap();
    let hopeless = vec![Sum { current: None, delta, total: None }];
    match filled(r#"{".sv": {"increment": 0.5}}"#, &t, &hopeless) {
        Err(e) => assert_eq!(complaint_text(e), "invalid increment delta"),
        Ok(_) => panic!("it was filled in"),
    }
}

fn somebody(uid: &str, token: &str, is_admin: bool) -> AuthInfo {
    AuthInfo {
        uid: uid.to_string(),
        provider: "custom".to_string(),
        token: members(token),
        is_admin,
    }
}

#[test]
fn test_clients_come_and_go() {
    let mut db = ephemeral();
    assert_eq!(db.get_auth_summary("x"), "unknown client");
    db.add_client_internal("x", None, "conn");
    assert_eq!(db.get_auth_summary("x"), "unauthenticated");
    assert_eq!(db.client_count(), 1);
    assert!(!db.clients.get("x").unwrap().auth_complete);

    let who = somebody("alice", r#"{"iat": 1, "n": [5], "role": "x"}"#, true);
    assert!(db.handle_auth_update("x", Some(who)));
    assert_eq!(
        db.get_auth_summary("x"),
        "uid=alice, provider=custom, is_admin=true, n=[5], role=x"
    );
    assert!(!db.handle_auth_update("y", None));

    let mut msg = ClientMessage::new(Operation::Unauth);
    msg.request_id = Some("r".to_string());
    assert!(matches!(db.handle_unauth("x", &msg), ServerMessage::Ack { .. }));
    assert_eq!(db.get_auth_summary("x"), "unauthenticated");
    assert!(code_of(&db.handle_unauth("y", &msg)) == Some(ErrorCode::NotFound));

    db.set_volatile_paths(vec!["a/*".to_string()]);
    match db.handle_join("x", &msg) {
        ServerMessage::JoinAck { request_id, volatile_paths, connection_id } => {
            assert_eq!(request_id, "r");
            assert_eq!(volatile_paths, vec!["a/*".to_string()]);
            assert_eq!(connection_id, "conn");
        }
        _ => panic!(),
    }
    let nobody = Clients::new();
    assert!(nobody.get("x").is_none());
}

#[test]
fn test_setters_and_getters() {
    let mut db = ephemeral();
    assert_eq!(db.pure_database_id, "db");
    db.set_core_id(3);
    assert_eq!(db.core_id, 3);
    db.set_template_mode(true);
    assert!(db.is_template_mode());
    db.set_pending_template_dir("t".to_string());
    assert_eq!(db.pending_template_dir.as_deref(), Some("t"));
    assert!(!db.is_at_size_cap());
    db.refresh_data_size(MAX_DATABASE_SIZE_BYTES);
    assert!(db.is_at_size_cap());
    db.set_evaluator(vec!["v".to_string()], true);
    assert!(db.has_rules && db.rules_use_query);
    assert!(db.is_volatile_path("/v/x"));
    assert!(!db.update_rules(None));
    assert!(!db.has_rules && !db.is_volatile_path("/v/x"));
    assert!(db.update_rules(Some((vec!["w".to_string()], false))));
    assert!(db.is_volatile_path("/w"));
}

#[test]
fn test_rules_are_asked_until_they_answer() {
    let mut db = ephemeral();
    let (_, step) = db.begin_rules_check("nobody");
    assert!(matches!(step, RulesStep::Decided(true)));
    db.set_rules(Vec::new(), false);
    let (_, step) = db.begin_rules_check("nobody");
    assert!(matches!(step, RulesStep::Decided(false)));
    db.add_client_internal("c", None, "conn");

    // Rules that ask for data without end deny in the end.
    let (mut check, mut step) = db.begin_rules_check("c");
    let mut asked = 0;
    loop {
        match step {
            RulesStep::Evaluate => {
                asked += 1;
                step = check.evaluated(Verdict::NeedsData("/x".to_string()));
            }
            RulesStep::Load(p) => {
                assert_eq!(p, "/x");
                step = check.loaded(true);
            }
            RulesStep::Decided(d) => {
                assert!(!d);
                break;
            }
        }
    }
    assert!(asked <= MAX_PROMOTION_RETRIES);

    let (check, _) = db.begin_rules_check("c");
    assert!(matches!(check.evaluated(Verdict::Allowed), RulesStep::Decided(true)));
    assert!(matches!(check.evaluated(Verdict::Denied), RulesStep::Decided(false)));
    let mut check = check;
    assert!(matches!(check.loaded(false), RulesStep::Decided(false)));

    db.set_volatile_paths(vec!["v".to_string()]);
    let context = db.rules_context("c", "/v/x");
    assert!(context.is_volatile && context.auth.is_none());
    assert_eq!(context.database_id, "db");
    assert_eq!(context.project_id, "proj");
    assert_eq!(denied_subscriptions(true, &vec![true, false, true, false]), vec![1, 3]);
    assert!(denied_subscriptions(false, &vec![false]).is_empty());
}

#[test]
fn test_periodic_tasks() {
    let mut s = Settings::default();
    set_wal_sync_interval_ms(&mut s, 1000);
    let mut t = Timers::new(0);
    let none = t.due(49, &s);
    assert!(!none.volatile_fast && !none.volatile_slow && !none.wal_sync);
    let fast = t.due(50, &s);
    assert!(fast.volatile_fast && !fast.volatile_slow);
    assert!(!t.due(99, &s).volatile_fast);
    let later = t.due(1000, &s);
    assert!(later.volatile_fast && later.volatile_slow && later.wal_sync && !later.housekeeping);
    let all = t.due(300_000, &s);
    assert!(all.housekeeping && all.metrics && all.promotion_stats && all.backup_marker);
    // A clock that goes back makes nothing due.
    assert!(!t.due(10, &s).volatile_fast);
    assert!(keeps_batching(127, 9));
    assert!(!keeps_batching(128, 0));
    assert!(!keeps_batching(0, 10));
}

#[test]
fn test_starting_and_stopping() {
    let mut db = ephemeral();
    assert!(matches!(db.begin_run(), StartStep::Serve { compact: false }));
    db.note_activity(1000);
    assert!(!db.is_idle(61_000));
    assert!(db.is_idle(61_001));
    assert!(!db.must_stop(true));
    assert!(db.must_stop(false));
    assert!(db.wal_dir().is_none());

    let mut kept = Database::new_with_persistence(
        "p/d".to_string(),
        "p".to_string(),
        "dir".to_string(),
        limits(),
    );
    assert!(matches!(kept.begin_run(), StartStep::Load));
    match kept.run_loaded(false) {
        StartStep::Stop(reason) => assert_eq!(reason, "Database failed to initialize"),
        _ => panic!(),
    }
    kept.load_from_disk(2, Some("17\n"), Vec::new(), 11);
    assert_eq!(kept.blob_generation, 2);
    match kept.run_loaded(true) {
        StartStep::OpenLog { dir, min_sequence } => {
            assert_eq!(dir, "dir/wal");
            assert_eq!(min_sequence, 17);
        }
        _ => panic!(),
    }
    match kept.run_log_opened(false) {
        StartStep::Stop(reason) => assert_eq!(reason, "Database WAL failed to initialize"),
        _ => panic!(),
    }
    assert!(matches!(kept.run_log_opened(true), StartStep::Serve { compact: true }));
    assert!(kept.can_ask_compaction(true));
    assert!(!kept.can_ask_compaction(false));
    assert_eq!(kept.compaction_marker(), "p#d");

    assert!(!kept.wants_sync());
    kept.wal.dirty = true;
    assert!(kept.wants_sync());
    assert!(kept.sync_wal(SyncOutcome::Synced { rotated: true }));
    assert!(!kept.wants_sync());
    assert!(!kept.sync_wal(SyncOutcome::Failed));
    assert!(kept.is_wal_failed());
    kept.try_recover_wal(true, false);
    assert!(kept.is_wal_failed());
    kept.try_recover_wal(true, true);
    assert!(!kept.is_wal_failed());
    kept.set_wal_failed();
    assert!(kept.is_wal_failed());

    let other = CompactionComplete { sequence: 20, blob_generation: 3 };
    assert!(kept.begin_compaction(&other) == CompactionStep::SwitchBlob);
    kept.compaction_switched(&other, SwitchOutcome::NoDirectory);
    assert_eq!(kept.blob_generation, 2);
    kept.compaction_switched(&other, SwitchOutcome::Opened);
    assert_eq!(kept.blob_generation, 3);
    assert_eq!(kept.store.blob_sequence, 20);
    assert!(kept.begin_compaction(&other) == CompactionStep::RefreshBlob);
    assert!(ephemeral().begin_compaction(&CompactionComplete { sequence: 1, blob_generation: 0 })
        == CompactionStep::Trim);
    kept.compaction_switched(&other, SwitchOutcome::Failed);
    assert!(kept.must_stop(true));
    assert!(kept.close_wal());
    assert!(!kept.close_wal());
}

#[test]
fn test_messages_find_their_way() {
    assert!(InboxMessage::default().route() == Route::Drop);
    assert!(InboxMessage::client_disconnected("c".to_string()).route() == Route::Disconnect);
    assert!(InboxMessage::force_evict_all().route() == Route::ForceEvict);
    assert!(InboxMessage::update_client_auth("c".to_string(), None).route() == Route::Auth);
    assert!(InboxMessage::update_evaluator().route() == Route::Rules);
    let done = CompactionComplete { sequence: 1, blob_generation: 0 };
    assert!(InboxMessage::compacted(done).route() == Route::Compaction);
    let mut volatile = ClientMessage::new(Operation::Assign);
    volatile.volatile = Some(true);
    let m = InboxMessage::client_message("c".to_string(), volatile);
    assert!(m.route() == Route::Protocol && m.volatile);
    let mut homeless = InboxMessage::client_added("c".to_string(), None, "conn".to_string());
    homeless.has_connection = false;
    assert!(homeless.route() == Route::Drop);

    let handler = |op: Operation| handle_protocol_message(&ClientMessage::new(op));
    assert!(matches!(handler(Operation::Join), Handler::Join));
    assert!(matches!(handler(Operation::Once), Handler::Once));
    assert!(matches!(handler(Operation::Ping), Handler::Ignore));
    assert!(matches!(handler(Operation::Leave), Handler::Leave(ServerMessage::Ack { .. })));
    match handler(Operation::Unknown) {
        Handler::Reply(r) => assert!(code_of(&r) == Some(ErrorCode::InvalidOperation)),
        _ => panic!(),
    }
}

#[test]
fn test_answers_that_cannot_be_encoded() {
    let lost = ServerMessage::once_response("r9", Node::Null);
    match encoding_fallback(&lost) {
        Some(ServerMessage::Nack { request_id, code, message }) => {
            assert_eq!(request_id, "r9");
            assert!(code == ErrorCode::Internal);
            assert_eq!(message, "Internal encoding error");
        }
        _ => panic!(),
    }
    assert!(encoding_fallback(&ServerMessage::put_event("/a", "/", Node::Null, None)).is_none());
}

#[test]
fn test_events_name_canonical_paths() {
    let put = Change::Put { path: "//posts/x".to_string(), value: v("1") };
    let e = mutation_event(&put, false, Some("c"));
    assert!(e.kind == MutationKind::Assign);
    assert_eq!(e.path, "/posts/x");
    assert_eq!(export_json(&e.new_value.unwrap()), j("1"));
    assert_eq!(e.writer.as_deref(), Some("c"));
    let merge = Change::Merge { path: "a".to_string(), members: members(r#"{"b": 1}"#) };
    let e = mutation_event(&merge, true, None);
    assert!(e.kind == MutationKind::Update && e.volatile && e.writer.is_none());
    assert_eq!(e.path, "/a");
    assert_eq!(e.updates.unwrap().len(), 1);
    let e = mutation_event(&Change::Drop { path: "/".to_string() }, false, None);
    assert!(e.kind == MutationKind::Remove);
    assert_eq!(e.path, "/");
}

#[test]
fn test_log_entries_that_touch_a_path() {
    let entries = vec![
        WalEntry::assign("/a/b", &v("1")),
        WalEntry::assign("/x", &v("2")),
        WalEntry::update("/a", &members(r#"{"c": 3}"#)),
        WalEntry::delete("/a/b/d"),
        WalEntry::assign("/a/b", &v("4")),
    ];
    let mut index = WalIndex::new();
    index.rebuild(&entries);
    assert_eq!(index.find_affecting("/a/b"), vec![0, 2, 3, 4]);
    assert_eq!(index.find_affecting("/x/y"), vec![1]);
    assert_eq!(index.find_affecting("/"), vec![0, 1, 2, 3, 4]);
    assert!(index.find_affecting("/q").is_empty());
    index.add("/q", 5);
    assert_eq!(index.find_affecting("/q/r"), vec![5]);
    index.rebuild(&entries);
    assert!(index.find_affecting("/q/r").is_empty());
    assert_eq!(index.find_affecting("/"), vec![0, 1, 2, 3, 4]);
}

#[test]
fn test_the_log_index_keeps_paths_in_order() {
    let paths = ["/b", "/a/c", "/a-b", "/a", "/a/b/c", "/", "/a/c", "/aa/c", "/\u{e9}", "/z"];
    let mut index = WalIndex::new();
    for (i, path) in paths.iter().enumerate() {
        index.add(path, i);
    }
    let kept: Vec<(String, Vec<usize>)> =
        index.by_path.iter().map(|g| (g.path.to_text(), g.indices.clone())).collect();
    let expected: Vec<(String, Vec<usize>)> = vec![
        ("/".to_string(), vec![5]),
        ("/a".to_string(), vec![3]),
        ("/a/b/c".to_string(), vec![4]),
        ("/a/c".to_string(), vec![1, 6]),
        ("/a-b".to_string(), vec![2]),
        ("/aa/c".to_string(), vec![7]),
        ("/b".to_string(), vec![0]),
        ("/z".to_string(), vec![9]),
        ("/\u{e9}".to_string(), vec![8]),
    ];
    assert_eq!(kept, expected);
    assert_eq!(index.find_affecting("/a"), vec![1, 3, 4, 5, 6]);
    assert_eq!(index.find_affecting("/a/b"), vec![3, 4, 5]);
    assert_eq!(index.find_affecting("/a/c/d/e"), vec![1, 3, 5, 6]);
    assert_eq!(index.find_affecting("/a-b"), vec![2, 5]);
    assert_eq!(index.find_affecting("/"), vec![0, 1, 2, 3, 4, 5, 6, 7, 8, 9]);
}

#[test]
fn test_of_members_with_one_key_the_last_counts() {
    let member = |key: &str, text: &str| Member { key: key.to_string(), value: v(text) };
    let twice = vec![member("a", "1"), member("b", "2"), member("a", r#"{"c": 3}"#)];
    let object = JsonValue::Object(twice);
    assert_eq!(export_json(&object), j(r#"{"a": {"c": 3}, "b": 2}"#));
    assert_eq!(
        compute_value_hash(&object),
        compute_value_hash(&v(r#"{"b": 2, "a": {"c": 3}}"#))
    );
    let nested = j(r#"{"x": [1, {"y": null}]}"#);
    assert_eq!(export_json(&import_json(nested.clone())), nested);
}

#[test]
fn test_sets_of_paths() {
    let mut set = PathSet::new();
    for text in ["/b", "/a/c", "/a-b", "/a", "/a/c", "/a/c/d"] {
        set.insert(&Path::parse(text));
    }
    let texts = |set: &PathSet| -> Vec<String> { set.paths.iter().map(|p| p.to_text()).collect() };
    assert_eq!(texts(&set), ["/a", "/a/c", "/a/c/d", "/a-b", "/b"]);
    assert_eq!(set.count(), 5);
    assert!(set.contains(&Path::parse("/a-b")) && !set.contains(&Path::parse("/a/b")));
    assert!(set.has_at_or_below(&Path::parse("/a/c")));
    assert!(!set.has_at_or_below(&Path::parse("/a/b")));
    assert!(set.has_at_or_below(&Path::root()));
    set.remove_strictly_below(&Path::parse("/a"));
    assert_eq!(texts(&set), ["/a", "/a-b", "/b"]);
    set.remove(&Path::parse("/a-b"));
    set.remove(&Path::parse("/q"));
    assert_eq!(texts(&set), ["/a", "/b"]);
    set.remove_below(&Path::parse("/a"));
    assert_eq!(texts(&set), ["/b"]);
    set.remove_below(&Path::root());
    assert_eq!(set.count(), 0);
}

#[test]
fn test_the_tree_as_rules_see_it() {
    let mut t = Tree::new();
    t.set(&Path::parse("/a"), &v(r#"{"b": 1}"#));
    t.set_node(&Path::parse("/s"), Node::empty_sentinel(), true);
    let look = TreeAccessor::new(&t, true);
    assert!(look.is_blob_backed());
    assert!(look.node_exists("/a/b"));
    assert!(!look.node_exists("/a/c"));
    assert!(!look.node_exists("/s"));
    assert!(look.node_has_child("/a", "b"));
    assert!(!look.node_has_child("/a", "c"));
    assert!(!look.node_has_child("/a/b", "c"));
    assert!(look.node_is_loaded("/a/c"));
    assert!(!look.node_is_loaded("/s"));
    assert!(!look.node_is_loaded("/s/x"));
    assert_eq!(export_json(&look.get_value("/a").unwrap()), j(r#"{"b": 1}"#));
    assert!(look.get_value("/q").is_none());
}

#[test]
fn test_what_rules_are_shown_of_an_operation() {
    let op = |kind: &str, text: Option<&str>| TransactionOp {
        op: kind.to_string(),
        path: "/a".to_string(),
        value: text.map(v),
        hash: None,
    };
    assert!(matches!(op_new_data(&op("s", Some("1"))), NewData::Assign(_)));
    assert!(matches!(op_new_data(&op("u", Some("{}"))), NewData::Update(_)));
    assert!(matches!(op_new_data(&op("d", None)), NewData::Nothing));
}

#[test]
fn test_subtrees_that_are_too_large() {
    assert!(!subtree_exceeds_limit(150, 100));
    assert!(subtree_exceeds_limit(151, 100));
    assert!(!subtree_exceeds_limit(0, 0));
}

#[test]
fn test_path_texts_are_read_back() {
    for text in ["/", "/a", "a//b/", "/users/.info/x y"] {
        let p = Path::parse(text);
        let q = Path::parse(&p.to_text());
        assert!(p.same(&q));
    }
    assert_eq!(Path::parse("a//b/").to_text(), "/a/b");
    assert_eq!(Path::parse("").to_text(), "/");
}

#[test]
fn test_transactions_fill_in_server_values_on_top_of_each_other() {
    let db = ephemeral();
    let op = |name: &str, path: &str, text: &str| TransactionOp {
        op: name.to_string(),
        path: path.to_string(),
        value: Some(v(text)),
        hash: None,
    };
    let mut msg = ClientMessage::new(Operation::Transaction);
    msg.operations = Some(vec![
        op("s", "/n", "40"),
        op("u", "/", r#"{"n": {".sv": {"increment": 2}}, "t": {".sv": "timestamp"}}"#),
    ]);
    match db.resolve_transaction(&msg, 99, &Vec::new()) {
        TransactionStep::Append(changes) => {
            assert_eq!(changes.len(), 2);
            match &changes[1] {
                Change::Merge { members, .. } => {
                    assert_eq!(export_json(&members[0].value), j("42"));
                    assert_eq!(export_json(&members[1].value), j("99"));
                }
                _ => panic!("expected a merge"),
            }
        }
        _ => panic!("expected the writes"),
    }
    msg.operations = Some(vec![op("s", "/n", "40"), op("u", "/", r#"{"n": 1, "m": [2]}"#)]);
    match db.resolve_transaction(&msg, 99, &Vec::new()) {
        TransactionStep::Append(changes) => assert_eq!(changes.len(), 2),
        _ => panic!("expected the writes"),
    }
}
