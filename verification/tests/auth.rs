//! Tokens: made, read, refused.
use jsonwebtoken::{encode, Algorithm, EncodingKey, Header};
use lark_server::auth::{read_unverified_token, show_error, validate_auth_token, MultiValidator};
use lark_server::clients::{self, convert_auth_to_rules};
use lark_server::database::{Database, Limits};
use lark_server::firebase::{FirebaseInfo, StringOrArray};
use lark_server::json::{export_json, import_json};
use lark_server::jwt::{
    customer_auth_info, customer_verdict, find_root_claims, generate_test_token, generate_token,
    legacy_auth_info, legacy_verdict, peek_token_header, peek_token_payload, standard_auth_info,
    standard_token_claims, standard_verdict, user_friendly_error, validate_lark_customer_token,
    validate_legacy_token, AuthError, AuthInfo, LarkClaims, LarkCustomerClaims, LegacyClaims,
    TokenRead, Validator,
};
use lark_server::plain::lookup_member;
use lark_server::protocol::{ClientMessage, ErrorCode, Operation, ServerMessage};
use lark_server::value::{JsonValue, Member};

const TEST_SECRET: &[u8] = b"test-secret-key-1234567890";
const ADMIN_SECRET: &[u8] = b"admin-secret-key-1234567890";

fn j(text: &str) -> serde_json::Value {
    serde_json::from_str(text).unwrap()
}

fn members(text: &str) -> Vec<Member> {
    match import_json(j(text)) {
        JsonValue::Object(m) => m,
        _ => panic!("not an object"),
    }
}

fn get(ms: &Vec<Member>, key: &str) -> Option<serde_json::Value> {
    lookup_member(ms, key).map(export_json)
}

fn secret_text(secret: &[u8]) -> Option<&str> {
    Some(std::str::from_utf8(secret).unwrap())
}

/// A token with the given claims, where `exp` and `iat` are put in besides.
fn signed(claims: &str, kid: Option<&str>, alg: Algorithm, secret: &[u8]) -> String {
    let now = chrono::Utc::now().timestamp();
    let mut v = j(claims);
    let map = v.as_object_mut().unwrap();
    map.insert("exp".to_string(), serde_json::Value::from(now + 3600));
    map.insert("iat".to_string(), serde_json::Value::from(now));
    let mut header = Header::new(alg);
    header.kid = kid.map(|k| k.to_string());
    encode(&header, &v, &EncodingKey::from_secret(secret)).unwrap()
}

/// A token with exactly the given claims.
fn signed_as_is(claims: &str, secret: &[u8]) -> String {
    encode(&Header::new(Algorithm::HS256), &j(claims), &EncodingKey::from_secret(secret)).unwrap()
}

fn message_of(r: Result<AuthInfo, AuthError>) -> String {
    match r {
        Ok(_) => panic!("the token was accepted"),
        Err(AuthError::InvalidToken(m)) => m,
        Err(e) => panic!("another error: {:?}", e),
    }
}

#[test]
fn test_string_or_array() {
    let single = StringOrArray::Single("value".to_string());
    assert_eq!(single.first(), Some("value"));

    let multiple = StringOrArray::Multiple(vec!["a".to_string(), "b".to_string()]);
    assert_eq!(multiple.first(), Some("a"));

    let empty = StringOrArray::Multiple(vec![]);
    assert_eq!(empty.first(), None);
}

#[test]
fn test_validator_basic() {
    let token = generate_test_token(TEST_SECRET, "user-123", None).unwrap();
    let validator = Validator::new(TEST_SECRET);
    let info = validator.validate(&token).unwrap();

    assert_eq!(info.uid, "user-123");
    assert_eq!(info.provider, "anonymous");
    assert!(!info.is_true_admin);
}

#[test]
fn test_validator_with_custom_claims() {
    let claims = members(r#"{"role": "admin", "level": 42}"#);

    let token = generate_test_token(TEST_SECRET, "user-456", Some(claims)).unwrap();
    let validator = Validator::new(TEST_SECRET);
    let info = validator.validate(&token).unwrap();

    assert_eq!(info.uid, "user-456");
    assert_eq!(get(&info.token, "role"), Some(j("\"admin\"")));
    assert_eq!(get(&info.token, "level"), Some(j("42")));
}

#[test]
fn test_validator_invalid_secret() {
    let token = generate_test_token(TEST_SECRET, "user-123", None).unwrap();
    let validator = Validator::new(b"wrong-secret");
    let result = validator.validate(&token);

    assert!(matches!(result, Err(AuthError::InvalidToken(_))));
}

#[test]
fn test_validator_empty_token() {
    let validator = Validator::new(TEST_SECRET);
    let result = validator.validate("");

    assert!(matches!(result, Err(AuthError::NoToken)));
}

#[test]
fn test_validator_expired_token() {
    let token = generate_token(TEST_SECRET, "user-123", "anonymous", None, -3600).unwrap();
    let validator = Validator::new(TEST_SECRET);
    let result = validator.validate(&token);

    assert!(matches!(result, Err(AuthError::ExpiredToken)));
}

#[test]
fn test_peek_token_header() {
    let token = generate_test_token(TEST_SECRET, "user-123", None).unwrap();
    let (alg, kid) = peek_token_header(&token).unwrap();

    assert_eq!(alg, "HS256");
    assert!(kid.is_none());
}

#[test]
fn test_peek_token_payload() {
    let claims = members(r#"{"custom": "value"}"#);

    let token = generate_test_token(TEST_SECRET, "user-123", Some(claims)).unwrap();
    let payload = match peek_token_payload(&token) {
        Ok(p) => p,
        Err(e) => panic!("{:?}", e),
    };

    assert_eq!(get(&payload, "sub"), Some(j("\"user-123\"")));
}

#[test]
fn test_find_root_claims() {
    let payload = members(
        r#"{"sub": "user-123", "iss": "issuer", "custom_field": "value", "role": "admin"}"#,
    );

    let custom = find_root_claims(&payload);

    assert!(get(&custom, "sub").is_none());
    assert!(get(&custom, "iss").is_none());
    assert_eq!(get(&custom, "custom_field"), Some(j("\"value\"")));
    assert_eq!(get(&custom, "role"), Some(j("\"admin\"")));
}

#[test]
fn test_lark_customer_token() {
    let token = signed(
        r#"{"uid": "customer-user-123", "claims": {"is_premium": true}}"#,
        None,
        Algorithm::HS256,
        TEST_SECRET,
    );

    let info = validate_lark_customer_token(&token, TEST_SECRET).unwrap();
    assert_eq!(info.uid, "customer-user-123");
    assert_eq!(get(&info.token, "is_premium"), Some(j("true")));
}

#[test]
fn test_legacy_token() {
    let token = signed(
        r#"{"v": "0", "d": {"legacy_field": "value"}}"#,
        None,
        Algorithm::HS256,
        TEST_SECRET,
    );

    let info = validate_legacy_token(&token, TEST_SECRET).unwrap();
    assert!(info.uid.is_empty());
    assert_eq!(get(&info.token, "legacy_field"), Some(j("\"value\"")));
}

#[test]
fn test_user_friendly_error() {
    assert_eq!(user_friendly_error(&AuthError::NoToken), "no token provided");
    assert_eq!(
        user_friendly_error(&AuthError::ExpiredToken),
        "token expired - please reauthenticate"
    );
    assert_eq!(
        user_friendly_error(&AuthError::InvalidClaims("missing uid".to_string())),
        "token missing required 'uid' field"
    );
}

#[test]
fn test_multi_validator_emulator_mode() {
    let mut validator = MultiValidator::new(&[]);

    let result = validator.validate_for_project("owner", None, None, None);
    assert!(matches!(result, Err(AuthError::InvalidToken(_))));

    validator.set_emulator_mode(true);

    let info = validator.validate_for_project("owner", None, None, None).unwrap();
    assert_eq!(info.uid, "owner");
    assert_eq!(info.provider, "owner");
    assert!(info.is_true_admin);
}

#[test]
fn test_multi_validator_hs256_standard() {
    let validator = MultiValidator::new(&[]);

    let token = generate_test_token(TEST_SECRET, "user-123", None).unwrap();

    let info = validator
        .validate_for_project(&token, secret_text(TEST_SECRET), None, None)
        .unwrap();

    assert_eq!(info.uid, "user-123");
    assert!(!info.is_true_admin);
}

#[test]
fn test_multi_validator_hs256_customer_token() {
    let validator = MultiValidator::new(&[]);

    let token = signed(
        r#"{"uid": "customer-456", "claims": null}"#,
        None,
        Algorithm::HS256,
        TEST_SECRET,
    );

    let info = validator
        .validate_for_project(&token, secret_text(TEST_SECRET), None, None)
        .unwrap();

    assert_eq!(info.uid, "customer-456");
    assert!(!info.is_true_admin);
}

#[test]
fn test_multi_validator_hs256_coordinator_token() {
    let validator = MultiValidator::new(&[]);

    let token = signed(
        r#"{"sub": "admin-user", "aud": null, "provider": "admin", "claims": null,
            "server": null, "project": null}"#,
        Some("coordinator"),
        Algorithm::HS256,
        ADMIN_SECRET,
    );

    let info = validator
        .validate_for_project(&token, None, secret_text(ADMIN_SECRET), None)
        .unwrap();

    assert_eq!(info.uid, "admin-user");
    assert!(info.is_true_admin);
}

#[test]
fn test_multi_validator_hs256_legacy_token() {
    let validator = MultiValidator::new(&[]);

    let token = signed(
        r#"{"v": "0", "d": {"legacy": true}}"#,
        None,
        Algorithm::HS256,
        TEST_SECRET,
    );

    let info = validator
        .validate_for_project(&token, secret_text(TEST_SECRET), None, None)
        .unwrap();

    assert!(info.uid.is_empty());
    assert!(!info.is_true_admin);
    assert_eq!(get(&info.token, "legacy"), Some(j("true")));
}

#[test]
fn test_multi_validator_no_token() {
    let validator = MultiValidator::new(&[]);

    let result = validator.validate_for_project("", None, None, None);

    assert!(matches!(result, Err(AuthError::NoToken)));
}

#[test]
fn test_multi_validator_no_secret_key() {
    let validator = MultiValidator::new(&[]);

    let token = generate_test_token(TEST_SECRET, "user-123", None).unwrap();

    let result = validator.validate_for_project(&token, None, None, None);

    assert!(matches!(result, Err(AuthError::InvalidToken(_))));
}

#[test]
fn test_convert_auth_to_rules_normalizes_empty_uid() {
    let legacy = clients::AuthInfo {
        uid: String::new(),
        provider: "custom".to_string(),
        token: members(r#"{"role": "editor"}"#),
        is_admin: false,
    };
    let rules_auth = convert_auth_to_rules(&legacy);
    assert!(rules_auth.uid.is_none());
    assert_eq!(get(&rules_auth.token.unwrap(), "role"), Some(j("\"editor\"")));

    let normal = clients::AuthInfo {
        uid: "user-123".to_string(),
        provider: "google".to_string(),
        token: vec![],
        is_admin: false,
    };
    let rules_auth = convert_auth_to_rules(&normal);
    assert_eq!(rules_auth.uid.as_deref(), Some("user-123"));
    assert_eq!(rules_auth.provider.as_deref(), Some("google"));

    let identityless = clients::AuthInfo {
        uid: String::new(),
        provider: "custom".to_string(),
        token: vec![],
        is_admin: false,
    };
    let rules_auth = convert_auth_to_rules(&identityless);
    assert!(rules_auth.uid.is_none());
    assert!(rules_auth.token.is_none());
}

#[test]
fn test_friendly_texts_of_all_errors() {
    let wrong = AuthError::WrongServer { expected: "a".to_string(), got: "b".to_string() };
    assert_eq!(user_friendly_error(&wrong), "token assigned to different server");
    assert_eq!(
        user_friendly_error(&AuthError::InvalidIssuer("x".to_string())),
        "invalid token issuer - check firebase_project_id configuration"
    );
    assert_eq!(
        user_friendly_error(&AuthError::InvalidAudience("x".to_string())),
        "invalid token audience - check firebase_project_id configuration"
    );
    assert_eq!(
        user_friendly_error(&AuthError::KeyNotFound("x".to_string())),
        "signing key not found - token may be using an old or invalid key"
    );
    assert_eq!(
        user_friendly_error(&AuthError::InvalidKeyId),
        "missing or invalid key ID in token header"
    );
    assert_eq!(
        user_friendly_error(&AuthError::InvalidServiceAccount("x".to_string())),
        "service account not authorized for this project"
    );
    assert_eq!(
        user_friendly_error(&AuthError::InvalidClaims("missing sub claim".to_string())),
        "token missing required 'sub' field"
    );
    assert_eq!(
        user_friendly_error(&AuthError::InvalidClaims("other".to_string())),
        "invalid token claims"
    );
    assert_eq!(
        user_friendly_error(&AuthError::InvalidToken("bad signature".to_string())),
        "invalid token signature - check secret key configuration"
    );
    assert_eq!(
        user_friendly_error(&AuthError::InvalidToken("unsupported algorithm X".to_string())),
        "unsupported token algorithm"
    );
    assert_eq!(
        user_friendly_error(&AuthError::InvalidToken("signing method".to_string())),
        "unsupported token algorithm"
    );
    assert_eq!(
        user_friendly_error(&AuthError::InvalidToken("malformed token".to_string())),
        "malformed token"
    );
    assert_eq!(
        user_friendly_error(&AuthError::InvalidToken("else".to_string())),
        "invalid token"
    );
}

#[test]
fn test_texts_of_errors() {
    assert_eq!(AuthError::NoToken.to_text(), "no token provided");
    assert_eq!(AuthError::ExpiredToken.to_text(), "token expired");
    assert_eq!(AuthError::InvalidToken("x".to_string()).to_text(), "invalid token: x");
    assert_eq!(AuthError::InvalidClaims("x".to_string()).to_text(), "invalid claims: x");
    let wrong = AuthError::WrongServer { expected: "a".to_string(), got: "b".to_string() };
    assert_eq!(wrong.to_text(), "token assigned to different server: expected a, got b");
    assert_eq!(AuthError::InvalidIssuer("x".to_string()).to_text(), "invalid token issuer: x");
    assert_eq!(AuthError::InvalidAudience("x".to_string()).to_text(), "invalid token audience: x");
    assert_eq!(AuthError::KeyNotFound("x".to_string()).to_text(), "signing key not found: x");
    assert_eq!(AuthError::InvalidKeyId.to_text(), "missing or invalid key ID");
    assert_eq!(
        AuthError::InvalidServiceAccount("x".to_string()).to_text(),
        "invalid service account for project: x"
    );
}

#[test]
fn test_shown_errors_are_their_debug_form() {
    let errors = vec![
        AuthError::NoToken,
        AuthError::InvalidToken("a \"b\" \n".to_string()),
        AuthError::ExpiredToken,
        AuthError::InvalidClaims("missing uid".to_string()),
        AuthError::WrongServer { expected: "a".to_string(), got: "b".to_string() },
        AuthError::InvalidIssuer("i".to_string()),
        AuthError::InvalidAudience("u".to_string()),
        AuthError::KeyNotFound("k".to_string()),
        AuthError::InvalidKeyId,
        AuthError::InvalidServiceAccount("s".to_string()),
    ];
    for e in &errors {
        assert_eq!(show_error(e), format!("{:?}", e));
    }
}

#[test]
fn test_standard_claims_become_a_principal() {
    let claims = LarkClaims::from_members(&members(
        r#"{"sub": "u", "aud": ["db-1", "db-2"], "provider": "", "server": "s1",
            "project": "p", "claims": {"x": [1, null]}}"#,
    ))
    .unwrap();
    let info = standard_auth_info(claims, &Some("s1".to_string())).unwrap();
    assert_eq!(info.uid, "u");
    assert_eq!(info.provider, "custom");
    assert_eq!(info.database_id.as_deref(), Some("db-1"));
    assert_eq!(info.server_id.as_deref(), Some("s1"));
    assert_eq!(info.project_id.as_deref(), Some("p"));
    assert_eq!(get(&info.token, "x"), Some(j("[1, null]")));

    let other = LarkClaims::from_members(&members(r#"{"sub": "u", "server": "s2"}"#)).unwrap();
    match standard_auth_info(other, &Some("s1".to_string())) {
        Err(AuthError::WrongServer { expected, got }) => {
            assert_eq!(expected, "s1");
            assert_eq!(got, "s2");
        }
        _ => panic!("a token for another server was accepted"),
    }

    let nameless = LarkClaims::from_members(&members(r#"{"sub": ""}"#)).unwrap();
    match standard_auth_info(nameless, &None) {
        Err(AuthError::InvalidClaims(m)) => assert_eq!(m, "missing sub claim"),
        _ => panic!("a token without a subject was accepted"),
    }
}

#[test]
fn test_ill_typed_claims_are_not_read() {
    assert!(LarkClaims::from_members(&members(r#"{"sub": 5}"#)).is_none());
    assert!(LarkClaims::from_members(&members(r#"{"aud": "x"}"#)).is_none());
    assert!(LarkClaims::from_members(&members(r#"{"sub": "u", "exp": 1.5}"#)).is_none());
    assert!(LarkClaims::from_members(&members(r#"{"sub": "u", "aud": [1]}"#)).is_none());
    assert!(LarkClaims::from_members(&members(r#"{"sub": "u", "claims": []}"#)).is_none());
    assert!(LarkCustomerClaims::from_members(&members(r#"{"uid": null}"#)).is_none());
    assert!(LegacyClaims::from_members(&members(r#"{"d": "x"}"#)).is_none());
    assert!(LegacyClaims::from_members(&members(r#"{"d": null, "v": null}"#)).is_some());

    let token = signed(r#"{"uid": 5}"#, None, Algorithm::HS256, TEST_SECRET);
    assert!(matches!(
        validate_lark_customer_token(&token, TEST_SECRET),
        Err(AuthError::InvalidToken(_))
    ));
}

#[test]
fn test_customer_and_legacy_principals() {
    let c = LarkCustomerClaims::from_members(&members(r#"{"uid": "c", "claims": {"a": 1}}"#));
    let info = customer_auth_info(c.unwrap()).unwrap();
    assert_eq!(info.uid, "c");
    assert_eq!(info.provider, "custom");
    assert_eq!(get(&info.token, "a"), Some(j("1")));

    let nameless = LarkCustomerClaims::from_members(&members(r#"{"uid": ""}"#)).unwrap();
    match customer_auth_info(nameless) {
        Err(AuthError::InvalidClaims(m)) => assert_eq!(m, "missing uid"),
        _ => panic!("a token without a user was accepted"),
    }

    let l = LegacyClaims::from_members(&members(r#"{"d": {"b": 2}}"#)).unwrap();
    let info = legacy_auth_info(l);
    assert_eq!(info.uid, "");
    assert_eq!(info.provider, "custom");
    assert_eq!(get(&info.token, "b"), Some(j("2")));
}

#[test]
fn test_made_claims_have_all_fields() {
    let v = standard_token_claims("u", "p", Some(members(r#"{"k": true}"#)), 20, 10);
    assert_eq!(
        export_json(&v),
        j(
            r#"{"sub": "u", "exp": 20, "iat": 10, "aud": null, "provider": "p",
                "claims": {"k": true}, "server": null, "project": null}"#
        )
    );
    let bare = standard_token_claims("u", "p", None, 20, 10);
    assert_eq!(export_json(&bare).get("claims"), Some(&serde_json::Value::Null));
}

#[test]
fn test_made_token_is_read_in_a_project() {
    let custom = members(r#"{"deep": {"list": [1, 2, {"x": "y"}]}}"#);
    let token = generate_token(TEST_SECRET, "u", "google", Some(custom), 60).unwrap();
    let validator = MultiValidator::new(&[]);
    let info = validator
        .validate_for_project(&token, secret_text(TEST_SECRET), None, None)
        .unwrap();
    assert_eq!(info.uid, "u");
    assert_eq!(info.provider, "google");
    assert_eq!(get(&info.token, "deep"), Some(j(r#"{"list": [1, 2, {"x": "y"}]}"#)));
    assert!(info.database_id.is_none());

    let other = validator.validate_for_project(&token, Some("another"), None, None);
    assert!(matches!(other, Err(AuthError::InvalidToken(_))));
}

#[test]
fn test_tokens_with_an_audience_name_a_database() {
    let token = signed(r#"{"sub": "u", "aud": "db-7"}"#, None, Algorithm::HS256, TEST_SECRET);
    let info = Validator::new(TEST_SECRET).validate(&token).unwrap();
    assert_eq!(info.database_id.as_deref(), Some("db-7"));
}

#[test]
fn test_validator_for_one_server() {
    let token = signed(r#"{"sub": "u", "server": "s2"}"#, None, Algorithm::HS256, TEST_SECRET);
    let r = Validator::with_server(TEST_SECRET, "s1").validate(&token);
    assert!(matches!(r, Err(AuthError::WrongServer { .. })));
    assert!(Validator::with_server(TEST_SECRET, "s2").validate(&token).is_ok());
    let open = signed(r#"{"sub": "u"}"#, None, Algorithm::HS256, TEST_SECRET);
    assert!(Validator::with_server(TEST_SECRET, "s1").validate(&open).is_ok());
}

#[test]
fn test_tokens_without_expiry_are_read() {
    let token = signed_as_is(r#"{"uid": "u"}"#, TEST_SECRET);
    let info = validate_lark_customer_token(&token, TEST_SECRET).unwrap();
    assert_eq!(info.uid, "u");
    let old = signed_as_is(r#"{"uid": "u", "exp": 1}"#, TEST_SECRET);
    assert!(matches!(
        validate_lark_customer_token(&old, TEST_SECRET),
        Err(AuthError::ExpiredToken)
    ));
    let old_legacy = signed_as_is(r#"{"d": {}, "exp": 1}"#, TEST_SECRET);
    assert!(matches!(
        validate_legacy_token(&old_legacy, TEST_SECRET),
        Err(AuthError::ExpiredToken)
    ));
    let old_and_wrong = signed_as_is(r#"{"uid": 5, "exp": 1}"#, TEST_SECRET);
    assert!(matches!(
        validate_lark_customer_token(&old_and_wrong, TEST_SECRET),
        Err(AuthError::InvalidToken(_))
    ));
}

#[test]
fn test_project_refusals_say_why() {
    let mut validator = MultiValidator::new(&[]);
    validator.add_firebase_project_id("p");
    assert_eq!(
        message_of(validator.validate_for_project("owner", None, None, None)),
        "owner token only valid in emulator mode"
    );
    let admin = signed(r#"{"sub": "a"}"#, Some("coordinator"), Algorithm::HS256, ADMIN_SECRET);
    assert_eq!(
        message_of(validator.validate_for_project(&admin, secret_text(TEST_SECRET), None, None)),
        "no admin secret key available for coordinator token"
    );
    let customer = signed(r#"{"uid": "a"}"#, None, Algorithm::HS256, TEST_SECRET);
    assert_eq!(
        message_of(validator.validate_for_project(&customer, None, secret_text(ADMIN_SECRET), None)),
        "no secret key available"
    );
    let longer = signed(r#"{"uid": "a"}"#, None, Algorithm::HS384, TEST_SECRET);
    assert_eq!(
        message_of(validator.validate_for_project(&longer, secret_text(TEST_SECRET), None, None)),
        "unsupported algorithm HS384"
    );
    // {"alg":"RS256"} . {} . x
    assert_eq!(
        message_of(validator.validate_for_project("eyJhbGciOiJSUzI1NiJ9.e30.eA", None, None, None)),
        "RS256 tokens must be validated by proxy layer"
    );
    // A customer's token never makes a true admin, whatever it claims.
    let claimed = signed(
        r#"{"uid": "a", "claims": {"isAdmin": true}}"#,
        None,
        Algorithm::HS256,
        TEST_SECRET,
    );
    let info = validator
        .validate_for_project(&claimed, secret_text(TEST_SECRET), secret_text(ADMIN_SECRET), None)
        .unwrap();
    assert!(!info.is_true_admin);
    // A coordinator's token has to be signed with the admin key.
    let forged = signed(r#"{"sub": "a"}"#, Some("coordinator"), Algorithm::HS256, TEST_SECRET);
    let r = validator.validate_for_project(
        &forged,
        secret_text(TEST_SECRET),
        secret_text(ADMIN_SECRET),
        None,
    );
    assert!(matches!(r, Err(AuthError::InvalidToken(_))));
}

#[test]
fn test_payloads_that_cannot_be_read() {
    let malformed = match peek_token_payload("a.b") {
        Err(AuthError::InvalidToken(m)) => m,
        _ => panic!(),
    };
    assert_eq!(malformed, "malformed token");
    let bad_base64 = match peek_token_payload("a.%%.c") {
        Err(AuthError::InvalidToken(m)) => m,
        _ => panic!(),
    };
    let engine = base64::engine::general_purpose::URL_SAFE_NO_PAD;
    let why = base64::Engine::decode(&engine, "%%").unwrap_err();
    assert_eq!(bad_base64, format!("invalid base64: {}", why));
    // "e" and "[]" in base64
    let bad_json = match peek_token_payload("a.ZQ.c") {
        Err(AuthError::InvalidToken(m)) => m,
        _ => panic!(),
    };
    assert_eq!(bad_json, "invalid JSON: expected value at line 1 column 1");
    let no_object = match peek_token_payload("a.W10.c") {
        Err(AuthError::InvalidToken(m)) => m,
        _ => panic!(),
    };
    assert_eq!(no_object, "invalid JSON: not an object");
    let no_header = match peek_token_header("x") {
        Err(AuthError::InvalidToken(m)) => m,
        _ => panic!(),
    };
    assert_eq!(no_header, "InvalidToken");
}

#[test]
fn test_unreadable_tokens_say_what_is_wrong() {
    let validator = Validator::new(TEST_SECRET);
    assert_eq!(message_of(validator.validate("x")), "InvalidToken");
    let forged = signed(r#"{"sub": "a"}"#, None, Algorithm::HS256, b"another secret");
    assert_eq!(message_of(validator.validate(&forged)), "InvalidSignature");
    assert_eq!(message_of(validate_lark_customer_token(&forged, TEST_SECRET)), "InvalidSignature");
    let other = signed(r#"{"sub": "a"}"#, None, Algorithm::HS512, TEST_SECRET);
    assert_eq!(message_of(validate_legacy_token(&other, TEST_SECRET)), "InvalidAlgorithm");
    let listed = signed_as_is("[1]", TEST_SECRET);
    assert!(validate_lark_customer_token(&listed, TEST_SECRET).is_err());
}

#[test]
fn test_default_principals() {
    let info = AuthInfo::default();
    assert_eq!(info.provider, "custom");
    assert!(info.uid.is_empty() && info.token.is_empty() && !info.is_true_admin);
    let how = FirebaseInfo::default();
    assert!(how.sign_in_provider.is_none() && how.identities.is_none() && how.tenant.is_none());
}

fn limits() -> Limits {
    Limits { max_path_depth: 32, max_volatile_write_size: 2048, max_response_size: 16_777_216 }
}

fn auth_message(token: Option<&str>) -> ClientMessage {
    let mut msg = ClientMessage::new(Operation::Auth);
    msg.request_id = Some("r1".to_string());
    msg.token = token.map(|t| t.to_string());
    msg
}

#[test]
fn test_clients_are_told_about_their_tokens() {
    let mut db = Database::new("test".to_string(), "p".to_string(), true, limits());
    let secret = std::str::from_utf8(TEST_SECRET).unwrap();
    db.set_project_secret(secret);
    match db.handle_auth("ghost", &auth_message(None)) {
        ServerMessage::Nack { code, message, .. } => {
            assert!(code == ErrorCode::NotFound);
            assert_eq!(message, "client not found");
        }
        _ => panic!(),
    }
    db.add_client_internal("c1", None, "conn1");
    let token = signed(
        r#"{"uid": "alice", "claims": {"role": "x"}}"#,
        None,
        Algorithm::HS256,
        TEST_SECRET,
    );
    match db.handle_auth("c1", &auth_message(Some(&token))) {
        ServerMessage::AuthAck { request_id, uid } => {
            assert_eq!(request_id, "r1");
            assert_eq!(uid, "alice");
        }
        _ => panic!(),
    }
    let client = db.clients.get("c1").unwrap();
    assert!(client.auth_complete);
    assert_eq!(client.auth.as_ref().unwrap().uid, "alice");
    assert_eq!(get(&client.auth.as_ref().unwrap().token, "role"), Some(j("\"x\"")));
    assert_eq!(client.rules_auth.as_ref().unwrap().uid.as_deref(), Some("alice"));

    // A token with another signature is refused, and nothing changes.
    let forged = signed(r#"{"uid": "bob"}"#, None, Algorithm::HS256, b"other");
    match db.handle_auth("c1", &auth_message(Some(&forged))) {
        ServerMessage::Nack { code, message, .. } => {
            assert!(code == ErrorCode::PermissionDenied);
            assert_eq!(message, "invalid token: InvalidToken(\"InvalidSignature\")");
        }
        _ => panic!(),
    }
    assert_eq!(db.clients.get("c1").unwrap().auth.as_ref().unwrap().uid, "alice");

    // An empty token makes the client anonymous.
    match db.handle_auth("c1", &auth_message(None)) {
        ServerMessage::AuthAck { uid, .. } => assert_eq!(uid, ""),
        _ => panic!(),
    }
    assert!(db.clients.get("c1").unwrap().auth.is_none());
    assert!(db.clients.get("c1").unwrap().auth_complete);
}

#[test]
fn test_tokens_in_emulator_mode_are_taken_at_their_word() {
    let token = signed(r#"{"uid": "eve"}"#, None, Algorithm::HS256, b"whatever");
    let info = validate_auth_token(&token, None).unwrap();
    assert_eq!(info.uid, "eve");
    assert!(validate_auth_token(&token, Some("another")).is_err());
    match read_unverified_token(&signed_as_is(r#"{"uid": ""}"#, b"k")) {
        Err(AuthError::InvalidClaims(m)) => assert_eq!(m, "missing uid"),
        _ => panic!(),
    }
    match validate_auth_token(&signed(r#"{"uid": "a"}"#, None, Algorithm::HS512, b"k"), None) {
        Err(m) => assert_eq!(m, "unsupported algorithm: HS512"),
        Ok(_) => panic!(),
    }
    match validate_auth_token("x.y.z", None) {
        Err(m) => assert!(m.starts_with("InvalidToken(\"Base64 error: ")),
        Ok(_) => panic!(),
    }
    match validate_auth_token("x", None) {
        Err(m) => assert_eq!(m, "InvalidToken(\"InvalidToken\")"),
        Ok(_) => panic!(),
    }
}

#[test]
fn test_expired_tokens_are_refused_whatever_they_claim() {
    let standard = || members(r#"{"sub": "u", "exp": 1}"#);
    let info = standard_verdict(TokenRead::Claims(standard()), &None).unwrap();
    assert_eq!(info.uid, "u");
    let r = standard_verdict(TokenRead::Expired(standard()), &None);
    assert!(matches!(r, Err(AuthError::ExpiredToken)));
    let form = "claims do not have the expected form";
    assert_eq!(message_of(standard_verdict(TokenRead::Expired(members("{}")), &None)), form);
    assert_eq!(message_of(standard_verdict(TokenRead::Claims(members("{}")), &None)), form);
    let failed = TokenRead::Failed("no good".to_string());
    assert_eq!(message_of(standard_verdict(failed, &None)), "no good");

    let customer = || members(r#"{"uid": "c", "exp": 1}"#);
    assert_eq!(customer_verdict(TokenRead::Claims(customer())).unwrap().uid, "c");
    let r = customer_verdict(TokenRead::Expired(customer()));
    assert!(matches!(r, Err(AuthError::ExpiredToken)));
    assert_eq!(message_of(customer_verdict(TokenRead::Expired(members("{}")))), form);

    let legacy = || members(r#"{"d": {"k": 1}, "exp": 1}"#);
    let info = legacy_verdict(TokenRead::Claims(legacy())).unwrap();
    assert_eq!(get(&info.token, "k"), Some(j("1")));
    assert!(matches!(legacy_verdict(TokenRead::Expired(legacy())), Err(AuthError::ExpiredToken)));

    let past = chrono::Utc::now().timestamp() - 7200;
    let token = signed_as_is(&format!(r#"{{"uid": "c", "exp": {}}}"#, past), TEST_SECRET);
    let r = validate_lark_customer_token(&token, TEST_SECRET);
    assert!(matches!(r, Err(AuthError::ExpiredToken)));
    let r = validate_legacy_token(&token, TEST_SECRET);
    assert!(matches!(r, Err(AuthError::ExpiredToken)));
    let r = Validator::new(TEST_SECRET).validate(&token);
    assert_eq!(message_of(r), form);
}

#[test]
fn test_made_tokens_carry_large_numbers_and_deep_claims() {
    let deep = format!("{}1{}", "[".repeat(125), "]".repeat(125));
    let claims = members(&format!(r#"{{"big": 18446744073709551615, "deep": {}}}"#, deep));
    let token = generate_test_token(TEST_SECRET, "u", Some(claims)).unwrap();
    let info = Validator::new(TEST_SECRET).validate(&token).unwrap();
    assert_eq!(get(&info.token, "big"), Some(j("18446744073709551615")));
    assert_eq!(get(&info.token, "deep"), Some(j(&deep)));
}

#[test]
fn test_standard_claims_may_be_listed() {
    let token = signed_as_is(r#"["user-9", null, null, null, null]"#, TEST_SECRET);
    let info = Validator::new(TEST_SECRET).validate(&token).unwrap();
    assert_eq!(info.uid, "user-9");
    assert_eq!(info.provider, "custom");
    assert!(validate_lark_customer_token(&token, TEST_SECRET).is_err());
    let short = signed_as_is(r#"["user-9"]"#, TEST_SECRET);
    assert!(Validator::new(TEST_SECRET).validate(&short).is_err());
}
