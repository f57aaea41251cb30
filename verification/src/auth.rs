//! Which kind of token a client came with, and whom it stands for.
use crate::clients;
use crate::clients::Client;
use crate::database::Database;
use crate::jwt;
use crate::jwt::{
    customer_auth_info, peek_token_header, peek_token_payload, validate_lark_customer_token,
    validate_legacy_token, AuthError, AuthInfo, LarkCustomerClaims, Principal, Validator,
};
use crate::plain::{lookup_member, Plain};
use crate::protocol::{Answer, ClientMessage, ErrorCode, ServerMessage};
use crate::text;
use crate::text::{concat, same_text};
use crate::value::{JsonValue, Member};
use vstd::prelude::*;

verus! {

broadcast use vstd::string::group_string_axioms;

/// The bytes of a key.
pub open spec fn key_bytes(key: Seq<char>) -> Seq<u8> {
    vstd::utf8::encode_utf8(key)
}

/// The text of an optional string slice.
pub open spec fn opt_str(s: Option<&str>) -> Option<Seq<char>> {
    match s {
        Some(t) => Some(t@),
        None => None,
    }
}

/// Whether an outcome is an invalid token with a given message.
pub open spec fn refused_with(r: Result<AuthInfo, AuthError>, message: Seq<char>) -> bool {
    r matches Err(AuthError::InvalidToken(m)) && m@ == message
}

/// Whether an outcome is another one whose principal is made a true admin.
pub open spec fn made_admin(
    o: Result<AuthInfo, AuthError>,
    r: Result<AuthInfo, AuthError>,
) -> bool {
    match o {
        Ok(a) => r matches Ok(b) && b@ == (Principal { is_true_admin: true, ..a@ }),
        Err(e) => r matches Err(f) && e == f,
    }
}

/// Whether an outcome is what a coordinator's token calls for.
pub open spec fn coordinator_outcome(
    token: Seq<char>,
    key: Seq<u8>,
    r: Result<AuthInfo, AuthError>,
) -> bool {
    exists|o: Result<AuthInfo, AuthError>|
        jwt::standard_token_outcome(token, key, None, o) && #[trigger] made_admin(o, r)
}

/// Whether an outcome is what a token that is signed with a shared secret calls for.
pub open spec fn hs256_outcome(
    token: Seq<char>,
    secret: Option<Seq<char>>,
    admin: Option<Seq<char>>,
    kid: Option<Seq<char>>,
    r: Result<AuthInfo, AuthError>,
) -> bool {
    if kid == Some("coordinator"@) {
        match admin {
            None => refused_with(r, "no admin secret key available for coordinator token"@),
            Some(k) => coordinator_outcome(token, key_bytes(k), r),
        }
    } else {
        match secret {
            None => refused_with(r, "no secret key available"@),
            Some(k) => match jwt::payload_claims(token) {
                Err(why) => jwt::is_unreadable(why, r),
                Ok(p) => if p.contains_key("uid"@) {
                    jwt::customer_token_outcome(token, key_bytes(k), r)
                } else if p.contains_key("d"@) {
                    jwt::legacy_token_outcome(token, key_bytes(k), r)
                } else {
                    jwt::standard_token_outcome(token, key_bytes(k), None, r)
                },
            },
        }
    }
}

/// The owner of an emulated project.
pub open spec fn owner() -> Principal {
    Principal {
        uid: "owner"@,
        provider: "owner"@,
        token: Map::empty().insert("isAdmin"@, Plain::Bool(true)),
        is_true_admin: true,
        ..jwt::nobody()
    }
}

/// Whether an outcome is what a token calls for in a project with the given keys.
pub open spec fn project_outcome(
    emulator: bool,
    token: Seq<char>,
    secret: Option<Seq<char>>,
    admin: Option<Seq<char>>,
    r: Result<AuthInfo, AuthError>,
) -> bool {
    if token.len() == 0 {
        r is Err && r->Err_0 is NoToken
    } else if token == "owner"@ {
        if emulator {
            r matches Ok(info) && info@ == owner()
        } else {
            refused_with(r, "owner token only valid in emulator mode"@)
        }
    } else {
        match jwt::token_header(token) {
            Err(why) => jwt::is_unreadable(why, r),
            Ok((alg, kid)) => if alg == "HS256"@ {
                hs256_outcome(token, secret, admin, kid, r)
            } else if alg == "RS256"@ {
                refused_with(r, "RS256 tokens must be validated by proxy layer"@)
            } else {
                refused_with(r, "unsupported algorithm "@ + alg)
            },
        }
    }
}

/// Validates the tokens of a project, which are signed with a shared secret.
pub struct MultiValidator {
    pub emulator_mode: bool,
}

impl MultiValidator {
    /// A validator outside emulator mode. Identity providers are not its business.
    pub fn new(_firebase_project_ids: &[String]) -> (r: MultiValidator)
        ensures
            !r.emulator_mode,
    {
        MultiValidator { emulator_mode: false }
    }

    /// Turns emulator mode on or off. In emulator mode the token "owner" is that of an
    /// admin.
    pub fn set_emulator_mode(&mut self, enabled: bool)
        ensures
            final(self).emulator_mode == enabled,
    {
        self.emulator_mode = enabled;
    }

    /// Does nothing: the tokens of identity providers are validated elsewhere.
    pub fn add_firebase_project_id(&mut self, _project_id: &str)
        ensures
            *final(self) == *old(self),
    {
    }

    /// Reads a token with the keys of a project and says whom it stands for.
    pub fn validate_for_project(
        &self,
        token_string: &str,
        secret_key: Option<&str>,
        admin_secret_key: Option<&str>,
        _firebase_project_id: Option<&str>,
    ) -> (r: Result<AuthInfo, AuthError>)
        ensures
            project_outcome(
                self.emulator_mode,
                token_string@,
                opt_str(secret_key),
                opt_str(admin_secret_key),
                r,
            ),
    {
        if token_string.is_empty() {
            return Err(AuthError::NoToken);
        }
        if same_text(token_string, "owner") {
            if !self.emulator_mode {
                return Err(
                    AuthError::InvalidToken("owner token only valid in emulator mode".to_owned()),
                );
            }
            return Ok(owner_info());
        }
        let (alg, kid) = match peek_token_header(token_string) {
            Ok(h) => h,
            Err(e) => {
                return Err(e);
            },
        };
        if same_text(alg.as_str(), "HS256") {
            let kid_text = match &kid {
                Some(k) => Some(k.as_str()),
                None => None,
            };
            self.validate_hs256_token(token_string, secret_key, admin_secret_key, kid_text)
        } else if same_text(alg.as_str(), "RS256") {
            Err(
                AuthError::InvalidToken(
                    "RS256 tokens must be validated by proxy layer".to_owned(),
                ),
            )
        } else {
            Err(AuthError::InvalidToken(concat("unsupported algorithm ", alg.as_str())))
        }
    }

    /// Reads a token that is signed with a shared secret. Which secret, and which kind of
    /// claims, the key id and the payload tell.
    pub fn validate_hs256_token(
        &self,
        token_string: &str,
        secret_key: Option<&str>,
        admin_secret_key: Option<&str>,
        kid: Option<&str>,
    ) -> (r: Result<AuthInfo, AuthError>)
        ensures
            hs256_outcome(
                token_string@,
                opt_str(secret_key),
                opt_str(admin_secret_key),
                opt_str(kid),
                r,
            ),
    {
        let coordinator = match kid {
            Some(k) => same_text(k, "coordinator"),
            None => false,
        };
        if coordinator {
            let key = match admin_secret_key {
                Some(k) => k,
                None => {
                    return Err(
                        AuthError::InvalidToken(
                            "no admin secret key available for coordinator token".to_owned(),
                        ),
                    );
                },
            };
            let o = Validator::new(key.as_bytes()).validate(token_string);
            let ghost before = o;
            let r = match o {
                Ok(mut info) => {
                    info.is_true_admin = true;
                    Ok(info)
                },
                Err(e) => Err(e),
            };
            assert(made_admin(before, r));
            return r;
        }
        let key = match secret_key {
            Some(k) => k,
            None => {
                return Err(AuthError::InvalidToken("no secret key available".to_owned()));
            },
        };
        let payload = match peek_token_payload(token_string) {
            Ok(p) => p,
            Err(e) => {
                return Err(e);
            },
        };
        if has_claim(&payload, "uid") {
            validate_lark_customer_token(token_string, key.as_bytes())
        } else if has_claim(&payload, "d") {
            validate_legacy_token(token_string, key.as_bytes())
        } else {
            Validator::new(key.as_bytes()).validate(token_string)
        }
    }
}

/// The owner of an emulated project.
fn owner_info() -> (r: AuthInfo)
    ensures
        r@ == owner(),
{
    let mut info = AuthInfo::default();
    info.uid = "owner".to_owned();
    info.provider = "owner".to_owned();
    info.is_true_admin = true;
    jwt::add_claim(&mut info.token, "isAdmin", JsonValue::Bool(true));
    info
}

/// Whether a payload has a claim, be it null.
fn has_claim(payload: &Vec<Member>, key: &str) -> (r: bool)
    ensures
        r == jwt::claims_of(payload@).contains_key(key@),
{
    proof {
        jwt::lemma_claims_lookup(
            crate::value::members_json(payload@),
            payload@.len() as int,
            key@,
        );
    }
    match lookup_member(payload, key) {
        Some(_) => true,
        None => false,
    }
}

/// Names how a text is shown in quotes, for a developer to read.
pub uninterp spec fn quoted(s: Seq<char>) -> Seq<char>;

/// The `Debug` form of a string slice: what is shown depends on the text alone.
#[verifier::external_body]
fn quote(s: &str) -> (r: String)
    ensures
        r@ == quoted(s@),
{
    format!("{:?}", s)
}

/// How an error is shown, for a developer to read.
pub open spec fn shown_error(e: AuthError) -> Seq<char> {
    match e {
        AuthError::NoToken => "NoToken"@,
        AuthError::InvalidToken(m) => "InvalidToken("@ + quoted(m@) + ")"@,
        AuthError::ExpiredToken => "ExpiredToken"@,
        AuthError::InvalidClaims(m) => "InvalidClaims("@ + quoted(m@) + ")"@,
        AuthError::WrongServer { expected, got } => {
            "WrongServer { expected: "@ + quoted(expected@) + ", got: "@ + quoted(got@) + " }"@
        },
        AuthError::InvalidIssuer(m) => "InvalidIssuer("@ + quoted(m@) + ")"@,
        AuthError::InvalidAudience(m) => "InvalidAudience("@ + quoted(m@) + ")"@,
        AuthError::KeyNotFound(m) => "KeyNotFound("@ + quoted(m@) + ")"@,
        AuthError::InvalidKeyId => "InvalidKeyId"@,
        AuthError::InvalidServiceAccount(m) => "InvalidServiceAccount("@ + quoted(m@) + ")"@,
    }
}

/// A name with a text in brackets.
fn named(name: &str, m: &str) -> (r: String)
    ensures
        r@ == name@ + quoted(m@) + ")"@,
{
    let mut out = concat(name, quote(m).as_str());
    out.append(")");
    out
}

/// How an error is shown, for a developer to read.
pub fn show_error(e: &AuthError) -> (r: String)
    ensures
        r@ == shown_error(*e),
{
    match e {
        AuthError::NoToken => "NoToken".to_owned(),
        AuthError::InvalidToken(m) => named("InvalidToken(", m.as_str()),
        AuthError::ExpiredToken => "ExpiredToken".to_owned(),
        AuthError::InvalidClaims(m) => named("InvalidClaims(", m.as_str()),
        AuthError::WrongServer { expected, got } => {
            let mut out = concat("WrongServer { expected: ", quote(expected.as_str()).as_str());
            out.append(", got: ");
            out.append(quote(got.as_str()).as_str());
            out.append(" }");
            out
        },
        AuthError::InvalidIssuer(m) => named("InvalidIssuer(", m.as_str()),
        AuthError::InvalidAudience(m) => named("InvalidAudience(", m.as_str()),
        AuthError::KeyNotFound(m) => named("KeyNotFound(", m.as_str()),
        AuthError::InvalidKeyId => "InvalidKeyId".to_owned(),
        AuthError::InvalidServiceAccount(m) => named("InvalidServiceAccount(", m.as_str()),
    }
}

/// Whether an outcome is what the claims in a token call for whose signature nobody
/// looks at.
pub open spec fn unverified_outcome(token: Seq<char>, r: Result<AuthInfo, AuthError>) -> bool {
    match jwt::payload_claims(token) {
        Err(why) => jwt::is_unreadable(why, r),
        Ok(m) => match jwt::customer_claims(m) {
            None => jwt::has_wrong_form(r),
            Some(c) => jwt::customer_outcome(c, r),
        },
    }
}

/// Whether an outcome is another one with its error put in words.
pub open spec fn in_words(o: Result<AuthInfo, AuthError>, r: Result<AuthInfo, String>) -> bool {
    match o {
        Ok(a) => r matches Ok(b) && a == b,
        Err(e) => r matches Err(t) && t@ == shown_error(e),
    }
}

/// Whether an outcome is what a customer's token calls for in a database, with an error
/// in words. A database without a secret runs in emulator mode and takes a token of the
/// right form at its word.
pub open spec fn customer_verdict(
    token: Seq<char>,
    secret: Option<Seq<char>>,
    r: Result<AuthInfo, String>,
) -> bool {
    exists|o: Result<AuthInfo, AuthError>|
        (match secret {
            Some(k) => jwt::customer_token_outcome(token, key_bytes(k), o),
            None => unverified_outcome(token, o),
        }) && #[trigger] in_words(o, r)
}

/// Whether an outcome is what a token calls for in a database.
pub open spec fn token_verdict(
    token: Seq<char>,
    secret: Option<Seq<char>>,
    r: Result<AuthInfo, String>,
) -> bool {
    match jwt::token_header(token) {
        Err(why) => r matches Err(t) && t@ == "InvalidToken("@ + quoted(why) + ")"@,
        Ok((alg, _)) => if alg == "HS256"@ {
            customer_verdict(token, secret, r)
        } else {
            r matches Err(t) && t@ == "unsupported algorithm: "@ + alg
        },
    }
}

/// Reads a customer token without looking at its signature, and says whom it claims to
/// stand for.
pub fn read_unverified_token(token: &str) -> (r: Result<AuthInfo, AuthError>)
    ensures
        unverified_outcome(token@, r),
{
    let payload = match peek_token_payload(token) {
        Ok(p) => p,
        Err(e) => {
            return Err(e);
        },
    };
    match LarkCustomerClaims::from_members(&payload) {
        Some(c) => customer_auth_info(c),
        None => Err(jwt::wrong_form()),
    }
}

/// Reads a token with the secret of a database, if it has one, and says whom it stands
/// for.
pub fn validate_auth_token(token: &str, project_secret: Option<&str>) -> (r: Result<
    AuthInfo,
    String,
>)
    ensures
        token_verdict(token@, opt_str(project_secret), r),
{
    let (alg, _kid) = match peek_token_header(token) {
        Ok(h) => h,
        Err(e) => {
            return Err(show_error(&e));
        },
    };
    if !same_text(alg.as_str(), "HS256") {
        return Err(concat("unsupported algorithm: ", alg.as_str()));
    }
    let o = match project_secret {
        Some(secret) => validate_lark_customer_token(token, secret.as_bytes()),
        None => read_unverified_token(token),
    };
    let ghost before = o;
    let r = match o {
        Ok(info) => Ok(info),
        Err(e) => Err(show_error(&e)),
    };
    assert(in_words(before, r));
    r
}

impl Database {
    /// Whether a state and an answer are what a verdict on a client's token leads to.
    pub open spec fn follows_verdict(
        &self,
        before: &Database,
        client: Seq<char>,
        msg: &ClientMessage,
        verdict: Result<AuthInfo, String>,
        answer: Answer,
    ) -> bool {
        match verdict {
            Ok(info) => {
                let who = clients::Identity {
                    uid: info.uid@,
                    provider: info.provider@,
                    token: crate::value::members_json(info.token@),
                    is_admin: info.is_true_admin,
                };
                &&& answer == Answer::AuthAck(msg.request(), info.uid@)
                &&& self.reidentified(
                    before,
                    client,
                    Client {
                        id: client,
                        auth: Some(who),
                        rules_auth: Some(clients::rules_view(who)),
                        connection: before.clients@[client].connection,
                        auth_complete: true,
                    },
                )
            },
            Err(e) => {
                &&& answer == Answer::Nack(
                    msg.request(),
                    ErrorCode::PermissionDenied,
                    "invalid token: "@ + e@,
                )
                &&& *self == *before
            },
        }
    }

    /// Whether a state and an answer are what some verdict on a client's token leads to.
    pub open spec fn token_handled(
        &self,
        before: &Database,
        client: Seq<char>,
        msg: &ClientMessage,
        token: Seq<char>,
        answer: Answer,
    ) -> bool {
        exists|verdict: Result<AuthInfo, String>|
            token_verdict(token, jwt::opt_text(before.project_secret), verdict)
                && #[trigger] self.follows_verdict(before, client, msg, verdict, answer)
    }

    /// Puts down what a verdict on a client's token says of the client, and answers.
    pub fn auth_judged(
        &mut self,
        client_id: &str,
        msg: &ClientMessage,
        verdict: Result<AuthInfo, String>,
    ) -> (r: ServerMessage)
        requires
            old(self).inv(),
            old(self).clients@.contains_key(client_id@),
        ensures
            final(self).inv(),
            final(self).follows_verdict(old(self), client_id@, msg, verdict, r@),
    {
        match verdict {
            Ok(info) => {
                let uid = info.uid.clone();
                let who = clients::AuthInfo {
                    uid: info.uid,
                    provider: info.provider,
                    token: info.token,
                    is_admin: info.is_true_admin,
                };
                self.handle_auth_update(client_id, Some(who));
                ServerMessage::auth_ack(msg.request_text(), uid.as_str())
            },
            Err(e) => ServerMessage::nack(
                msg.request_text(),
                ErrorCode::PermissionDenied,
                concat("invalid token: ", e.as_str()).as_str(),
            ),
        }
    }

    /// Handles a client's token. An empty one makes the client anonymous.
    pub fn handle_auth(&mut self, client_id: &str, msg: &ClientMessage) -> (r: ServerMessage)
        requires
            old(self).inv(),
        ensures
            final(self).inv(),
            if !old(self).clients@.contains_key(client_id@) {
                &&& r@ == Answer::Nack(
                    msg.request(),
                    ErrorCode::NotFound,
                    "client not found"@,
                )
                &&& *final(self) == *old(self)
            } else if msg.said_token().len() == 0 {
                &&& r@ == Answer::AuthAck(msg.request(), Seq::empty())
                &&& final(self).reidentified(
                    old(self),
                    client_id@,
                    Client {
                        id: client_id@,
                        auth: None,
                        rules_auth: None,
                        connection: old(self).clients@[client_id@].connection,
                        auth_complete: true,
                    },
                )
            } else {
                final(self).token_handled(old(self), client_id@, msg, msg.said_token(), r@)
            },
    {
        if self.clients.get(client_id).is_none() {
            return ServerMessage::nack(
                msg.request_text(),
                ErrorCode::NotFound,
                "client not found",
            );
        }
        let token = match &msg.token {
            Some(t) => t.as_str(),
            None => "",
        };
        proof {
            reveal_strlit("");
            assert(""@ =~= Seq::<char>::empty());
        }
        if token.is_empty() {
            self.handle_auth_update(client_id, None);
            return ServerMessage::auth_ack(msg.request_text(), "");
        }
        let secret = match &self.project_secret {
            Some(s) => Some(s.as_str()),
            None => None,
        };
        let verdict = validate_auth_token(token, secret);
        self.auth_judged(client_id, msg, verdict)
    }
}

/// Only the owner of an emulated project and holders of a coordinator's token that is
/// signed with the admin key become true admins.
pub proof fn law_true_admins_are_vouched_for(
    emulator: bool,
    token: Seq<char>,
    secret: Option<Seq<char>>,
    admin: Option<Seq<char>>,
    r: Result<AuthInfo, AuthError>,
)
    requires
        project_outcome(emulator, token, secret, admin, r),
        r is Ok,
        r->Ok_0.is_true_admin,
    ensures
        (emulator && token == "owner"@) || (jwt::token_header(token) is Ok && jwt::token_header(
            token,
        )->Ok_0 == ("HS256"@, Some("coordinator"@)) && admin is Some && jwt::token_claims(token, key_bytes(admin->0), true) is Ok),
{
    if token.len() > 0 && token != "owner"@ {
        let (alg, kid) = jwt::token_header(token)->Ok_0;
        if kid == Some("coordinator"@) && admin is Some {
            let k = key_bytes(admin->0);
            let o = choose|o: Result<AuthInfo, AuthError>|
                jwt::standard_token_outcome(token, k, None, o) && #[trigger] made_admin(o, r);
            assert(made_admin(o, r));
        } else {
            assert(r->Ok_0@.is_true_admin);
        }
    }
}

/// A token other than the owner's is accepted only if it is signed with a key of the
/// project: the admin key for a coordinator's token, else the secret.
pub proof fn law_accepted_tokens_are_signed(
    emulator: bool,
    token: Seq<char>,
    secret: Option<Seq<char>>,
    admin: Option<Seq<char>>,
    r: Result<AuthInfo, AuthError>,
)
    requires
        project_outcome(emulator, token, secret, admin, r),
        r is Ok,
        token != "owner"@,
    ensures
        jwt::token_header(token) is Ok,
        ({
            let (_, kid) = jwt::token_header(token)->Ok_0;
            let key = if kid == Some("coordinator"@) {
                admin
            } else {
                secret
            };
            key is Some && jwt::token_claims(token, key_bytes(key->0), true) is Ok
        }),
{
    let (alg, kid) = jwt::token_header(token)->Ok_0;
    if kid == Some("coordinator"@) {
        let k = key_bytes(admin->0);
        let o = choose|o: Result<AuthInfo, AuthError>|
            jwt::standard_token_outcome(token, k, None, o) && #[trigger] made_admin(o, r);
        assert(made_admin(o, r));
    }
}

/// A token that was made with the secret of a project stands, in that project, for the
/// user that it was made for, until it expires.
pub proof fn law_made_token_is_accepted(
    emulator: bool,
    token: Seq<char>,
    secret: Seq<char>,
    admin: Option<Seq<char>>,
    uid: Seq<char>,
    provider: Seq<char>,
    custom: Option<Map<Seq<char>, Plain>>,
    expiry_secs: i64,
    r: Result<AuthInfo, AuthError>,
)
    requires
        jwt::was_made(token, key_bytes(secret), uid, provider, custom, expiry_secs),
        uid.len() > 0,
        custom matches Some(m) ==> jwt::is_tame(Plain::Object(m), 126),
        project_outcome(emulator, token, Some(secret), admin, r),
    ensures
        match r {
            Ok(info) => info@ == jwt::made_principal(uid, provider, custom),
            Err(e) => e is ExpiredToken,
        },
{
    reveal_strlit("owner");
    reveal_with_fuel(text::split, 6);
    let key = key_bytes(secret);
    let iat = choose|iat: i64| #[trigger]
        jwt::is_made_token(
            token,
            key,
            uid,
            provider,
            custom,
            iat,
            jwt::clamped_sum(iat, expiry_secs),
        );
    jwt::lemma_made_claims(uid, provider, custom, jwt::clamped_sum(iat, expiry_secs), iat);
    jwt::law_made_token_is_read(token, key, uid, provider, custom, expiry_secs, None, r);
}

/// A coordinator's token that is signed with the admin key and names its user makes a true
/// admin of that user, with the claims that it carries.
pub proof fn law_coordinators_become_admins(
    emulator: bool,
    token: Seq<char>,
    secret: Option<Seq<char>>,
    admin: Seq<char>,
    r: Result<AuthInfo, AuthError>,
)
    requires
        project_outcome(emulator, token, secret, Some(admin), r),
        token != "owner"@,
        token.len() > 0,
        jwt::token_header(token) is Ok,
        jwt::token_header(token)->Ok_0 == ("HS256"@, Some("coordinator"@)),
    ensures
        r matches Ok(info) ==> {
            let m = jwt::token_claims(token, key_bytes(admin), true)->Ok_0;
            &&& info.is_true_admin
            &&& jwt::says_text(m, "sub"@, Some(info.uid@))
            &&& !jwt::left_out(m, "claims"@) ==> m["claims"@] == Plain::Object(info@.token)
        },
{
    let k = key_bytes(admin);
    let o = choose|o: Result<AuthInfo, AuthError>|
        jwt::standard_token_outcome(token, k, None, o) && #[trigger] made_admin(o, r);
    assert(made_admin(o, r));
    jwt::law_standard_token_names_its_user(token, k, None, o);
}

/// A token that is not a coordinator's stands for the user that its payload names, as a
/// customer's token where it has a uid, as a legacy token where it has `d`, and else as a
/// standard one; the owner of an emulated project is an admin.
pub proof fn law_tokens_are_read_by_their_kind(
    emulator: bool,
    token: Seq<char>,
    secret: Option<Seq<char>>,
    admin: Option<Seq<char>>,
    r: Result<AuthInfo, AuthError>,
)
    requires
        project_outcome(emulator, token, secret, admin, r),
    ensures
        token.len() == 0 ==> r is Err && r->Err_0 is NoToken,
        token == "owner"@ && !emulator ==> r is Err,
        token == "owner"@ && emulator ==> r is Ok && r->Ok_0.is_true_admin && r->Ok_0.uid@
            == "owner"@,
        token.len() > 0 && token != "owner"@ && r is Ok ==> {
            let (alg, kid) = jwt::token_header(token)->Ok_0;
            &&& alg == "HS256"@
            &&& kid != Some("coordinator"@) ==> {
                let p = jwt::payload_claims(token)->Ok_0;
                let k = key_bytes(secret->0);
                &&& secret is Some
                &&& !r->Ok_0.is_true_admin
                &&& p.contains_key("uid"@) ==> jwt::says_text(
                    jwt::token_claims(token, k, false)->Ok_0,
                    "uid"@,
                    Some(r->Ok_0.uid@),
                )
                &&& !p.contains_key("uid"@) && p.contains_key("d"@) ==> r->Ok_0.uid@.len() == 0
                &&& !p.contains_key("uid"@) && !p.contains_key("d"@) ==> jwt::says_text(
                    jwt::token_claims(token, k, true)->Ok_0,
                    "sub"@,
                    Some(r->Ok_0.uid@),
                )
            }
        },
{
    reveal_strlit("owner");
    if token.len() > 0 && token != "owner"@ && r is Ok {
        let (alg, kid) = jwt::token_header(token)->Ok_0;
        if kid != Some("coordinator"@) {
            let k = key_bytes(secret->0);
            let p = jwt::payload_claims(token)->Ok_0;
            if p.contains_key("uid"@) {
                jwt::law_customer_token_names_its_user(token, k, r);
            } else if p.contains_key("d"@) {
                jwt::law_legacy_token_carries_its_claims(token, k, r);
            } else {
                jwt::law_standard_token_names_its_user(token, k, None, r);
            }
        }
    }
}

/// In a database with a secret a token counts only if it is signed with it, and one without a
/// secret takes a token at its word; either way it stands for the uid and the claims in it.
pub proof fn law_databases_read_customer_tokens(
    token: Seq<char>,
    secret: Option<Seq<char>>,
    r: Result<AuthInfo, String>,
)
    requires
        token_verdict(token, secret, r),
        r is Ok,
    ensures
        jwt::token_header(token) is Ok,
        jwt::token_header(token)->Ok_0.0 == "HS256"@,
        ({
            let m = match secret {
                Some(k) => jwt::token_claims(token, key_bytes(k), false),
                None => jwt::payload_claims(token),
            };
            &&& m is Ok
            &&& r->Ok_0.uid@.len() > 0
            &&& jwt::says_text(m->Ok_0, "uid"@, Some(r->Ok_0.uid@))
            &&& jwt::left_out(m->Ok_0, "claims"@) ==> r->Ok_0@.token == Map::<
                Seq<char>,
                Plain,
            >::empty()
            &&& !jwt::left_out(m->Ok_0, "claims"@) ==> m->Ok_0["claims"@] == Plain::Object(
                r->Ok_0@.token,
            )
            &&& !r->Ok_0.is_true_admin
        }),
{
    let o = choose|o: Result<AuthInfo, AuthError>|
        (match secret {
            Some(k) => jwt::customer_token_outcome(token, key_bytes(k), o),
            None => unverified_outcome(token, o),
        }) && #[trigger] in_words(o, r);
    assert(in_words(o, r));
    match secret {
        Some(k) => jwt::law_customer_token_names_its_user(token, key_bytes(k), o),
        None => jwt::law_customer_claims_are_in_the_payload(jwt::payload_claims(token)->Ok_0),
    }
}

/// A client whose token is accepted is known from then on, and to the rules, as the user that
/// the token stands for, with its claims; one whose token is refused stays who it was. No
/// other client is concerned.
pub proof fn law_accepted_token_identifies_the_client(
    before: Database,
    after: Database,
    client: Seq<char>,
    msg: ClientMessage,
    verdict: Result<AuthInfo, String>,
    answer: Answer,
)
    requires
        after.follows_verdict(&before, client, &msg, verdict, answer),
    ensures
        verdict matches Ok(info) ==> {
            let c = after.clients@[client];
            &&& after.clients@.contains_key(client)
            &&& answer == Answer::AuthAck(msg.request(), info.uid@)
            &&& c.auth is Some
            &&& c.auth->0.uid == info.uid@
            &&& c.auth->0.token == crate::value::members_json(info.token@)
            &&& c.auth->0.is_admin == info.is_true_admin
            &&& c.rules_auth is Some
            &&& info.uid@.len() > 0 ==> c.rules_auth->0.uid == Some(info.uid@)
            &&& info.token@.len() > 0 ==> c.rules_auth->0.token == Some(
                crate::value::members_json(info.token@),
            )
            &&& c.rules_auth->0.provider == Some(info.provider@)
            &&& c.rules_auth->0.is_true_admin == info.is_true_admin
            &&& c.auth_complete
            &&& c.connection == before.clients@[client].connection
        },
        verdict is Err ==> after == before && (answer matches Answer::Nack(request, code, _)
            && request == msg.request() && code == ErrorCode::PermissionDenied),
        forall|x: Seq<char>|
            x != client ==> (#[trigger] after.clients@.contains_key(x)
                <==> before.clients@.contains_key(x)) && after.clients@[x] == before.clients@[x],
        after.store == before.store,
{
}

/// Put into words an error shows its name, and behind it the details in quotes.
pub proof fn law_shown_errors_quote_the_details(e: AuthError)
    ensures
        e matches AuthError::InvalidToken(m) ==> shown_error(e) == "InvalidToken("@ + quoted(m@)
            + ")"@,
        e matches AuthError::InvalidClaims(m) ==> shown_error(e) == "InvalidClaims("@ + quoted(m@)
            + ")"@,
        e matches AuthError::InvalidIssuer(m) ==> shown_error(e) == "InvalidIssuer("@ + quoted(m@)
            + ")"@,
        e matches AuthError::InvalidAudience(m) ==> shown_error(e) == "InvalidAudience("@ + quoted(
            m@,
        ) + ")"@,
        e matches AuthError::KeyNotFound(m) ==> shown_error(e) == "KeyNotFound("@ + quoted(m@)
            + ")"@,
        e matches AuthError::InvalidServiceAccount(m) ==> shown_error(e)
            == "InvalidServiceAccount("@ + quoted(m@) + ")"@,
        e matches AuthError::WrongServer { expected, got } ==> shown_error(e)
            == "WrongServer { expected: "@ + quoted(expected@) + ", got: "@ + quoted(got@) + " }"@,
        e is NoToken ==> shown_error(e) == "NoToken"@,
        e is ExpiredToken ==> shown_error(e) == "ExpiredToken"@,
        e is InvalidKeyId ==> shown_error(e) == "InvalidKeyId"@,
{
}

} // verus!
