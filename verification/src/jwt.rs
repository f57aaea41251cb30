//! Tokens that say who a client is: JSON Web Tokens signed with a shared secret.
use crate::firebase;
use crate::firebase::StringOrArray;
use crate::json;
use crate::json::{export_json, import_json};
use crate::plain;
use crate::plain::{lookup_member, Plain};
use crate::server_value;
use crate::server_value::{number_from, whole_of};
use crate::text;
use crate::text::{concat, contains_text, same_text, split_text};
use crate::value;
use crate::value::{copy_members, copy_value, JsonValue, Member};
use vstd::prelude::*;

verus! {

broadcast use vstd::string::group_string_axioms;

/// Why a token was turned down.
#[derive(Debug)]
pub enum AuthError {
    NoToken,
    InvalidToken(String),
    ExpiredToken,
    InvalidClaims(String),
    WrongServer { expected: String, got: String },
    InvalidIssuer(String),
    InvalidAudience(String),
    KeyNotFound(String),
    InvalidKeyId,
    InvalidServiceAccount(String),
}

impl AuthError {
    /// What the error says.
    pub open spec fn message(&self) -> Seq<char> {
        match *self {
            AuthError::NoToken => "no token provided"@,
            AuthError::InvalidToken(m) => "invalid token: "@ + m@,
            AuthError::ExpiredToken => "token expired"@,
            AuthError::InvalidClaims(m) => "invalid claims: "@ + m@,
            AuthError::WrongServer { expected, got } => {
                "token assigned to different server: expected "@ + expected@ + ", got "@ + got@
            },
            AuthError::InvalidIssuer(m) => "invalid token issuer: "@ + m@,
            AuthError::InvalidAudience(m) => "invalid token audience: "@ + m@,
            AuthError::KeyNotFound(m) => "signing key not found: "@ + m@,
            AuthError::InvalidKeyId => "missing or invalid key ID"@,
            AuthError::InvalidServiceAccount(m) => "invalid service account for project: "@ + m@,
        }
    }

    /// What the error says.
    pub fn to_text(&self) -> (r: String)
        ensures
            r@ == self.message(),
    {
        match self {
            AuthError::NoToken => "no token provided".to_owned(),
            AuthError::InvalidToken(m) => concat("invalid token: ", m.as_str()),
            AuthError::ExpiredToken => "token expired".to_owned(),
            AuthError::InvalidClaims(m) => concat("invalid claims: ", m.as_str()),
            AuthError::WrongServer { expected, got } => {
                let mut out = concat(
                    "token assigned to different server: expected ",
                    expected.as_str(),
                );
                out.append(", got ");
                out.append(got.as_str());
                out
            },
            AuthError::InvalidIssuer(m) => concat("invalid token issuer: ", m.as_str()),
            AuthError::InvalidAudience(m) => concat("invalid token audience: ", m.as_str()),
            AuthError::KeyNotFound(m) => concat("signing key not found: ", m.as_str()),
            AuthError::InvalidKeyId => "missing or invalid key ID".to_owned(),
            AuthError::InvalidServiceAccount(m) => concat(
                "invalid service account for project: ",
                m.as_str(),
            ),
        }
    }
}

/// What a client is told about an error.
pub open spec fn friendly_text(e: AuthError) -> Seq<char> {
    match e {
        AuthError::NoToken => "no token provided"@,
        AuthError::ExpiredToken => "token expired - please reauthenticate"@,
        AuthError::WrongServer { .. } => "token assigned to different server"@,
        AuthError::InvalidIssuer(_) => {
            "invalid token issuer - check firebase_project_id configuration"@
        },
        AuthError::InvalidAudience(_) => {
            "invalid token audience - check firebase_project_id configuration"@
        },
        AuthError::KeyNotFound(_) => {
            "signing key not found - token may be using an old or invalid key"@
        },
        AuthError::InvalidKeyId => "missing or invalid key ID in token header"@,
        AuthError::InvalidServiceAccount(_) => "service account not authorized for this project"@,
        AuthError::InvalidClaims(m) => if text::contains(m@, "missing uid"@) {
            "token missing required 'uid' field"@
        } else if text::contains(m@, "missing sub"@) {
            "token missing required 'sub' field"@
        } else {
            "invalid token claims"@
        },
        AuthError::InvalidToken(m) => if text::contains(m@, "signature"@) {
            "invalid token signature - check secret key configuration"@
        } else if text::contains(m@, "algorithm"@) || text::contains(m@, "signing method"@) {
            "unsupported token algorithm"@
        } else if text::contains(m@, "malformed"@) {
            "malformed token"@
        } else {
            "invalid token"@
        },
    }
}

/// What a client is told about an error.
pub fn user_friendly_error(err: &AuthError) -> (r: &'static str)
    ensures
        r@ == friendly_text(*err),
{
    match err {
        AuthError::NoToken => "no token provided",
        AuthError::ExpiredToken => "token expired - please reauthenticate",
        AuthError::WrongServer { .. } => "token assigned to different server",
        AuthError::InvalidIssuer(_) => {
            "invalid token issuer - check firebase_project_id configuration"
        },
        AuthError::InvalidAudience(_) => {
            "invalid token audience - check firebase_project_id configuration"
        },
        AuthError::KeyNotFound(_) => {
            "signing key not found - token may be using an old or invalid key"
        },
        AuthError::InvalidKeyId => "missing or invalid key ID in token header",
        AuthError::InvalidServiceAccount(_) => "service account not authorized for this project",
        AuthError::InvalidClaims(m) => if contains_text(m.as_str(), "missing uid") {
            "token missing required 'uid' field"
        } else if contains_text(m.as_str(), "missing sub") {
            "token missing required 'sub' field"
        } else {
            "invalid token claims"
        },
        AuthError::InvalidToken(m) => if contains_text(m.as_str(), "signature") {
            "invalid token signature - check secret key configuration"
        } else if contains_text(m.as_str(), "algorithm") || contains_text(
            m.as_str(),
            "signing method",
        ) {
            "unsupported token algorithm"
        } else if contains_text(m.as_str(), "malformed") {
            "malformed token"
        } else {
            "invalid token"
        },
    }
}

/// Who a token says that a client is.
pub struct AuthInfo {
    pub uid: String,
    pub provider: String,
    /// Custom claims.
    pub token: Vec<Member>,
    /// From the audience.
    pub database_id: Option<String>,
    pub server_id: Option<String>,
    pub project_id: Option<String>,
    /// Whether the token was signed with the admin secret.
    pub is_true_admin: bool,
}

/// Who a token says that a client is, as data.
pub ghost struct Principal {
    pub uid: Seq<char>,
    pub provider: Seq<char>,
    pub token: Map<Seq<char>, Plain>,
    pub database_id: Option<Seq<char>>,
    pub server_id: Option<Seq<char>>,
    pub project_id: Option<Seq<char>>,
    pub is_true_admin: bool,
}

/// The members of a list, as data.
pub open spec fn claims_of(members: Seq<Member>) -> Map<Seq<char>, Plain> {
    plain::plain_members(value::members_json(members), members.len() as int)
}

/// The text of an optional string.
pub open spec fn opt_text(s: Option<String>) -> Option<Seq<char>> {
    match s {
        Some(t) => Some(t@),
        None => None,
    }
}

impl View for AuthInfo {
    type V = Principal;

    open spec fn view(&self) -> Principal {
        Principal {
            uid: self.uid@,
            provider: self.provider@,
            token: claims_of(self.token@),
            database_id: opt_text(self.database_id),
            server_id: opt_text(self.server_id),
            project_id: opt_text(self.project_id),
            is_true_admin: self.is_true_admin,
        }
    }
}

/// Nobody in particular, who came with a token.
pub open spec fn nobody() -> Principal {
    Principal {
        uid: Seq::empty(),
        provider: "custom"@,
        token: Map::empty(),
        database_id: None,
        server_id: None,
        project_id: None,
        is_true_admin: false,
    }
}

impl Default for AuthInfo {
    fn default() -> (r: AuthInfo)
        ensures
            r@ == nobody(),
    {
        let r = AuthInfo {
            uid: String::new(),
            provider: "custom".to_owned(),
            token: Vec::new(),
            database_id: None,
            server_id: None,
            project_id: None,
            is_true_admin: false,
        };
        assert(r.uid@ =~= Seq::<char>::empty());
        r
    }
}

/// The claims of a standard token.
pub struct LarkClaims {
    pub sub: String,
    pub exp: Option<i64>,
    pub iat: Option<i64>,
    pub aud: Option<StringOrArray>,
    pub provider: Option<String>,
    pub claims: Option<Vec<Member>>,
    pub server: Option<String>,
    pub project: Option<String>,
}

/// The claims of a standard token, as data.
pub ghost struct StandardClaims {
    pub sub: Seq<char>,
    pub exp: Option<i64>,
    pub iat: Option<i64>,
    pub aud: Option<Seq<Seq<char>>>,
    pub provider: Option<Seq<char>>,
    pub claims: Option<Map<Seq<char>, Plain>>,
    pub server: Option<Seq<char>>,
    pub project: Option<Seq<char>>,
}

/// Optional members, as data.
pub open spec fn opt_claims(c: Option<Vec<Member>>) -> Option<Map<Seq<char>, Plain>> {
    match c {
        Some(m) => Some(claims_of(m@)),
        None => None,
    }
}

impl View for LarkClaims {
    type V = StandardClaims;

    open spec fn view(&self) -> StandardClaims {
        StandardClaims {
            sub: self.sub@,
            exp: self.exp,
            iat: self.iat,
            aud: match self.aud {
                Some(a) => Some(a@),
                None => None,
            },
            provider: opt_text(self.provider),
            claims: opt_claims(self.claims),
            server: opt_text(self.server),
            project: opt_text(self.project),
        }
    }
}

/// The claims of a customer token, which names the user under `uid`.
pub struct LarkCustomerClaims {
    pub uid: String,
    pub exp: Option<i64>,
    pub iat: Option<i64>,
    pub claims: Option<Vec<Member>>,
}

/// The claims of a customer token, as data.
pub ghost struct CustomerClaims {
    pub uid: Seq<char>,
    pub exp: Option<i64>,
    pub iat: Option<i64>,
    pub claims: Option<Map<Seq<char>, Plain>>,
}

impl View for LarkCustomerClaims {
    type V = CustomerClaims;

    open spec fn view(&self) -> CustomerClaims {
        CustomerClaims {
            uid: self.uid@,
            exp: self.exp,
            iat: self.iat,
            claims: opt_claims(self.claims),
        }
    }
}

/// The claims of a legacy token, which carries its data under `d`.
pub struct LegacyClaims {
    pub v: Option<String>,
    pub d: Option<Vec<Member>>,
    pub exp: Option<i64>,
    pub iat: Option<i64>,
}

/// The claims of a legacy token, as data.
pub ghost struct OldClaims {
    pub v: Option<Seq<char>>,
    pub d: Option<Map<Seq<char>, Plain>>,
    pub exp: Option<i64>,
    pub iat: Option<i64>,
}

impl View for LegacyClaims {
    type V = OldClaims;

    open spec fn view(&self) -> OldClaims {
        OldClaims {
            v: opt_text(self.v),
            d: opt_claims(self.d),
            exp: self.exp,
            iat: self.iat,
        }
    }
}

/// What a claim holds, where null counts as absent.
pub open spec fn claim(m: Map<Seq<char>, Plain>, k: Seq<char>) -> Option<Plain> {
    if m.contains_key(k) && !(m[k] is Null) {
        Some(m[k])
    } else {
        None
    }
}

/// A claim that may be left out but must be a text.
pub open spec fn text_claim(m: Map<Seq<char>, Plain>, k: Seq<char>) -> Option<Option<Seq<char>>> {
    match claim(m, k) {
        None => Some(None),
        Some(Plain::String(s)) => Some(Some(s)),
        Some(_) => None,
    }
}

/// A claim that may be left out but must be a whole number.
pub open spec fn whole_claim(m: Map<Seq<char>, Plain>, k: Seq<char>) -> Option<Option<i64>> {
    match claim(m, k) {
        None => Some(None),
        Some(Plain::Number(n)) => match server_value::number_whole(n) {
            Some(i) if i64::MIN <= i <= i64::MAX => Some(Some(i as i64)),
            _ => None,
        },
        Some(_) => None,
    }
}

/// A claim that may be left out but must be an object.
pub open spec fn object_claim(m: Map<Seq<char>, Plain>, k: Seq<char>) -> Option<
    Option<Map<Seq<char>, Plain>>,
> {
    match claim(m, k) {
        None => Some(None),
        Some(Plain::Object(o)) => Some(Some(o)),
        Some(_) => None,
    }
}

/// Whether all elements are texts.
pub open spec fn all_texts(items: Seq<Plain>) -> bool {
    forall|i: int| 0 <= i < items.len() ==> (#[trigger] items[i]) is String
}

/// The audience of a token.
pub open spec fn audience_claim(m: Map<Seq<char>, Plain>) -> Option<Option<Seq<Seq<char>>>> {
    match claim(m, "aud"@) {
        None => Some(None),
        Some(Plain::String(s)) => Some(Some(seq![s])),
        Some(Plain::Array(items)) => if all_texts(items) {
            Some(Some(items.map_values(|p: Plain| p->String_0)))
        } else {
            None
        },
        Some(_) => None,
    }
}

/// The claims of a standard token, if they have the right form.
pub open spec fn standard_claims(m: Map<Seq<char>, Plain>) -> Option<StandardClaims> {
    match (
        text_claim(m, "sub"@),
        whole_claim(m, "exp"@),
        whole_claim(m, "iat"@),
        audience_claim(m),
        text_claim(m, "provider"@),
        object_claim(m, "claims"@),
        text_claim(m, "server"@),
        text_claim(m, "project"@),
    ) {
        (
            Some(Some(sub)),
            Some(exp),
            Some(iat),
            Some(aud),
            Some(provider),
            Some(claims),
            Some(server),
            Some(project),
        ) => Some(StandardClaims { sub, exp, iat, aud, provider, claims, server, project }),
        _ => None,
    }
}

/// The claims of a customer token, if they have the right form.
pub open spec fn customer_claims(m: Map<Seq<char>, Plain>) -> Option<CustomerClaims> {
    match (
        text_claim(m, "uid"@),
        whole_claim(m, "exp"@),
        whole_claim(m, "iat"@),
        object_claim(m, "claims"@),
    ) {
        (Some(Some(uid)), Some(exp), Some(iat), Some(claims)) => Some(
            CustomerClaims { uid, exp, iat, claims },
        ),
        _ => None,
    }
}

/// The claims of a legacy token, if they have the right form.
pub open spec fn old_claims(m: Map<Seq<char>, Plain>) -> Option<OldClaims> {
    match (
        text_claim(m, "v"@),
        object_claim(m, "d"@),
        whole_claim(m, "exp"@),
        whole_claim(m, "iat"@),
    ) {
        (Some(v), Some(d), Some(exp), Some(iat)) => Some(OldClaims { v, d, exp, iat }),
        _ => None,
    }
}

/// What stands under a key is what the members say of it.
pub proof fn lemma_claims_lookup(ms: Seq<(Seq<char>, crate::value::Json)>, n: int, k: Seq<char>)
    requires
        0 <= n <= ms.len(),
    ensures
        plain::plain_members(ms, n).contains_key(k) == (plain::member_of(ms, n, k) is Some),
        plain::member_of(ms, n, k) is Some ==> plain::plain_members(ms, n)[k] == plain::plain(
            plain::member_of(ms, n, k)->0,
        ),
    decreases n,
{
    if n > 0 {
        lemma_claims_lookup(ms, n - 1, k);
    }
}

/// What a claim holds, where null counts as absent.
fn read_claim<'a>(members: &'a Vec<Member>, k: &str) -> (r: Option<&'a JsonValue>)
    ensures
        match r {
            Some(v) => claim(claims_of(members@), k@) == Some(plain::plain(v@)) && !(v@ is Null),
            None => claim(claims_of(members@), k@) is None,
        },
{
    proof {
        lemma_claims_lookup(value::members_json(members@), members@.len() as int, k@);
    }
    match lookup_member(members, k) {
        Some(JsonValue::Null) => None,
        Some(v) => Some(v),
        None => None,
    }
}

/// A claim that may be left out but must be a text.
fn read_text(members: &Vec<Member>, k: &str) -> (r: Option<Option<String>>)
    ensures
        text_claim(claims_of(members@), k@) == match r {
            Some(x) => Some(opt_text(x)),
            None => None,
        },
{
    match read_claim(members, k) {
        None => Some(None),
        Some(JsonValue::String(s)) => Some(Some(s.clone())),
        Some(_) => None,
    }
}

/// A claim that may be left out but must be a whole number.
fn read_whole(members: &Vec<Member>, k: &str) -> (r: Option<Option<i64>>)
    ensures
        whole_claim(claims_of(members@), k@) == r,
{
    match read_claim(members, k) {
        None => Some(None),
        Some(JsonValue::Number(n)) => match whole_of(n) {
            Some(i) => if i64::MIN as i128 <= i && i <= i64::MAX as i128 {
                Some(Some(i as i64))
            } else {
                None
            },
            None => None,
        },
        Some(_) => None,
    }
}

/// A claim that may be left out but must be an object.
fn read_object(members: &Vec<Member>, k: &str) -> (r: Option<Option<Vec<Member>>>)
    ensures
        object_claim(claims_of(members@), k@) == match r {
            Some(x) => Some(opt_claims(x)),
            None => None,
        },
{
    match read_claim(members, k) {
        None => Some(None),
        Some(JsonValue::Object(ms)) => Some(Some(copy_members(ms))),
        Some(_) => None,
    }
}

/// The audience of a token.
fn read_audience(members: &Vec<Member>) -> (r: Option<Option<StringOrArray>>)
    ensures
        audience_claim(claims_of(members@)) == match r {
            Some(Some(a)) => Some(Some(a@)),
            Some(None) => Some(None),
            None => None,
        },
{
    match read_claim(members, "aud") {
        None => Some(None),
        Some(JsonValue::String(s)) => {
            let a = StringOrArray::Single(s.clone());
            assert(a@ =~= seq![s@]);
            Some(Some(a))
        },
        Some(JsonValue::Array(items)) => {
            let ghost ps = plain::plain_items(value::items_json(items@));
            let mut names: Vec<String> = Vec::new();
            let mut i: usize = 0;
            while i < items.len()
                invariant
                    i <= items@.len(),
                    ps == plain::plain_items(value::items_json(items@)),
                    claim(claims_of(members@), "aud"@) == Some(Plain::Array(ps)),
                    names@.len() == i,
                    forall|j: int|
                        0 <= j < i ==> (#[trigger] ps[j]) is String && ps[j]->String_0
                            == names@[j]@,
                decreases items@.len() - i,
            {
                assert(value::items_json(items@)[i as int] == items@[i as int]@);
                assert(ps[i as int] == plain::plain(items@[i as int]@));
                match &items[i] {
                    JsonValue::String(s) => {
                        names.push(s.clone());
                    },
                    _ => {
                        assert(!(ps[i as int] is String));
                        return None;
                    },
                }
                i = i + 1;
            }
            assert(text::texts(names@) =~= ps.map_values(|p: Plain| p->String_0));
            Some(Some(StringOrArray::Multiple(names)))
        },
        Some(_) => None,
    }
}

impl LarkClaims {
    /// Reads the claims of a standard token.
    pub fn from_members(members: &Vec<Member>) -> (r: Option<LarkClaims>)
        ensures
            standard_claims(claims_of(members@)) == match r {
                Some(c) => Some(c@),
                None => None,
            },
    {
        match (
            read_text(members, "sub"),
            read_whole(members, "exp"),
            read_whole(members, "iat"),
            read_audience(members),
            read_text(members, "provider"),
            read_object(members, "claims"),
            read_text(members, "server"),
            read_text(members, "project"),
        ) {
            (
                Some(Some(sub)),
                Some(exp),
                Some(iat),
                Some(aud),
                Some(provider),
                Some(claims),
                Some(server),
                Some(project),
            ) => Some(LarkClaims { sub, exp, iat, aud, provider, claims, server, project }),
            _ => None,
        }
    }
}

impl LarkCustomerClaims {
    /// Reads the claims of a customer token.
    pub fn from_members(members: &Vec<Member>) -> (r: Option<LarkCustomerClaims>)
        ensures
            customer_claims(claims_of(members@)) == match r {
                Some(c) => Some(c@),
                None => None,
            },
    {
        match (
            read_text(members, "uid"),
            read_whole(members, "exp"),
            read_whole(members, "iat"),
            read_object(members, "claims"),
        ) {
            (Some(Some(uid)), Some(exp), Some(iat), Some(claims)) => Some(
                LarkCustomerClaims { uid, exp, iat, claims },
            ),
            _ => None,
        }
    }
}

impl LegacyClaims {
    /// Reads the claims of a legacy token.
    pub fn from_members(members: &Vec<Member>) -> (r: Option<LegacyClaims>)
        ensures
            old_claims(claims_of(members@)) == match r {
                Some(c) => Some(c@),
                None => None,
            },
    {
        match (
            read_text(members, "v"),
            read_object(members, "d"),
            read_whole(members, "exp"),
            read_whole(members, "iat"),
        ) {
            (Some(v), Some(d), Some(exp), Some(iat)) => Some(LegacyClaims { v, d, exp, iat }),
            _ => None,
        }
    }
}

/// What optional claims hold; left out, nothing.
pub open spec fn claims_or_none(c: Option<Map<Seq<char>, Plain>>) -> Map<Seq<char>, Plain> {
    match c {
        Some(m) => m,
        None => Map::empty(),
    }
}

/// Whom the claims of a standard token stand for.
pub open spec fn standard_principal(c: StandardClaims) -> Principal {
    Principal {
        uid: c.sub,
        provider: match c.provider {
            Some(p) if p.len() > 0 => p,
            _ => "custom"@,
        },
        token: claims_or_none(c.claims),
        database_id: match c.aud {
            Some(names) => firebase::first_of(names),
            None => None,
        },
        server_id: c.server,
        project_id: c.project,
        is_true_admin: false,
    }
}

/// Whether a standard token is for another server than the expected one.
pub open spec fn for_other_server(c: StandardClaims, expected: Option<Seq<char>>) -> bool {
    expected is Some && c.server is Some && c.server->0 != expected->0
}

/// Whether an outcome is what the claims of a standard token call for.
pub open spec fn standard_outcome(
    c: StandardClaims,
    expected: Option<Seq<char>>,
    r: Result<AuthInfo, AuthError>,
) -> bool {
    if c.sub.len() == 0 {
        r matches Err(AuthError::InvalidClaims(m)) && m@ == "missing sub claim"@
    } else if for_other_server(c, expected) {
        r matches Err(AuthError::WrongServer { expected: e, got }) && e@ == expected->0 && got@
            == c.server->0
    } else {
        r matches Ok(info) && info@ == standard_principal(c)
    }
}

/// Whom the claims of a customer token stand for.
pub open spec fn customer_principal(c: CustomerClaims) -> Principal {
    Principal { uid: c.uid, token: claims_or_none(c.claims), ..nobody() }
}

/// Whether an outcome is what the claims of a customer token call for.
pub open spec fn customer_outcome(c: CustomerClaims, r: Result<AuthInfo, AuthError>) -> bool {
    if c.uid.len() == 0 {
        r matches Err(AuthError::InvalidClaims(m)) && m@ == "missing uid"@
    } else {
        r matches Ok(info) && info@ == customer_principal(c)
    }
}

/// Whom the claims of a legacy token stand for: nobody by name.
pub open spec fn legacy_principal(c: OldClaims) -> Principal {
    Principal { token: claims_or_none(c.d), ..nobody() }
}

/// What optional members hold; left out, nothing.
fn members_or_none(c: Option<Vec<Member>>) -> (r: Vec<Member>)
    ensures
        claims_of(r@) == claims_or_none(opt_claims(c)),
{
    match c {
        Some(m) => m,
        None => {
            let none: Vec<Member> = Vec::new();
            assert(claims_of(none@) =~= Map::empty());
            none
        },
    }
}

/// Whom the claims of a standard token stand for.
pub fn standard_auth_info(claims: LarkClaims, server_id: &Option<String>) -> (r: Result<
    AuthInfo,
    AuthError,
>)
    ensures
        standard_outcome(claims@, opt_text(*server_id), r),
{
    if claims.sub.as_str().is_empty() {
        return Err(AuthError::InvalidClaims("missing sub claim".to_owned()));
    }
    match (server_id, &claims.server) {
        (Some(expected), Some(got)) => {
            if !same_text(expected.as_str(), got.as_str()) {
                return Err(
                    AuthError::WrongServer { expected: expected.clone(), got: got.clone() },
                );
            }
        },
        _ => {},
    }
    let database_id = match &claims.aud {
        Some(a) => match a.first() {
            Some(s) => Some(s.to_owned()),
            None => None,
        },
        None => None,
    };
    let provider = match claims.provider {
        Some(p) => if p.as_str().is_empty() {
            "custom".to_owned()
        } else {
            p
        },
        None => "custom".to_owned(),
    };
    Ok(
        AuthInfo {
            uid: claims.sub,
            provider,
            token: members_or_none(claims.claims),
            database_id,
            server_id: claims.server,
            project_id: claims.project,
            is_true_admin: false,
        },
    )
}

/// Whom the claims of a customer token stand for.
pub fn customer_auth_info(claims: LarkCustomerClaims) -> (r: Result<AuthInfo, AuthError>)
    ensures
        customer_outcome(claims@, r),
{
    if claims.uid.as_str().is_empty() {
        return Err(AuthError::InvalidClaims("missing uid".to_owned()));
    }
    let mut info = AuthInfo::default();
    info.uid = claims.uid;
    info.token = members_or_none(claims.claims);
    Ok(info)
}

/// Whom the claims of a legacy token stand for.
pub fn legacy_auth_info(claims: LegacyClaims) -> (r: AuthInfo)
    ensures
        r@ == legacy_principal(claims@),
{
    let mut info = AuthInfo::default();
    info.token = members_or_none(claims.d);
    info
}

/// Why a token could not be read.
pub enum DecodeFailure {
    Expired,
    Other(String),
}

/// Names the claims that a token holds which is signed with a secret, whatever the
/// time; where the token is malformed, or signed otherwise, what is wrong with it.
pub uninterp spec fn signed_claims(token: Seq<char>, secret: Seq<u8>) -> Result<Plain, Seq<char>>;

/// `jsonwebtoken::decode` for HMAC-SHA256 into `serde_json::Value`, without required
/// claims and without a check of the audience, but with one of the expiry. Apart from the
/// expiry, which is looked at last, the outcome depends on the token and the secret alone,
/// and so does the text of the error. An object of claims without `exp` does not expire;
/// whether one with `exp` has expired rests on the clock and is left open.
#[verifier::external_body]
fn decode_token(token: &str, secret: &Vec<u8>) -> (r: Result<serde_json::Value, DecodeFailure>)
    ensures
        match r {
            Ok(v) => signed_claims(token@, secret@) matches Ok(x) && x == json::held_json(v),
            Err(DecodeFailure::Other(e)) => signed_claims(token@, secret@) matches Err(t) && t == e@,
            Err(DecodeFailure::Expired) => signed_claims(token@, secret@) is Ok && !lacks_expiry(
                signed_claims(token@, secret@)->Ok_0,
            ),
        },
{
    let mut rules = jsonwebtoken::Validation::new(jsonwebtoken::Algorithm::HS256);
    rules.validate_exp = true;
    rules.validate_aud = false;
    rules.required_spec_claims.clear();
    let key = jsonwebtoken::DecodingKey::from_secret(secret);
    match jsonwebtoken::decode::<serde_json::Value>(token, &key, &rules) {
        Ok(data) => Ok(data.claims),
        Err(e) => match e.kind() {
            jsonwebtoken::errors::ErrorKind::ExpiredSignature => Err(DecodeFailure::Expired),
            _ => Err(DecodeFailure::Other(e.to_string())),
        },
    }
}

/// `jsonwebtoken::decode` as above, without a check of the expiry: what an expired token
/// claims depends on the token and the secret alone.
#[verifier::external_body]
fn decode_expired_token(token: &str, secret: &Vec<u8>) -> (r: Result<serde_json::Value, String>)
    ensures
        match r {
            Ok(v) => signed_claims(token@, secret@) matches Ok(x) && x == json::held_json(v),
            Err(e) => signed_claims(token@, secret@) matches Err(t) && t == e@,
        },
{
    let mut rules = jsonwebtoken::Validation::new(jsonwebtoken::Algorithm::HS256);
    rules.validate_exp = false;
    rules.validate_aud = false;
    rules.required_spec_claims.clear();
    let key = jsonwebtoken::DecodingKey::from_secret(secret);
    match jsonwebtoken::decode::<serde_json::Value>(token, &key, &rules) {
        Ok(data) => Ok(data.claims),
        Err(e) => Err(e.to_string()),
    }
}

/// Whether claims are an object that says nothing about when they expire.
pub open spec fn lacks_expiry(c: Plain) -> bool {
    c matches Plain::Object(m) && !m.contains_key("exp"@)
}

/// What a token that was read comes to.
pub enum TokenRead {
    /// It is fine, and these are its claims.
    Claims(Vec<Member>),
    /// It has expired, and these are its claims.
    Expired(Vec<Member>),
    Failed(String),
}

/// The claims of a standard token that are listed without their names, in order.
pub open spec fn listed_claims(items: Seq<Plain>) -> Map<Seq<char>, Plain> {
    Map::empty().insert("sub"@, items[0]).insert("exp"@, items[1]).insert("iat"@, items[2]).insert(
        "aud"@,
        items[3],
    ).insert("provider"@, items[4])
}

/// The claims in the payload of a token: an object, or, where that is allowed, a list of
/// the first five claims of a standard token.
pub open spec fn named_claims(payload: Plain, listed: bool) -> Option<Map<Seq<char>, Plain>> {
    match payload {
        Plain::Object(m) => Some(m),
        Plain::Array(items) if listed && items.len() == 5 => Some(listed_claims(items)),
        _ => None,
    }
}

/// The claims of a signed token, or what is wrong with it; claims have to have names.
pub open spec fn token_claims(token: Seq<char>, secret: Seq<u8>, listed: bool) -> Result<
    Map<Seq<char>, Plain>,
    Seq<char>,
> {
    match signed_claims(token, secret) {
        Ok(payload) => match named_claims(payload, listed) {
            Some(m) => Ok(m),
            None => Err("claims are not an object"@),
        },
        Err(e) => Err(e),
    }
}

/// Whether what was read of a token is true to its claims. Only claims that say when they
/// expire can have expired.
pub open spec fn read_agrees(
    read: TokenRead,
    claims: Result<Map<Seq<char>, Plain>, Seq<char>>,
) -> bool {
    match read {
        TokenRead::Claims(m) => claims matches Ok(x) && x == claims_of(m@),
        TokenRead::Expired(m) => claims matches Ok(x) && x == claims_of(m@) && x.contains_key(
            "exp"@,
        ),
        TokenRead::Failed(e) => claims matches Err(t) && t == e@,
    }
}

/// A member with a name and a copy of a value.
fn named_copy(key: &str, v: &JsonValue) -> (r: Member)
    ensures
        r.key@ == key@,
        r.value@ == v@,
{
    Member { key: key.to_owned(), value: copy_value(v) }
}

/// The claims in the payload of a token.
fn claim_members(v: JsonValue, listed: bool) -> (r: Option<Vec<Member>>)
    ensures
        named_claims(plain::plain(v@), listed) == match r {
            Some(m) => Some(claims_of(m@)),
            None => None,
        },
{
    match v {
        JsonValue::Object(m) => Some(m),
        JsonValue::Array(items) => {
            if !listed || items.len() != 5 {
                return None;
            }
            let mut out: Vec<Member> = Vec::new();
            out.push(named_copy("sub", &items[0]));
            out.push(named_copy("exp", &items[1]));
            out.push(named_copy("iat", &items[2]));
            out.push(named_copy("aud", &items[3]));
            out.push(named_copy("provider", &items[4]));
            proof {
                let ms = value::members_json(out@);
                let js = value::items_json(items@);
                reveal_with_fuel(plain::plain_members, 6);
                assert(ms[0] == ("sub"@, js[0]));
                assert(ms[1] == ("exp"@, js[1]));
                assert(ms[2] == ("iat"@, js[2]));
                assert(ms[3] == ("aud"@, js[3]));
                assert(ms[4] == ("provider"@, js[4]));
                assert(claims_of(out@) =~= listed_claims(plain::plain_items(js)));
            }
            Some(out)
        },
        _ => None,
    }
}

/// Reads a signed token.
fn read_token(token: &str, secret: &Vec<u8>, listed: bool) -> (r: TokenRead)
    ensures
        read_agrees(r, token_claims(token@, secret@, listed)),
{
    match decode_token(token, secret) {
        Ok(v) => match claim_members(import_json(v), listed) {
            Some(m) => TokenRead::Claims(m),
            None => TokenRead::Failed("claims are not an object".to_owned()),
        },
        Err(DecodeFailure::Other(e)) => TokenRead::Failed(e),
        Err(DecodeFailure::Expired) => match decode_expired_token(token, secret) {
            Ok(v) => match claim_members(import_json(v), listed) {
                Some(m) => TokenRead::Expired(m),
                None => TokenRead::Failed("claims are not an object".to_owned()),
            },
            Err(e) => TokenRead::Failed(e),
        },
    }
}

/// Whether an outcome is that of a token that could not be read, and says why.
pub open spec fn is_unreadable(why: Seq<char>, r: Result<AuthInfo, AuthError>) -> bool {
    r matches Err(AuthError::InvalidToken(t)) && t@ == why
}

/// Whether an error says that claims do not have the right form.
pub open spec fn is_about_form(e: AuthError) -> bool {
    e matches AuthError::InvalidToken(t) && t@ == "claims do not have the expected form"@
}

/// Whether an outcome is that of a token whose claims do not have the right form.
pub open spec fn has_wrong_form(r: Result<AuthInfo, AuthError>) -> bool {
    r is Err && is_about_form(r->Err_0)
}

/// Whether an outcome is that of a token that has expired, given its claims.
pub open spec fn has_expired(m: Map<Seq<char>, Plain>, r: Result<AuthInfo, AuthError>) -> bool {
    r is Err && r->Err_0 is ExpiredToken && m.contains_key("exp"@)
}

/// Whether an outcome is what a standard token calls for.
pub open spec fn standard_token_outcome(
    token: Seq<char>,
    secret: Seq<u8>,
    expected: Option<Seq<char>>,
    r: Result<AuthInfo, AuthError>,
) -> bool {
    if token.len() == 0 {
        r is Err && r->Err_0 is NoToken
    } else {
        match token_claims(token, secret, true) {
            Err(why) => is_unreadable(why, r),
            Ok(m) => match standard_claims(m) {
                None => has_wrong_form(r),
                Some(c) => has_expired(m, r) || standard_outcome(c, expected, r),
            },
        }
    }
}

/// Whether an outcome is what a customer token calls for.
pub open spec fn customer_token_outcome(
    token: Seq<char>,
    secret: Seq<u8>,
    r: Result<AuthInfo, AuthError>,
) -> bool {
    if token.len() == 0 {
        r is Err && r->Err_0 is NoToken
    } else {
        match token_claims(token, secret, false) {
            Err(why) => is_unreadable(why, r),
            Ok(m) => match customer_claims(m) {
                None => has_wrong_form(r),
                Some(c) => has_expired(m, r) || customer_outcome(c, r),
            },
        }
    }
}

/// Whether an outcome is what a legacy token calls for.
pub open spec fn legacy_token_outcome(
    token: Seq<char>,
    secret: Seq<u8>,
    r: Result<AuthInfo, AuthError>,
) -> bool {
    if token.len() == 0 {
        r is Err && r->Err_0 is NoToken
    } else {
        match token_claims(token, secret, false) {
            Err(why) => is_unreadable(why, r),
            Ok(m) => match old_claims(m) {
                None => has_wrong_form(r),
                Some(c) => has_expired(m, r) || (r matches Ok(info) && info@ == legacy_principal(
                    c,
                )),
            },
        }
    }
}

/// The error about claims of the wrong form.
pub(crate) fn wrong_form() -> (r: AuthError)
    ensures
        is_about_form(r),
{
    AuthError::InvalidToken("claims do not have the expected form".to_owned())
}

/// Whether an outcome is what was read of a token calls for where its claims do not have
/// the right form, or it has expired or could not be read.
pub open spec fn is_turned_down(
    read: TokenRead,
    well_formed: bool,
    r: Result<AuthInfo, AuthError>,
) -> bool {
    match read {
        TokenRead::Failed(e) => r matches Err(AuthError::InvalidToken(t)) && t@ == e@,
        TokenRead::Expired(_) => if well_formed {
            r is Err && r->Err_0 is ExpiredToken
        } else {
            has_wrong_form(r)
        },
        TokenRead::Claims(_) => !well_formed && has_wrong_form(r),
    }
}

/// The claims that were read of a token.
pub open spec fn read_claims(read: TokenRead) -> Map<Seq<char>, Plain> {
    match read {
        TokenRead::Claims(m) => claims_of(m@),
        TokenRead::Expired(m) => claims_of(m@),
        TokenRead::Failed(_) => Map::empty(),
    }
}

/// Says whom a standard token stands for, given what was read of it. A token that has
/// expired is refused.
pub fn standard_verdict(read: TokenRead, server_id: &Option<String>) -> (r: Result<
    AuthInfo,
    AuthError,
>)
    ensures
        match (read, standard_claims(read_claims(read))) {
            (TokenRead::Claims(_), Some(c)) => standard_outcome(c, opt_text(*server_id), r),
            (_, c) => is_turned_down(read, c is Some, r),
        },
{
    match read {
        TokenRead::Failed(e) => Err(AuthError::InvalidToken(e)),
        TokenRead::Expired(m) => match LarkClaims::from_members(&m) {
            Some(_) => Err(AuthError::ExpiredToken),
            None => Err(wrong_form()),
        },
        TokenRead::Claims(m) => match LarkClaims::from_members(&m) {
            Some(c) => standard_auth_info(c, server_id),
            None => Err(wrong_form()),
        },
    }
}

/// Says whom a customer token stands for, given what was read of it. A token that has
/// expired is refused.
pub fn customer_verdict(read: TokenRead) -> (r: Result<AuthInfo, AuthError>)
    ensures
        match (read, customer_claims(read_claims(read))) {
            (TokenRead::Claims(_), Some(c)) => customer_outcome(c, r),
            (_, c) => is_turned_down(read, c is Some, r),
        },
{
    match read {
        TokenRead::Failed(e) => Err(AuthError::InvalidToken(e)),
        TokenRead::Expired(m) => match LarkCustomerClaims::from_members(&m) {
            Some(_) => Err(AuthError::ExpiredToken),
            None => Err(wrong_form()),
        },
        TokenRead::Claims(m) => match LarkCustomerClaims::from_members(&m) {
            Some(c) => customer_auth_info(c),
            None => Err(wrong_form()),
        },
    }
}

/// Says whom a legacy token stands for, given what was read of it. A token that has
/// expired is refused.
pub fn legacy_verdict(read: TokenRead) -> (r: Result<AuthInfo, AuthError>)
    ensures
        match (read, old_claims(read_claims(read))) {
            (TokenRead::Claims(_), Some(c)) => r matches Ok(info) && info@ == legacy_principal(c),
            (_, c) => is_turned_down(read, c is Some, r),
        },
{
    match read {
        TokenRead::Failed(e) => Err(AuthError::InvalidToken(e)),
        TokenRead::Expired(m) => match LegacyClaims::from_members(&m) {
            Some(_) => Err(AuthError::ExpiredToken),
            None => Err(wrong_form()),
        },
        TokenRead::Claims(m) => match LegacyClaims::from_members(&m) {
            Some(c) => Ok(legacy_auth_info(c)),
            None => Err(wrong_form()),
        },
    }
}

/// A validator for standard tokens.
pub struct Validator {
    pub secret: Vec<u8>,
    pub server_id: Option<String>,
}

impl Validator {
    /// A validator for tokens that are signed with a secret.
    pub fn new(secret: &[u8]) -> (r: Validator)
        ensures
            r.secret@ == secret@,
            r.server_id is None,
    {
        Validator { secret: vstd::slice::slice_to_vec(secret), server_id: None }
    }

    /// A validator that also turns tokens for other servers down.
    pub fn with_server(secret: &[u8], server_id: &str) -> (r: Validator)
        ensures
            r.secret@ == secret@,
            opt_text(r.server_id) == Some(server_id@),
    {
        Validator {
            secret: vstd::slice::slice_to_vec(secret),
            server_id: Some(server_id.to_owned()),
        }
    }

    /// Reads a standard token and says whom it stands for.
    pub fn validate(&self, token_string: &str) -> (r: Result<AuthInfo, AuthError>)
        ensures
            standard_token_outcome(token_string@, self.secret@, opt_text(self.server_id), r),
    {
        if token_string.is_empty() {
            return Err(AuthError::NoToken);
        }
        standard_verdict(read_token(token_string, &self.secret, true), &self.server_id)
    }
}

/// Reads a customer token and says whom it stands for.
pub fn validate_lark_customer_token(token_string: &str, secret: &[u8]) -> (r: Result<
    AuthInfo,
    AuthError,
>)
    ensures
        customer_token_outcome(token_string@, secret@, r),
{
    if token_string.is_empty() {
        return Err(AuthError::NoToken);
    }
    let key = vstd::slice::slice_to_vec(secret);
    customer_verdict(read_token(token_string, &key, false))
}

/// Reads a legacy token and says whom it stands for.
pub fn validate_legacy_token(token_string: &str, secret: &[u8]) -> (r: Result<
    AuthInfo,
    AuthError,
>)
    ensures
        legacy_token_outcome(token_string@, secret@, r),
{
    if token_string.is_empty() {
        return Err(AuthError::NoToken);
    }
    let key = vstd::slice::slice_to_vec(secret);
    legacy_verdict(read_token(token_string, &key, false))
}

/// Names what the header of a token says, the name of the algorithm and the key id, or what
/// is wrong with it.
pub uninterp spec fn token_header(
    token: Seq<char>,
) -> Result<(Seq<char>, Option<Seq<char>>), Seq<char>>;

/// `jsonwebtoken::decode_header`: what the header says, and the text of the error, depend on
/// the token alone. The name of the algorithm is that of its variant.
#[verifier::external_body]
fn read_header(token: &str) -> (r: Result<(String, Option<String>), String>)
    ensures
        match r {
            Ok((alg, kid)) => token_header(token@) matches Ok(x) && x == (alg@, opt_text(kid)),
            Err(e) => token_header(token@) matches Err(t) && t == e@,
        },
{
    match jsonwebtoken::decode_header(token) {
        Ok(h) => Ok((format!("{:?}", h.alg), h.kid)),
        Err(e) => Err(e.to_string()),
    }
}

/// Looks at the header of a token: the algorithm and the key id. Nothing is verified.
pub fn peek_token_header(token_string: &str) -> (r: Result<(String, Option<String>), AuthError>)
    ensures
        match token_header(token_string@) {
            Ok((alg, kid)) => r matches Ok((a, k)) && a@ == alg && opt_text(k) == kid,
            Err(e) => r matches Err(AuthError::InvalidToken(t)) && t@ == e,
        },
{
    match read_header(token_string) {
        Ok(h) => Ok(h),
        Err(e) => Err(AuthError::InvalidToken(e)),
    }
}

/// Names the bytes that a base64 text stands for, or what is wrong with it.
pub uninterp spec fn base64_bytes(s: Seq<char>) -> Result<Seq<u8>, Seq<char>>;

/// `base64::engine::general_purpose::URL_SAFE_NO_PAD.decode`: what a text stands for, and
/// the text of the error, depend on the text alone.
#[verifier::external_body]
fn decode_base64(s: &str) -> (r: Result<Vec<u8>, String>)
    ensures
        match r {
            Ok(b) => base64_bytes(s@) matches Ok(x) && x == b@,
            Err(e) => base64_bytes(s@) matches Err(t) && t == e@,
        },
{
    let engine = base64::engine::general_purpose::URL_SAFE_NO_PAD;
    match base64::Engine::decode(&engine, s) {
        Ok(b) => Ok(b),
        Err(e) => Err(e.to_string()),
    }
}

/// Names the value that JSON text in bytes stands for, or what is wrong with it.
pub uninterp spec fn parsed_json(b: Seq<u8>) -> Result<Plain, Seq<char>>;

/// `serde_json::from_slice` into `serde_json::Value`: what the bytes stand for, and the text
/// of the error, depend on the bytes alone.
#[verifier::external_body]
fn parse_json(b: &Vec<u8>) -> (r: Result<serde_json::Value, String>)
    ensures
        match r {
            Ok(v) => parsed_json(b@) matches Ok(x) && x == json::held_json(v),
            Err(e) => parsed_json(b@) matches Err(t) && t == e@,
        },
{
    match serde_json::from_slice::<serde_json::Value>(b) {
        Ok(v) => Ok(v),
        Err(e) => Err(e.to_string()),
    }
}

/// The claims in the middle part of a token, or what is wrong with it.
pub open spec fn payload_claims(token: Seq<char>) -> Result<Map<Seq<char>, Plain>, Seq<char>> {
    let parts = text::split(token, '.');
    if parts.len() != 3 {
        Err("malformed token"@)
    } else {
        match base64_bytes(parts[1]) {
            Err(e) => Err("invalid base64: "@ + e),
            Ok(b) => match parsed_json(b) {
                Ok(Plain::Object(m)) => Ok(m),
                Ok(_) => Err("invalid JSON: not an object"@),
                Err(e) => Err("invalid JSON: "@ + e),
            },
        }
    }
}

/// Looks at the claims of a token. Nothing is verified.
pub fn peek_token_payload(token_string: &str) -> (r: Result<Vec<Member>, AuthError>)
    ensures
        match payload_claims(token_string@) {
            Ok(m) => r matches Ok(c) && claims_of(c@) == m,
            Err(e) => r matches Err(AuthError::InvalidToken(t)) && t@ == e,
        },
{
    let parts = split_text(token_string, '.');
    assert(text::texts(parts@).len() == parts@.len());
    if parts.len() != 3 {
        return Err(AuthError::InvalidToken("malformed token".to_owned()));
    }
    assert(text::texts(parts@)[1] == parts@[1]@);
    let bytes = match decode_base64(parts[1].as_str()) {
        Ok(b) => b,
        Err(e) => {
            return Err(AuthError::InvalidToken(concat("invalid base64: ", e.as_str())));
        },
    };
    let parsed = match parse_json(&bytes) {
        Ok(v) => v,
        Err(e) => {
            return Err(AuthError::InvalidToken(concat("invalid JSON: ", e.as_str())));
        },
    };
    match claim_members(import_json(parsed), false) {
        Some(m) => Ok(m),
        None => Err(AuthError::InvalidToken("invalid JSON: not an object".to_owned())),
    }
}

/// Whether a claim is none of the token's own making but a standard one.
pub open spec fn is_reserved_claim(k: Seq<char>) -> bool {
    k == "iss"@ || k == "sub"@ || k == "aud"@ || k == "exp"@ || k == "iat"@ || k == "nbf"@ || k
        == "jti"@ || k == "auth_time"@ || k == "firebase"@ || k == "user_id"@ || k == "email"@ || k
        == "email_verified"@ || k == "name"@ || k == "picture"@ || k == "phone_number"@
}

/// Whether a claim is a standard one.
fn reserved_claim(k: &str) -> (r: bool)
    ensures
        r == is_reserved_claim(k@),
{
    same_text(k, "iss") || same_text(k, "sub") || same_text(k, "aud") || same_text(k, "exp")
        || same_text(k, "iat") || same_text(k, "nbf") || same_text(k, "jti") || same_text(
        k,
        "auth_time",
    ) || same_text(k, "firebase") || same_text(k, "user_id") || same_text(k, "email") || same_text(
        k,
        "email_verified",
    ) || same_text(k, "name") || same_text(k, "picture") || same_text(k, "phone_number")
}

/// The claims that are not standard ones.
pub open spec fn custom_claims(m: Map<Seq<char>, Plain>) -> Map<Seq<char>, Plain> {
    Map::new(|k: Seq<char>| m.contains_key(k) && !is_reserved_claim(k), |k: Seq<char>| m[k])
}

/// The custom claims at the root of a payload.
pub fn find_root_claims(payload: &Vec<Member>) -> (r: Vec<Member>)
    ensures
        claims_of(r@) == custom_claims(claims_of(payload@)),
{
    let ghost ms = value::members_json(payload@);
    let mut out: Vec<Member> = Vec::new();
    let mut i: usize = 0;
    assert(claims_of(out@) =~= custom_claims(plain::plain_members(ms, 0)));
    while i < payload.len()
        invariant
            i <= payload@.len(),
            ms == value::members_json(payload@),
            claims_of(out@) == custom_claims(plain::plain_members(ms, i as int)),
        decreases payload@.len() - i,
    {
        let m = &payload[i];
        assert(ms[i as int] == (m.key@, m.value@));
        let ghost before = plain::plain_members(ms, i as int);
        if reserved_claim(m.key.as_str()) {
            assert(custom_claims(plain::plain_members(ms, i + 1)) =~= custom_claims(before));
        } else {
            let ghost kept = out@;
            let copy = copy_value(&m.value);
            out.push(Member { key: m.key.clone(), value: copy });
            proof {
                assert(out@.drop_last() =~= kept);
                lemma_claims_push(kept, out@);
                assert(custom_claims(plain::plain_members(ms, i + 1)) =~= custom_claims(
                    before,
                ).insert(m.key@, plain::plain(m.value@)));
            }
        }
        i = i + 1;
    }
    out
}

/// One more member is one more claim, in place of one with the same name.
proof fn lemma_claims_push(before: Seq<Member>, after: Seq<Member>)
    requires
        after.len() == before.len() + 1,
        after.drop_last() == before,
    ensures
        claims_of(after) == claims_of(before).insert(
            after.last().key@,
            plain::plain(after.last().value@),
        ),
{
    let ms = value::members_json(after);
    let n = before.len() as int;
    assert(ms[n] == (after.last().key@, after.last().value@));
    lemma_prefix_claims(before, after, n);
}

/// The first members of a longer list hold what the shorter list holds.
proof fn lemma_prefix_claims(before: Seq<Member>, after: Seq<Member>, n: int)
    requires
        0 <= n <= before.len() <= after.len(),
        after.take(before.len() as int) =~= before,
    ensures
        plain::plain_members(value::members_json(after), n) == plain::plain_members(
            value::members_json(before),
            n,
        ),
    decreases n,
{
    if n > 0 {
        lemma_prefix_claims(before, after, n - 1);
        assert(after.take(before.len() as int)[n - 1] == before[n - 1]);
        assert(value::members_json(after)[n - 1] == value::members_json(before)[n - 1]);
    }
}

/// `chrono::Utc::now().timestamp()`: the time of day in seconds. Nothing is claimed of
/// it.
#[verifier::external_body]
fn current_seconds() -> (r: i64) {
    chrono::Utc::now().timestamp()
}

/// Whether a value nests at most so deep and all its numbers are held as integers.
pub open spec fn is_tame(v: Plain, levels: nat) -> bool
    decreases levels,
{
    match v {
        Plain::Number(n) => server_value::number_whole(n) is Some,
        Plain::Array(items) => levels > 0 && forall|i: int|
            0 <= i < items.len() ==> is_tame(#[trigger] items[i], (levels - 1) as nat),
        Plain::Object(m) => levels > 0 && forall|k: Seq<char>| #[trigger]
            m.contains_key(k) ==> is_tame(m[k], (levels - 1) as nat),
        _ => true,
    }
}

/// Whether a claim is absent or null, or else a number.
pub open spec fn number_or_none(m: Map<Seq<char>, Plain>, k: Seq<char>) -> bool {
    claim(m, k) is None || claim(m, k)->0 is Number
}

/// Whether a claim is absent or null, or else a text.
pub open spec fn text_or_none(m: Map<Seq<char>, Plain>, k: Seq<char>) -> bool {
    claim(m, k) is None || claim(m, k)->0 is String
}

/// Whether claims are an object whose registered claims have their usual types, which
/// nests no deeper than JSON text is read back and holds no fractions.
pub open spec fn is_ordinary(c: Plain) -> bool {
    &&& is_tame(c, 127)
    &&& c matches Plain::Object(m) && number_or_none(m, "exp"@) && number_or_none(m, "nbf"@)
        && text_or_none(m, "sub"@) && text_or_none(m, "iss"@) && text_or_none(m, "aud"@)
}

/// Whether a token is signed with a secret by HMAC-SHA256 and, where its claims are
/// ordinary, carries them.
pub open spec fn carries(t: Seq<char>, claims: Plain, secret: Seq<u8>) -> bool {
    &&& t.len() > 0
    &&& token_header(t) matches Ok(h) && h == ("HS256"@, None::<Seq<char>>)
    &&& is_ordinary(claims) ==> {
        &&& signed_claims(t, secret) matches Ok(c) && c == claims
        &&& text::split(t, '.').len() == 3
        &&& base64_bytes(text::split(t, '.')[1]) matches Ok(b)
        &&& parsed_json(b) matches Ok(c)
        &&& c == claims
    }
}

/// `jsonwebtoken::encode` for HMAC-SHA256, which does not fail on a JSON value: the token
/// names the algorithm and no key, has three parts, and gives back the claims when it is
/// read with the same secret. The last two are claimed of ordinary claims: JSON text is
/// not read back beyond a limit of nesting, nor a token whose registered claims have
/// other types.
#[verifier::external_body]
fn encode_token(claims: &serde_json::Value, secret: &Vec<u8>) -> (r: Result<String, String>)
    ensures
        r is Ok,
        carries(r->Ok_0@, json::held_json(*claims), secret@),
{
    let header = jsonwebtoken::Header::new(jsonwebtoken::Algorithm::HS256);
    let key = jsonwebtoken::EncodingKey::from_secret(secret);
    match jsonwebtoken::encode(&header, claims, &key) {
        Ok(t) => Ok(t),
        Err(e) => Err(e.to_string()),
    }
}

/// The claims that a standard token is made with.
pub open spec fn made_claims(
    uid: Seq<char>,
    provider: Seq<char>,
    custom: Option<Map<Seq<char>, Plain>>,
    exp: i64,
    iat: i64,
) -> Map<Seq<char>, Plain> {
    Map::empty().insert("sub"@, Plain::String(uid)).insert(
        "exp"@,
        Plain::Number(server_value::whole_number(exp)),
    ).insert("iat"@, Plain::Number(server_value::whole_number(iat))).insert(
        "aud"@,
        Plain::Null,
    ).insert("provider"@, Plain::String(provider)).insert(
        "claims"@,
        match custom {
            Some(m) => Plain::Object(m),
            None => Plain::Null,
        },
    ).insert("server"@, Plain::Null).insert("project"@, Plain::Null)
}

/// Whether a number that was made of an integer reads as that integer.
pub open spec fn reads_back(i: i64) -> bool {
    server_value::number_whole(server_value::whole_number(i)) == Some(i as i128)
}

/// One member of the claims under way.
pub(crate) fn add_claim(members: &mut Vec<Member>, key: &str, v: JsonValue)
    ensures
        claims_of(final(members)@) == claims_of(old(members)@).insert(key@, plain::plain(v@)),
{
    let ghost before = members@;
    members.push(Member { key: key.to_owned(), value: v });
    proof {
        assert(members@.drop_last() =~= before);
        lemma_claims_push(before, members@);
    }
}

/// The claims of a standard token.
pub fn standard_token_claims(
    uid: &str,
    provider: &str,
    custom: Option<Vec<Member>>,
    exp: i64,
    iat: i64,
) -> (r: JsonValue)
    ensures
        plain::plain(r@) == Plain::Object(
            made_claims(uid@, provider@, opt_claims(custom), exp, iat),
        ),
        reads_back(exp),
        reads_back(iat),
{
    let mut members: Vec<Member> = Vec::new();
    assert(claims_of(members@) =~= Map::empty());
    add_claim(&mut members, "sub", JsonValue::String(uid.to_owned()));
    add_claim(&mut members, "exp", JsonValue::Number(number_from(exp)));
    add_claim(&mut members, "iat", JsonValue::Number(number_from(iat)));
    add_claim(&mut members, "aud", JsonValue::Null);
    add_claim(&mut members, "provider", JsonValue::String(provider.to_owned()));
    let inner = match custom {
        Some(m) => JsonValue::Object(m),
        None => JsonValue::Null,
    };
    add_claim(&mut members, "claims", inner);
    add_claim(&mut members, "server", JsonValue::Null);
    add_claim(&mut members, "project", JsonValue::Null);
    JsonValue::Object(members)
}

/// Whether a token is a standard one for somebody, made and expiring at given times.
pub open spec fn is_made_token(
    t: Seq<char>,
    secret: Seq<u8>,
    uid: Seq<char>,
    provider: Seq<char>,
    custom: Option<Map<Seq<char>, Plain>>,
    iat: i64,
    exp: i64,
) -> bool {
    let m = made_claims(uid, provider, custom, exp, iat);
    &&& t.len() > 0
    &&& token_header(t) matches Ok(h) && h == ("HS256"@, None::<Seq<char>>)
    &&& reads_back(iat)
    &&& reads_back(exp)
    &&& is_ordinary(Plain::Object(m)) ==> {
        &&& token_claims(t, secret, false) matches Ok(x) && x == m
        &&& payload_claims(t) matches Ok(x) && x == m
    }
}

/// Whether a token is a standard one for somebody, which expires so many seconds after
/// it was made.
pub open spec fn was_made(
    t: Seq<char>,
    secret: Seq<u8>,
    uid: Seq<char>,
    provider: Seq<char>,
    custom: Option<Map<Seq<char>, Plain>>,
    expiry_secs: i64,
) -> bool {
    exists|iat: i64| #[trigger]
        is_made_token(t, secret, uid, provider, custom, iat, clamped_sum(iat, expiry_secs))
}

/// The sum of two numbers, kept within the range of an integer.
pub open spec fn clamped_sum(a: i64, b: i64) -> i64 {
    if a + b > i64::MAX {
        i64::MAX
    } else if a + b < i64::MIN {
        i64::MIN
    } else {
        (a + b) as i64
    }
}

/// Makes a standard token.
pub fn generate_token(
    secret: &[u8],
    uid: &str,
    provider: &str,
    custom_claims: Option<Vec<Member>>,
    expiry_secs: i64,
) -> (r: Result<String, AuthError>)
    ensures
        r matches Ok(t) && was_made(
            t@,
            secret@,
            uid@,
            provider@,
            opt_claims(custom_claims),
            expiry_secs,
        ),
{
    let now = current_seconds();
    let exp: i64 = match now.checked_add(expiry_secs) {
        Some(t) => t,
        None => if expiry_secs > 0 {
            i64::MAX
        } else {
            i64::MIN
        },
    };
    let ghost custom = opt_claims(custom_claims);
    let claims = standard_token_claims(uid, provider, custom_claims, exp, now);
    let key = vstd::slice::slice_to_vec(secret);
    match encode_token(&export_json(&claims), &key) {
        Ok(t) => {
            assert(is_made_token(
                t@,
                secret@,
                uid@,
                provider@,
                custom,
                now,
                clamped_sum(now, expiry_secs),
            ));
            Ok(t)
        },
        Err(e) => Err(AuthError::InvalidToken(e)),
    }
}

/// Makes a standard token for an anonymous user that expires after an hour.
pub fn generate_test_token(secret: &[u8], uid: &str, custom_claims: Option<Vec<Member>>) -> (r:
    Result<String, AuthError>)
    ensures
        r matches Ok(t) && was_made(
            t@,
            secret@,
            uid@,
            "anonymous"@,
            opt_claims(custom_claims),
            3600,
        ),
{
    generate_token(secret, uid, "anonymous", custom_claims, 3600)
}

/// Whom a made token stands for.
pub open spec fn made_principal(
    uid: Seq<char>,
    provider: Seq<char>,
    custom: Option<Map<Seq<char>, Plain>>,
) -> Principal {
    Principal {
        uid,
        provider: if provider.len() > 0 {
            provider
        } else {
            "custom"@
        },
        token: claims_or_none(custom),
        ..nobody()
    }
}

/// The claims of a made token are ordinary, and read as what it was made for.
pub proof fn lemma_made_claims(
    uid: Seq<char>,
    provider: Seq<char>,
    custom: Option<Map<Seq<char>, Plain>>,
    exp: i64,
    iat: i64,
)
    requires
        reads_back(exp),
        reads_back(iat),
        custom matches Some(m) ==> is_tame(Plain::Object(m), 126),
    ensures
        ({
            let m = made_claims(uid, provider, custom, exp, iat);
            &&& is_ordinary(Plain::Object(m))
            &&& !m.contains_key("uid"@)
            &&& !m.contains_key("d"@)
            &&& standard_claims(m) == Some(
                StandardClaims {
                    sub: uid,
                    exp: Some(exp),
                    iat: Some(iat),
                    aud: None,
                    provider: Some(provider),
                    claims: custom,
                    server: None,
                    project: None,
                },
            )
        }),
{
    reveal_strlit("sub");
    reveal_strlit("exp");
    reveal_strlit("iat");
    reveal_strlit("nbf");
    reveal_strlit("iss");
    reveal_strlit("aud");
    reveal_strlit("provider");
    reveal_strlit("claims");
    reveal_strlit("server");
    reveal_strlit("project");
    reveal_strlit("uid");
    reveal_strlit("d");
    let m = made_claims(uid, provider, custom, exp, iat);
    assert("sub"@[0] == 's' && "sub"@[1] == 'u');
    assert("exp"@[0] == 'e');
    assert("iat"@[0] == 'i' && "iat"@[1] == 'a');
    assert("nbf"@[0] == 'n');
    assert("iss"@[0] == 'i' && "iss"@[1] == 's');
    assert("aud"@[0] == 'a');
    assert("uid"@[0] == 'u');
    assert("server"@.len() == 6 && "claims"@.len() == 6);
    assert("server"@[0] == 's' && "claims"@[0] == 'c');
    assert("provider"@.len() == 8 && "project"@.len() == 7 && "d"@.len() == 1);
    assert(is_tame(Plain::Object(m), 127)) by {
        assert forall|k: Seq<char>| #[trigger] m.contains_key(k) implies is_tame(m[k], 126) by {}
    }
}

/// A token that was made for somebody is read as standing for that user, with the
/// provider and the claims that it was made with, until it expires. The claims that the
/// law speaks of hold whole numbers and are not nested beyond what JSON text is read
/// back with.
pub proof fn law_made_token_is_read(
    token: Seq<char>,
    secret: Seq<u8>,
    uid: Seq<char>,
    provider: Seq<char>,
    custom: Option<Map<Seq<char>, Plain>>,
    expiry_secs: i64,
    expected: Option<Seq<char>>,
    r: Result<AuthInfo, AuthError>,
)
    requires
        was_made(token, secret, uid, provider, custom, expiry_secs),
        uid.len() > 0,
        custom matches Some(m) ==> is_tame(Plain::Object(m), 126),
        standard_token_outcome(token, secret, expected, r),
    ensures
        match r {
            Ok(info) => info@ == made_principal(uid, provider, custom),
            Err(e) => e is ExpiredToken,
        },
{
    let iat = choose|iat: i64| #[trigger]
        is_made_token(token, secret, uid, provider, custom, iat, clamped_sum(iat, expiry_secs));
    lemma_made_claims(uid, provider, custom, clamped_sum(iat, expiry_secs), iat);
}

/// Whether a claim is left out: it is not there, or null.
pub open spec fn left_out(m: Map<Seq<char>, Plain>, k: Seq<char>) -> bool {
    !m.contains_key(k) || m[k] is Null
}

/// Whether an optional text is what a claim says.
pub open spec fn says_text(m: Map<Seq<char>, Plain>, k: Seq<char>, t: Option<Seq<char>>) -> bool {
    match t {
        Some(s) => m.contains_key(k) && m[k] == Plain::String(s),
        None => left_out(m, k),
    }
}

/// Whether an optional number is what a claim says.
pub open spec fn says_number(m: Map<Seq<char>, Plain>, k: Seq<char>, x: Option<i64>) -> bool {
    match x {
        Some(i) => m.contains_key(k) && (m[k] matches Plain::Number(n)
            && server_value::number_whole(n) == Some(i as i128)),
        None => left_out(m, k),
    }
}

/// Whether optional claims are what a claim says.
pub open spec fn says_object(
    m: Map<Seq<char>, Plain>,
    k: Seq<char>,
    o: Option<Map<Seq<char>, Plain>>,
) -> bool {
    match o {
        Some(x) => m.contains_key(k) && m[k] == Plain::Object(x),
        None => left_out(m, k),
    }
}

/// Whether a claim is left out or a text.
pub open spec fn text_if_any(m: Map<Seq<char>, Plain>, k: Seq<char>) -> bool {
    left_out(m, k) || m[k] is String
}

/// Whether a claim is left out or a whole number of 64 bits.
pub open spec fn number_if_any(m: Map<Seq<char>, Plain>, k: Seq<char>) -> bool {
    left_out(m, k) || (m[k] matches Plain::Number(n) && (server_value::number_whole(
        n,
    ) matches Some(i) && i64::MIN <= i <= i64::MAX))
}

/// Whether a claim is left out or an object.
pub open spec fn object_if_any(m: Map<Seq<char>, Plain>, k: Seq<char>) -> bool {
    left_out(m, k) || m[k] is Object
}

/// The claims of a standard token are what its payload says under their names. They can be
/// read exactly if each has its type and there is a subject.
pub proof fn law_standard_claims_are_in_the_payload(m: Map<Seq<char>, Plain>)
    ensures
        standard_claims(m) matches Some(c) ==> {
            &&& says_text(m, "sub"@, Some(c.sub))
            &&& says_number(m, "exp"@, c.exp)
            &&& says_number(m, "iat"@, c.iat)
            &&& says_text(m, "provider"@, c.provider)
            &&& says_object(m, "claims"@, c.claims)
            &&& says_text(m, "server"@, c.server)
            &&& says_text(m, "project"@, c.project)
            &&& match c.aud {
                None => left_out(m, "aud"@),
                Some(names) => m.contains_key("aud"@) && match m["aud"@] {
                    Plain::String(s) => names == seq![s],
                    Plain::Array(items) => names.len() == items.len() && forall|i: int|
                        0 <= i < items.len() ==> #[trigger] items[i] == Plain::String(names[i]),
                    _ => false,
                },
            }
        },
        standard_claims(m) is Some <==> {
            &&& !left_out(m, "sub"@) && text_if_any(m, "sub"@)
            &&& number_if_any(m, "exp"@)
            &&& number_if_any(m, "iat"@)
            &&& text_if_any(m, "provider"@)
            &&& object_if_any(m, "claims"@)
            &&& text_if_any(m, "server"@)
            &&& text_if_any(m, "project"@)
            &&& left_out(m, "aud"@) || m["aud"@] is String || (m["aud"@] matches Plain::Array(items)
                && forall|i: int| 0 <= i < items.len() ==> (#[trigger] items[i]) is String)
        },
{
    if standard_claims(m) is Some {
        if let Some(Plain::Array(items)) = claim(m, "aud"@) {
            let names = standard_claims(m)->0.aud->0;
            assert forall|i: int| 0 <= i < items.len() implies #[trigger] items[i]
                == Plain::String(names[i]) by {
                assert(items[i] is String);
            }
        }
    }
}

/// The same of a customer's token, which has a uid in place of a subject.
pub proof fn law_customer_claims_are_in_the_payload(m: Map<Seq<char>, Plain>)
    ensures
        customer_claims(m) matches Some(c) ==> {
            &&& says_text(m, "uid"@, Some(c.uid))
            &&& says_number(m, "exp"@, c.exp)
            &&& says_number(m, "iat"@, c.iat)
            &&& says_object(m, "claims"@, c.claims)
        },
        customer_claims(m) is Some <==> {
            &&& !left_out(m, "uid"@) && text_if_any(m, "uid"@)
            &&& number_if_any(m, "exp"@)
            &&& number_if_any(m, "iat"@)
            &&& object_if_any(m, "claims"@)
        },
{
}

/// The same of a legacy token, which carries its claims under `d`.
pub proof fn law_legacy_claims_are_in_the_payload(m: Map<Seq<char>, Plain>)
    ensures
        old_claims(m) matches Some(c) ==> {
            &&& says_text(m, "v"@, c.v)
            &&& says_object(m, "d"@, c.d)
            &&& says_number(m, "exp"@, c.exp)
            &&& says_number(m, "iat"@, c.iat)
        },
        old_claims(m) is Some <==> {
            &&& text_if_any(m, "v"@)
            &&& object_if_any(m, "d"@)
            &&& number_if_any(m, "exp"@)
            &&& number_if_any(m, "iat"@)
        },
{
}

/// Whom a standard token stands for is what its payload says: the subject, the provider, the
/// claims, the first name of its audience, its server and project. Nobody becomes a true
/// admin by it, and a token for another server, or without a subject, stands for nobody.
pub proof fn law_standard_token_names_its_user(
    token: Seq<char>,
    secret: Seq<u8>,
    expected: Option<Seq<char>>,
    r: Result<AuthInfo, AuthError>,
)
    requires
        standard_token_outcome(token, secret, expected, r),
    ensures
        r matches Ok(info) ==> {
            let m = token_claims(token, secret, true)->Ok_0;
            &&& token.len() > 0
            &&& token_claims(token, secret, true) is Ok
            &&& info.uid@.len() > 0
            &&& says_text(m, "sub"@, Some(info.uid@))
            &&& info@.provider == "custom"@ || says_text(m, "provider"@, Some(info@.provider))
            &&& !left_out(m, "provider"@) && m["provider"@] != Plain::String(Seq::empty())
                ==> says_text(m, "provider"@, Some(info@.provider))
            &&& left_out(m, "claims"@) ==> info@.token == Map::<Seq<char>, Plain>::empty()
            &&& !left_out(m, "claims"@) ==> m["claims"@] == Plain::Object(info@.token)
            &&& says_text(m, "server"@, info@.server_id)
            &&& says_text(m, "project"@, info@.project_id)
            &&& m.contains_key("aud"@) ==> (m["aud"@] matches Plain::String(s) ==> info@.database_id
                == Some(s))
            &&& left_out(m, "aud"@) ==> info@.database_id is None
            &&& m.contains_key("aud"@) ==> (m["aud"@] matches Plain::Array(items) ==> if items.len()
                == 0 {
                info@.database_id is None
            } else {
                info@.database_id is Some && items[0] == Plain::String(info@.database_id->0)
            })
            &&& !info.is_true_admin
            &&& expected is Some && info@.server_id is Some ==> info@.server_id == expected
        },
        token.len() == 0 ==> r is Err && r->Err_0 is NoToken,
        r matches Err(e) ==> {
            ||| token.len() == 0
            ||| token_claims(token, secret, true) is Err
            ||| standard_claims(token_claims(token, secret, true)->Ok_0) is None
            ||| e is ExpiredToken && token_claims(token, secret, true)->Ok_0.contains_key("exp"@)
            ||| e is InvalidClaims && token_claims(token, secret, true)->Ok_0["sub"@]
                == Plain::String(Seq::empty())
            ||| e is WrongServer && expected is Some && token_claims(
                token,
                secret,
                true,
            )->Ok_0["server"@] != Plain::String(expected->0)
        },
{
    if token.len() > 0 && token_claims(token, secret, true) is Ok {
        let m = token_claims(token, secret, true)->Ok_0;
        law_standard_claims_are_in_the_payload(m);
        if standard_claims(m) is Some {
            let c = standard_claims(m)->0;
            if c.sub.len() == 0 {
                assert(c.sub =~= Seq::<char>::empty());
            }
            if c.provider is Some && c.provider->0.len() == 0 {
                assert(c.provider->0 =~= Seq::<char>::empty());
            }
        }
    }
}

/// Whom a customer's token stands for is what its payload says: the uid and the claims. A
/// token without a uid stands for nobody.
pub proof fn law_customer_token_names_its_user(
    token: Seq<char>,
    secret: Seq<u8>,
    r: Result<AuthInfo, AuthError>,
)
    requires
        customer_token_outcome(token, secret, r),
    ensures
        r matches Ok(info) ==> {
            let m = token_claims(token, secret, false)->Ok_0;
            &&& token.len() > 0
            &&& token_claims(token, secret, false) is Ok
            &&& info.uid@.len() > 0
            &&& says_text(m, "uid"@, Some(info.uid@))
            &&& info@.provider == "custom"@
            &&& info@.database_id is None && info@.server_id is None && info@.project_id is None
            &&& left_out(m, "claims"@) ==> info@.token == Map::<Seq<char>, Plain>::empty()
            &&& !left_out(m, "claims"@) ==> m["claims"@] == Plain::Object(info@.token)
            &&& !info.is_true_admin
        },
        token.len() == 0 ==> r is Err && r->Err_0 is NoToken,
        r matches Err(e) ==> {
            ||| token.len() == 0
            ||| token_claims(token, secret, false) is Err
            ||| customer_claims(token_claims(token, secret, false)->Ok_0) is None
            ||| e is ExpiredToken && token_claims(token, secret, false)->Ok_0.contains_key("exp"@)
            ||| e is InvalidClaims && token_claims(token, secret, false)->Ok_0["uid"@]
                == Plain::String(Seq::empty())
        },
{
    if token.len() > 0 && token_claims(token, secret, false) is Ok {
        let m = token_claims(token, secret, false)->Ok_0;
        law_customer_claims_are_in_the_payload(m);
        if customer_claims(m) is Some && customer_claims(m)->0.uid.len() == 0 {
            assert(customer_claims(m)->0.uid =~= Seq::<char>::empty());
        }
    }
}

/// A legacy token stands for somebody without a uid, with the claims that it carries.
pub proof fn law_legacy_token_carries_its_claims(
    token: Seq<char>,
    secret: Seq<u8>,
    r: Result<AuthInfo, AuthError>,
)
    requires
        legacy_token_outcome(token, secret, r),
    ensures
        r matches Ok(info) ==> {
            let m = token_claims(token, secret, false)->Ok_0;
            &&& token.len() > 0
            &&& token_claims(token, secret, false) is Ok
            &&& info.uid@.len() == 0
            &&& info@.provider == "custom"@
            &&& info@.database_id is None && info@.server_id is None && info@.project_id is None
            &&& left_out(m, "d"@) ==> info@.token == Map::<Seq<char>, Plain>::empty()
            &&& !left_out(m, "d"@) ==> m["d"@] == Plain::Object(info@.token)
            &&& !info.is_true_admin
        },
        r matches Err(e) ==> {
            ||| token.len() == 0
            ||| token_claims(token, secret, false) is Err
            ||| old_claims(token_claims(token, secret, false)->Ok_0) is None
            ||| e is ExpiredToken && token_claims(token, secret, false)->Ok_0.contains_key("exp"@)
        },
{
    if token.len() > 0 && token_claims(token, secret, false) is Ok {
        law_legacy_claims_are_in_the_payload(token_claims(token, secret, false)->Ok_0);
    }
}

/// A token that was found to have expired is never accepted, and one whose signature or form
/// is wrong is never accepted, whatever it claims.
pub proof fn law_refused_tokens_stay_refused(
    read: TokenRead,
    well_formed: bool,
    r: Result<AuthInfo, AuthError>,
)
    requires
        is_turned_down(read, well_formed, r),
    ensures
        r is Err,
        read is Expired && well_formed ==> r->Err_0 is ExpiredToken,
        read matches TokenRead::Failed(e) ==> (r->Err_0 matches AuthError::InvalidToken(t) && t@
            == e@),
{
}

/// What is left of a payload's claims are those that are no standard ones, as they are.
pub proof fn law_custom_claims_are_the_rest(m: Map<Seq<char>, Plain>, k: Seq<char>)
    ensures
        custom_claims(m).contains_key(k) ==> m.contains_key(k) && custom_claims(m)[k] == m[k],
        m.contains_key(k) ==> (custom_claims(m).contains_key(k) <==> !(k == "iss"@ || k == "sub"@
            || k == "aud"@ || k == "exp"@ || k == "iat"@ || k == "nbf"@ || k == "jti"@ || k
            == "auth_time"@ || k == "firebase"@ || k == "user_id"@ || k == "email"@ || k
            == "email_verified"@ || k == "name"@ || k == "picture"@ || k == "phone_number"@)),
{
}

/// A payload that is an object is its claims; a list of five is the subject, the expiry, the
/// time of issue, the audience and the provider, where lists are allowed.
pub proof fn law_payloads_are_read(payload: Plain, listed: bool)
    ensures
        payload matches Plain::Object(m) ==> named_claims(payload, listed) == Some(m),
        payload matches Plain::Array(items) ==> (named_claims(payload, listed) is Some <==> listed
            && items.len() == 5) && (named_claims(payload, listed) matches Some(m) ==> m["sub"@]
            == items[0] && m["exp"@] == items[1] && m["iat"@] == items[2] && m["aud"@] == items[3]
            && m["provider"@] == items[4]),
        !(payload is Object || payload is Array) ==> named_claims(payload, listed) is None,
{
    reveal_strlit("sub");
    reveal_strlit("exp");
    reveal_strlit("iat");
    reveal_strlit("aud");
    reveal_strlit("provider");
    assert("sub"@[0] == 's' && "exp"@[0] == 'e' && "iat"@[0] == 'i' && "aud"@[0] == 'a'
        && "provider"@[0] == 'p');
}

/// The message of an error ends in the details that came with it.
pub proof fn law_error_messages_carry_the_details(e: AuthError)
    ensures
        e matches AuthError::InvalidToken(m) ==> e.message() == "invalid token: "@ + m@,
        e matches AuthError::InvalidClaims(m) ==> e.message() == "invalid claims: "@ + m@,
        e matches AuthError::InvalidIssuer(m) ==> e.message() == "invalid token issuer: "@ + m@,
        e matches AuthError::InvalidAudience(m) ==> e.message() == "invalid token audience: "@ + m@,
        e matches AuthError::KeyNotFound(m) ==> e.message() == "signing key not found: "@ + m@,
        e matches AuthError::InvalidServiceAccount(m) ==> e.message()
            == "invalid service account for project: "@ + m@,
        e matches AuthError::WrongServer { expected, got } ==> text::contains(
            e.message(),
            "expected "@ + expected@,
        ) && text::contains(e.message(), "got "@ + got@),
        e is NoToken ==> e.message() == "no token provided"@,
        e is ExpiredToken ==> e.message() == "token expired"@,
        e is InvalidKeyId ==> e.message() == "missing or invalid key ID"@,
{
    if let AuthError::WrongServer { expected, got } = e {
        reveal_strlit("token assigned to different server: expected ");
        reveal_strlit(", got ");
        reveal_strlit("expected ");
        reveal_strlit("got ");
        let m = e.message();
        let a = "expected "@ + expected@;
        let b = "got "@ + got@;
        assert(m.subrange(36, 36int + a.len()) =~= a);
        assert(text::occurs_at(m, a, 36));
        let at = m.len() - b.len();
        assert(m.subrange(at, at + b.len()) =~= b);
        assert(text::occurs_at(m, b, at));
    }
}

/// What a client is told of a refused token depends on what its details speak of: of an
/// unreadable token first the signature, then the algorithm, then a malformed token; of wrong
/// claims first the user, then the subject. Details never reach the client.
pub proof fn law_friendly_texts_hide_the_details(
    e: AuthError,
    m: Seq<char>,
    a: Seq<char>,
    b: Seq<char>,
)
    requires
        e matches AuthError::InvalidToken(t) ==> m == t@,
        e matches AuthError::InvalidClaims(t) ==> m == t@,
    ensures
        e is InvalidToken && m == a + "signature"@ + b ==> friendly_text(e)
            == "invalid token signature - check secret key configuration"@,
        e is InvalidToken && !text::contains(m, "signature"@) && (m == a + "algorithm"@ + b || m
            == a + "signing method"@ + b) ==> friendly_text(e) == "unsupported token algorithm"@,
        e is InvalidToken && !text::contains(m, "signature"@) && !text::contains(m, "algorithm"@)
            && !text::contains(m, "signing method"@) ==> friendly_text(e) == if text::contains(
            m,
            "malformed"@,
        ) {
            "malformed token"@
        } else {
            "invalid token"@
        },
        e is InvalidClaims && m == a + "missing uid"@ + b ==> friendly_text(e)
            == "token missing required 'uid' field"@,
        e is InvalidClaims && !text::contains(m, "missing uid"@) && m == a + "missing sub"@ + b
            ==> friendly_text(e) == "token missing required 'sub' field"@,
        e is InvalidClaims && !text::contains(m, "missing uid"@) && !text::contains(
            m,
            "missing sub"@,
        ) ==> friendly_text(e) == "invalid token claims"@,
        e is NoToken ==> friendly_text(e) == "no token provided"@,
        e is ExpiredToken ==> friendly_text(e) == "token expired - please reauthenticate"@,
        e is WrongServer ==> friendly_text(e) == "token assigned to different server"@,
        e is KeyNotFound ==> friendly_text(e)
            == "signing key not found - token may be using an old or invalid key"@,
        e is InvalidKeyId ==> friendly_text(e) == "missing or invalid key ID in token header"@,
        e is InvalidServiceAccount ==> friendly_text(e)
            == "service account not authorized for this project"@,
        e is InvalidIssuer ==> friendly_text(e)
            == "invalid token issuer - check firebase_project_id configuration"@,
        e is InvalidAudience ==> friendly_text(e)
            == "invalid token audience - check firebase_project_id configuration"@,
{
    text::law_parts_of_texts(a, "signature"@, b);
    text::law_parts_of_texts(a, "algorithm"@, b);
    text::law_parts_of_texts(a, "signing method"@, b);
    text::law_parts_of_texts(a, "missing uid"@, b);
    text::law_parts_of_texts(a, "missing sub"@, b);
}

/// A token for another server is refused with the names of both servers.
pub proof fn law_tokens_for_other_servers_are_refused(
    c: StandardClaims,
    expected: Option<Seq<char>>,
    r: Result<AuthInfo, AuthError>,
)
    requires
        standard_outcome(c, expected, r),
        c.sub.len() > 0,
    ensures
        expected is Some && c.server is Some && c.server != expected ==> (r matches Err(
            AuthError::WrongServer { expected: wanted, got },
        ) && Some(wanted@) == expected && Some(got@) == c.server),
        expected is None || c.server is None || c.server == expected ==> r is Ok,
{
}

/// What stands in a token is read from the middle of its three parts, as an object. Where
/// that fails the error says at which step.
pub proof fn law_payload_is_the_middle_part(token: Seq<char>)
    ensures
        ({
            let parts = text::split(token, '.');
            let r = payload_claims(token);
            &&& parts.len() != 3 <==> r == Err::<Map<Seq<char>, Plain>, Seq<char>>(
                "malformed token"@,
            )
            &&& parts.len() == 3 && base64_bytes(parts[1]) is Err ==> r == Err::<
                Map<Seq<char>, Plain>,
                Seq<char>,
            >("invalid base64: "@ + base64_bytes(parts[1])->Err_0)
            &&& parts.len() == 3 && base64_bytes(parts[1]) is Ok ==> match parsed_json(
                base64_bytes(parts[1])->Ok_0,
            ) {
                Err(e) => r == Err::<Map<Seq<char>, Plain>, Seq<char>>("invalid JSON: "@ + e),
                Ok(v) => (r matches Ok(m) ==> v == Plain::Object(m)) && (r is Ok <==> v is Object)
                    && (r is Err ==> r->Err_0 == "invalid JSON: not an object"@),
            }
        }),
{
    reveal_strlit("malformed token");
    reveal_strlit("invalid base64: ");
    reveal_strlit("invalid JSON: ");
    reveal_strlit("invalid JSON: not an object");
    assert("malformed token"@[0] == 'm');
    assert("invalid JSON: not an object"@[0] == 'i');
    let parts = text::split(token, '.');
    if parts.len() == 3 {
        if let Err(e) = base64_bytes(parts[1]) {
            assert(("invalid base64: "@ + e)[0] == 'i');
        } else if let Err(e) = parsed_json(base64_bytes(parts[1])->Ok_0) {
            assert(("invalid JSON: "@ + e)[0] == 'i');
        }
    }
}

/// A signed payload that is no object, and claims of the wrong form, are refused in words that
/// say so.
pub proof fn law_wrong_payloads_are_named(
    token: Seq<char>,
    secret: Seq<u8>,
    listed: bool,
    r: Result<AuthInfo, AuthError>,
)
    ensures
        signed_claims(token, secret) matches Ok(v) ==> (v is Bool || v is Number || v is String || v
            is Null ==> token_claims(token, secret, listed) == Err::<
            Map<Seq<char>, Plain>,
            Seq<char>,
        >("claims are not an object"@)),
        signed_claims(token, secret) matches Ok(v) ==> (v matches Plain::Object(m) ==> token_claims(
            token,
            secret,
            listed,
        ) == Ok::<Map<Seq<char>, Plain>, Seq<char>>(m)),
        signed_claims(token, secret) matches Err(e) ==> token_claims(token, secret, listed) == Err::<
            Map<Seq<char>, Plain>,
            Seq<char>,
        >(e),
        has_wrong_form(r) ==> (r matches Err(AuthError::InvalidToken(t)) && t@
            == "claims do not have the expected form"@),
{
}

} // verus!
