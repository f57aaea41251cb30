//! The clients that are connected to a database, and who they are.
use crate::json;
use crate::json::export_json;
use crate::plain;
use crate::plain::Plain;
use crate::text;
use crate::text::{concat, concat3, join_texts, same_text};
use crate::value;
use crate::value::{copy_members, Json, JsonValue, Member};
use vstd::prelude::*;

verus! {

/// Who a client is.
pub struct AuthInfo {
    pub uid: String,
    pub provider: String,
    pub token: Vec<Member>,
    pub is_admin: bool,
}

/// Who a client is, as data.
pub ghost struct Identity {
    pub uid: Seq<char>,
    pub provider: Seq<char>,
    pub token: Seq<(Seq<char>, Json)>,
    pub is_admin: bool,
}

impl View for AuthInfo {
    type V = Identity;

    open spec fn view(&self) -> Identity {
        Identity {
            uid: self.uid@,
            provider: self.provider@,
            token: value::members_json(self.token@),
            is_admin: self.is_admin,
        }
    }
}

impl AuthInfo {
    /// A copy.
    pub fn copy(&self) -> (r: AuthInfo)
        ensures
            r@ == self@,
    {
        AuthInfo {
            uid: self.uid.clone(),
            provider: self.provider.clone(),
            token: copy_members(&self.token),
            is_admin: self.is_admin,
        }
    }
}

/// Who a client is, as the security rules see it.
pub struct RulesAuth {
    pub uid: Option<String>,
    pub provider: Option<String>,
    pub token: Option<Vec<Member>>,
    pub is_true_admin: bool,
}

/// Who a client is, as data that the security rules see.
pub ghost struct RulesIdentity {
    pub uid: Option<Seq<char>>,
    pub provider: Option<Seq<char>>,
    pub token: Option<Seq<(Seq<char>, Json)>>,
    pub is_true_admin: bool,
}

/// The text of an optional string.
pub open spec fn opt_text(s: Option<String>) -> Option<Seq<char>> {
    match s {
        Some(t) => Some(t@),
        None => None,
    }
}

impl View for RulesAuth {
    type V = RulesIdentity;

    open spec fn view(&self) -> RulesIdentity {
        RulesIdentity {
            uid: opt_text(self.uid),
            provider: opt_text(self.provider),
            token: match self.token {
                Some(t) => Some(value::members_json(t@)),
                None => None,
            },
            is_true_admin: self.is_true_admin,
        }
    }
}

/// How the rules see an identity: an empty uid and an empty token are absent.
pub open spec fn rules_view(a: Identity) -> RulesIdentity {
    RulesIdentity {
        uid: if a.uid.len() == 0 {
            None
        } else {
            Some(a.uid)
        },
        provider: Some(a.provider),
        token: if a.token.len() == 0 {
            None
        } else {
            Some(a.token)
        },
        is_true_admin: a.is_admin,
    }
}

/// Prepares an identity for the security rules. A principal with an empty uid is known
/// by its token alone, so its uid reads as absent and matches no path segment.
pub fn convert_auth_to_rules(auth: &AuthInfo) -> (r: RulesAuth)
    ensures
        r@ == rules_view(auth@),
{
    let uid = if auth.uid.as_str().is_empty() {
        None
    } else {
        Some(auth.uid.clone())
    };
    let token = if auth.token.len() == 0 {
        None
    } else {
        Some(copy_members(&auth.token))
    };
    RulesAuth {
        uid,
        provider: Some(auth.provider.clone()),
        token,
        is_true_admin: auth.is_admin,
    }
}

/// A connected client.
pub struct ClientInfo {
    pub id: String,
    pub auth: Option<AuthInfo>,
    pub rules_auth: Option<RulesAuth>,
    pub connection_id: String,
    pub auth_complete: bool,
}

/// What is known of a client.
pub ghost struct Client {
    pub id: Seq<char>,
    pub auth: Option<Identity>,
    pub rules_auth: Option<RulesIdentity>,
    pub connection: Seq<char>,
    pub auth_complete: bool,
}

/// An optional identity as data.
pub open spec fn opt_identity(a: Option<AuthInfo>) -> Option<Identity> {
    match a {
        Some(x) => Some(x@),
        None => None,
    }
}

/// An optional identity as data that the rules see.
pub open spec fn opt_rules(a: Option<RulesAuth>) -> Option<RulesIdentity> {
    match a {
        Some(x) => Some(x@),
        None => None,
    }
}

/// How the rules see an optional identity.
pub open spec fn opt_rules_view(a: Option<Identity>) -> Option<RulesIdentity> {
    match a {
        Some(x) => Some(rules_view(x)),
        None => None,
    }
}

impl View for ClientInfo {
    type V = Client;

    open spec fn view(&self) -> Client {
        Client {
            id: self.id@,
            auth: opt_identity(self.auth),
            rules_auth: opt_rules(self.rules_auth),
            connection: self.connection_id@,
            auth_complete: self.auth_complete,
        }
    }
}

/// The clients on a list, by id.
pub open spec fn clients_view(s: Seq<ClientInfo>) -> Map<Seq<char>, Client>
    decreases s.len(),
{
    if s.len() == 0 {
        Map::empty()
    } else {
        clients_view(s.drop_last()).insert(s.last().id@, s.last()@)
    }
}

/// Whether no client is listed twice.
pub open spec fn ids_distinct(s: Seq<ClientInfo>) -> bool {
    forall|i: int, j: int|
        0 <= i < j < s.len() ==> (#[trigger] s[i]).id@ != (#[trigger] s[j]).id@
}

/// The clients that are connected.
pub struct Clients {
    pub list: Vec<ClientInfo>,
}

impl View for Clients {
    type V = Map<Seq<char>, Client>;

    open spec fn view(&self) -> Map<Seq<char>, Client> {
        clients_view(self.list@)
    }
}

/// A listed client is found under its id.
proof fn lemma_client_at(s: Seq<ClientInfo>, i: int)
    requires
        ids_distinct(s),
        0 <= i < s.len(),
    ensures
        clients_view(s).contains_key(s[i].id@),
        clients_view(s)[s[i].id@] == s[i]@,
    decreases s.len(),
{
    if i < s.len() - 1 {
        assert(s[i].id@ != s[s.len() - 1].id@);
        assert forall|a: int, b: int| 0 <= a < b < s.drop_last().len() implies (
        #[trigger] s.drop_last()[a]).id@ != (#[trigger] s.drop_last()[b]).id@ by {
            assert(s[a].id@ != s[b].id@);
        }
        assert(s.drop_last()[i] == s[i]);
        lemma_client_at(s.drop_last(), i);
    }
}

/// An id that no listed client has is not found.
proof fn lemma_client_none(s: Seq<ClientInfo>, id: Seq<char>)
    requires
        forall|j: int| 0 <= j < s.len() ==> (#[trigger] s[j]).id@ != id,
    ensures
        !clients_view(s).contains_key(id),
    decreases s.len(),
{
    if s.len() > 0 {
        assert forall|j: int| 0 <= j < s.drop_last().len() implies (
        #[trigger] s.drop_last()[j]).id@ != id by {
            assert(s[j].id@ != id);
        }
        assert(s[s.len() - 1].id@ != id);
        lemma_client_none(s.drop_last(), id);
    }
}

/// Replacing a listed client replaces what is found under its id.
proof fn lemma_client_update(s: Seq<ClientInfo>, i: int, c: ClientInfo)
    requires
        ids_distinct(s),
        0 <= i < s.len(),
        c.id@ == s[i].id@,
    ensures
        clients_view(s.update(i, c)) == clients_view(s).insert(c.id@, c@),
        ids_distinct(s.update(i, c)),
    decreases s.len(),
{
    let u = s.update(i, c);
    let d = s.drop_last();
    assert forall|a: int, b: int| 0 <= a < b < u.len() implies (#[trigger] u[a]).id@ != (
    #[trigger] u[b]).id@ by {
        assert(s[a].id@ != s[b].id@);
    }
    if i < s.len() - 1 {
        assert forall|a: int, b: int| 0 <= a < b < d.len() implies (#[trigger] d[a]).id@ != (
        #[trigger] d[b]).id@ by {
            assert(s[a].id@ != s[b].id@);
        }
        assert(u.drop_last() =~= d.update(i, c));
        lemma_client_update(d, i, c);
        assert(s[i].id@ != s[s.len() - 1].id@);
        assert(clients_view(u) =~= clients_view(s).insert(c.id@, c@));
    } else {
        assert(u.drop_last() =~= d);
        assert(clients_view(u) =~= clients_view(s).insert(c.id@, c@));
    }
}

impl Clients {
    /// No client is listed twice.
    pub open spec fn inv(&self) -> bool {
        ids_distinct(self.list@)
    }

    /// No clients.
    pub fn new() -> (r: Clients)
        ensures
            r.inv(),
            r@ == Map::<Seq<char>, Client>::empty(),
            r.list@.len() == 0,
    {
        Clients { list: Vec::new() }
    }

    /// Where a client is listed.
    fn find(&self, id: &str) -> (r: Option<usize>)
        requires
            self.inv(),
        ensures
            match r {
                Some(i) => i < self.list@.len() && self.list@[i as int].id@ == id@
                    && self@.contains_key(id@) && self@[id@] == self.list@[i as int]@,
                None => !self@.contains_key(id@) && forall|j: int|
                    0 <= j < self.list@.len() ==> (#[trigger] self.list@[j]).id@ != id@,
            },
    {
        let mut i: usize = 0;
        while i < self.list.len()
            invariant
                i <= self.list@.len(),
                self.inv(),
                forall|j: int| 0 <= j < i ==> (#[trigger] self.list@[j]).id@ != id@,
            decreases self.list@.len() - i,
        {
            if same_text(self.list[i].id.as_str(), id) {
                proof {
                    lemma_client_at(self.list@, i as int);
                }
                return Some(i);
            }
            i = i + 1;
        }
        proof {
            lemma_client_none(self.list@, id@);
        }
        None
    }

    /// A client, if it is connected.
    pub fn get(&self, id: &str) -> (r: Option<&ClientInfo>)
        requires
            self.inv(),
        ensures
            match r {
                Some(c) => self@.contains_key(id@) && self@[id@] == c@ && c@.id == id@,
                None => !self@.contains_key(id@),
            },
    {
        match self.find(id) {
            Some(i) => Some(&self.list[i]),
            None => None,
        }
    }

    /// Lists a client, in place of one with the same id.
    pub fn insert(&mut self, c: ClientInfo)
        requires
            old(self).inv(),
        ensures
            final(self).inv(),
            final(self)@ == old(self)@.insert(c.id@, c@),
    {
        match self.find(c.id.as_str()) {
            Some(i) => {
                proof {
                    lemma_client_update(self.list@, i as int, c);
                }
                self.list.set(i, c);
            },
            None => {
                let ghost before = self.list@;
                self.list.push(c);
                assert(self.list@.drop_last() =~= before);
            },
        }
    }

    /// Takes a client off the list.
    pub fn remove(&mut self, id: &str)
        requires
            old(self).inv(),
        ensures
            final(self).inv(),
            final(self)@ == old(self)@.remove(id@),
            old(self)@.contains_key(id@) ==> final(self).list@.len() + 1 == old(self).list@.len(),
            !old(self)@.contains_key(id@) ==> final(self).list == old(self).list,
    {
        match self.find(id) {
            Some(i) => {
                let ghost before = self.list@;
                let _ = self.list.remove(i);
                proof {
                    lemma_client_removed(before, i as int);
                    assert(self.list@ =~= before.remove(i as int));
                }
            },
            None => {
                assert(self@ =~= old(self)@.remove(id@));
            },
        }
    }

    /// The connection that a client came in on; empty where it is not known.
    pub fn connection_of(&self, id: &str) -> (r: Option<&str>)
        requires
            self.inv(),
        ensures
            match r {
                Some(c) => self@.contains_key(id@) && c@ == self@[id@].connection,
                None => !self@.contains_key(id@),
            },
    {
        match self.get(id) {
            Some(c) => Some(c.connection_id.as_str()),
            None => None,
        }
    }
}

/// Taking a client off the list takes away what was found under its id.
proof fn lemma_client_removed(s: Seq<ClientInfo>, i: int)
    requires
        ids_distinct(s),
        0 <= i < s.len(),
    ensures
        clients_view(s.remove(i)) == clients_view(s).remove(s[i].id@),
        ids_distinct(s.remove(i)),
    decreases s.len(),
{
    let u = s.remove(i);
    let d = s.drop_last();
    assert forall|a: int, b: int| 0 <= a < b < u.len() implies (#[trigger] u[a]).id@ != (
    #[trigger] u[b]).id@ by {
        let x = if a < i { a } else { a + 1 };
        let y = if b < i { b } else { b + 1 };
        assert(u[a] == s[x] && u[b] == s[y]);
        assert(s[x].id@ != s[y].id@);
    }
    assert forall|a: int, b: int| 0 <= a < b < d.len() implies (#[trigger] d[a]).id@ != (
    #[trigger] d[b]).id@ by {
        assert(s[a].id@ != s[b].id@);
    }
    if i < s.len() - 1 {
        assert(u.drop_last() =~= d.remove(i));
        lemma_client_removed(d, i);
        assert(s[i].id@ != s[s.len() - 1].id@);
        assert(clients_view(u) =~= clients_view(s).remove(s[i].id@));
    } else {
        assert(u =~= d);
        assert forall|j: int| 0 <= j < d.len() implies (#[trigger] d[j]).id@ != s[i].id@ by {
            assert(s[j].id@ != s[i].id@);
        }
        lemma_client_none(d, s[i].id@);
        assert(clients_view(u) =~= clients_view(s).remove(s[i].id@));
    }
}

/// Names the text that `serde_json` writes for a value.
pub uninterp spec fn json_text(v: Plain) -> Seq<char>;

/// `<serde_json::Value as ToString>::to_string`: compact JSON with the members in key
/// order, so that the text depends on the data alone.
#[verifier::external_body]
fn json_display(v: &serde_json::Value) -> (r: String)
    ensures
        r@ == json_text(json::held_json(*v)),
{
    v.to_string()
}

/// The claims that every token carries; a summary does not repeat them.
pub open spec fn is_standard_claim(k: Seq<char>) -> bool {
    k == "uid"@ || k == "provider"@ || k == "iat"@ || k == "exp"@ || k == "aud"@ || k == "iss"@
        || k == "sub"@
}

/// How a claim is shown: texts as they are, anything else as JSON.
pub open spec fn claim_text(v: Json) -> Seq<char> {
    match v {
        Json::String(s) => s,
        other => json_text(plain::plain(other)),
    }
}

/// The first `n` claims that a summary shows.
pub open spec fn claim_parts(token: Seq<(Seq<char>, Json)>, n: int) -> Seq<Seq<char>>
    decreases n,
{
    if n <= 0 || n > token.len() {
        Seq::empty()
    } else if is_standard_claim(token[n - 1].0) {
        claim_parts(token, n - 1)
    } else {
        claim_parts(token, n - 1).push(
            token[n - 1].0 + "="@ + claim_text(token[n - 1].1),
        )
    }
}

/// The parts of a summary of an identity.
pub open spec fn summary_parts(a: RulesIdentity) -> Seq<Seq<char>> {
    let p1: Seq<Seq<char>> = match a.uid {
        Some(u) => seq!["uid="@ + u],
        None => Seq::empty(),
    };
    let p2 = match a.provider {
        Some(p) => p1.push("provider="@ + p),
        None => p1,
    };
    let p3 = if a.is_true_admin {
        p2.push("is_admin=true"@)
    } else {
        p2
    };
    match a.token {
        Some(t) => p3 + claim_parts(t, t.len() as int),
        None => p3,
    }
}

/// A summary of who a client is.
pub open spec fn auth_summary(c: Option<Client>) -> Seq<char> {
    match c {
        None => "unknown client"@,
        Some(client) => match client.rules_auth {
            None => "unauthenticated"@,
            Some(a) => if summary_parts(a).len() == 0 {
                "authenticated (no claims)"@
            } else {
                text::join(summary_parts(a), ", "@)
            },
        },
    }
}

/// Whether a claim is one that every token carries.
fn standard_claim(k: &str) -> (r: bool)
    ensures
        r == is_standard_claim(k@),
{
    same_text(k, "uid") || same_text(k, "provider") || same_text(k, "iat") || same_text(k, "exp")
        || same_text(k, "aud") || same_text(k, "iss") || same_text(k, "sub")
}

/// A claim as a summary shows it.
fn shown_claim(v: &JsonValue) -> (r: String)
    ensures
        r@ == claim_text(v@),
{
    match v {
        JsonValue::String(s) => s.clone(),
        other => {
            let exported = export_json(other);
            json_display(&exported)
        },
    }
}

impl Clients {
    /// A readable summary of who a client is.
    pub fn auth_summary(&self, id: &str) -> (r: String)
        requires
            self.inv(),
        ensures
            r@ == auth_summary(
                if self@.contains_key(id@) {
                    Some(self@[id@])
                } else {
                    None
                },
            ),
    {
        let client = match self.get(id) {
            Some(c) => c,
            None => {
                return "unknown client".to_owned();
            },
        };
        let auth = match &client.rules_auth {
            Some(a) => a,
            None => {
                return "unauthenticated".to_owned();
            },
        };
        let mut parts: Vec<String> = Vec::new();
        match &auth.uid {
            Some(u) => {
                parts.push(concat("uid=", u.as_str()));
            },
            None => {},
        }
        match &auth.provider {
            Some(p) => {
                parts.push(concat("provider=", p.as_str()));
            },
            None => {},
        }
        if auth.is_true_admin {
            parts.push("is_admin=true".to_owned());
        }
        let ghost head = text::texts(parts@);
        proof {
            let a = auth@;
            let p1: Seq<Seq<char>> = match a.uid {
                Some(u) => seq!["uid="@ + u],
                None => Seq::empty(),
            };
            let p2 = match a.provider {
                Some(p) => p1.push("provider="@ + p),
                None => p1,
            };
            let p3 = if a.is_true_admin {
                p2.push("is_admin=true"@)
            } else {
                p2
            };
            assert(head =~= p3);
        }
        match &auth.token {
            Some(token) => {
                let ghost ms = value::members_json(token@);
                let mut i: usize = 0;
                assert(head + claim_parts(ms, 0) =~= head);
                while i < token.len()
                    invariant
                        i <= token@.len(),
                        ms == value::members_json(token@),
                        text::texts(parts@) == head + claim_parts(ms, i as int),
                    decreases token@.len() - i,
                {
                    let m = &token[i];
                    assert(ms[i as int] == (m.key@, m.value@));
                    let ghost before = parts@;
                    if !standard_claim(m.key.as_str()) {
                        let shown = shown_claim(&m.value);
                        let part = concat3(m.key.as_str(), "=", shown.as_str());
                        parts.push(part);
                        assert(text::texts(parts@) =~= text::texts(before).push(part@));
                        assert(head + claim_parts(ms, i + 1) =~= (head + claim_parts(
                            ms,
                            i as int,
                        )).push(part@));
                    }
                    i = i + 1;
                }
            },
            None => {},
        }
        assert(text::texts(parts@) == summary_parts(auth@));
        if parts.len() == 0 {
            "authenticated (no claims)".to_owned()
        } else {
            join_texts(&parts, ", ")
        }
    }
}

/// A client whose uid is empty never has a uid in the eyes of the rules, but is not
/// taken for somebody without an identity.
pub proof fn law_empty_uid_is_absent(a: Identity)
    ensures
        rules_view(a).uid is None <==> a.uid.len() == 0,
        rules_view(a).is_true_admin == a.is_admin,
        rules_view(a).provider == Some(a.provider),
{
}

/// The rules see the claims of a client, all of them and as they are, whoever the client is;
/// a client without claims has no token in their eyes.
pub proof fn law_rules_see_the_claims(a: Identity)
    ensures
        a.token.len() > 0 ==> rules_view(a).token == Some(a.token),
        a.token.len() == 0 ==> rules_view(a).token is None,
{
}

/// The rules tell two clients apart exactly if they differ in uid, provider, claims or in
/// being an admin.
pub proof fn law_rules_tell_clients_apart(a: Identity, b: Identity)
    ensures
        rules_view(a) == rules_view(b) <==> a == b,
        a.uid.len() > 0 ==> rules_view(a).uid == Some(a.uid),
        opt_rules_view(Some(a)) == Some(rules_view(a)),
        opt_rules_view(None) is None,
{
    if rules_view(a) == rules_view(b) {
        if a.uid.len() == 0 {
            assert(a.uid =~= b.uid);
        }
        if a.token.len() == 0 {
            assert(a.token =~= b.token);
        }
    }
}

/// What is told of a client names its user, its provider, whether it is an administrator, and
/// every claim of its own. Standard claims are not repeated.
pub proof fn law_summary_names_the_claims(client: Client, a: RulesIdentity, i: int)
    requires
        client.rules_auth == Some(a),
    ensures
        ({
            let told = auth_summary(Some(client));
            &&& a.uid matches Some(u) ==> text::contains(told, "uid="@ + u)
            &&& a.provider matches Some(p) ==> text::contains(told, "provider="@ + p)
            &&& a.is_true_admin ==> text::contains(told, "is_admin=true"@)
            &&& a.token matches Some(t) ==> (0 <= i < t.len() && !is_standard_claim(t[i].0)
                ==> text::contains(told, t[i].0 + "="@ + claim_text(t[i].1)))
            &&& a.token matches Some(t) ==> (0 <= i < t.len() ==> (t[i].1 matches Json::String(s)
                ==> claim_text(t[i].1) == s))
        }),
        auth_summary(Some(Client { rules_auth: None, ..client })) == "unauthenticated"@,
        auth_summary(None) == "unknown client"@,
{
    let parts = summary_parts(a);
    if a.uid is Some {
        assert(parts[0] == "uid="@ + a.uid->0);
        text::law_joined_texts_hold_their_parts(parts, ", "@, 0);
    }
    if a.provider is Some {
        let at: int = if a.uid is Some {
            1
        } else {
            0
        };
        assert(parts[at] == "provider="@ + a.provider->0);
        text::law_joined_texts_hold_their_parts(parts, ", "@, at);
    }
    let admin_at: int = (if a.uid is Some {
        1int
    } else {
        0int
    }) + if a.provider is Some {
        1int
    } else {
        0int
    };
    if a.is_true_admin {
        assert(parts[admin_at] == "is_admin=true"@);
        text::law_joined_texts_hold_their_parts(parts, ", "@, admin_at);
    }
    if let Some(t) = a.token {
        if 0 <= i < t.len() && !is_standard_claim(t[i].0) {
            let own = claim_parts(t, t.len() as int);
            let first = parts.len() - own.len();
            lemma_claim_is_listed(t, t.len() as int, i);
            let j = choose|j: int|
                0 <= j < own.len() && own[j] == t[i].0 + "="@ + claim_text(t[i].1);
            assert(parts[first + j] == own[j]);
            text::law_joined_texts_hold_their_parts(parts, ", "@, first + j);
        }
    }
}

/// Every claim that is not a standard one is listed.
proof fn lemma_claim_is_listed(t: Seq<(Seq<char>, Json)>, n: int, i: int)
    requires
        0 <= i < n <= t.len(),
        !is_standard_claim(t[i].0),
    ensures
        exists|j: int|
            0 <= j < claim_parts(t, n).len() && #[trigger] claim_parts(t, n)[j] == t[i].0 + "="@
                + claim_text(t[i].1),
    decreases n,
{
    let now = claim_parts(t, n);
    if i == n - 1 {
        assert(now[now.len() - 1] == t[i].0 + "="@ + claim_text(t[i].1));
    } else {
        lemma_claim_is_listed(t, n - 1, i);
        let before = claim_parts(t, n - 1);
        let j = choose|j: int|
            0 <= j < before.len() && #[trigger] before[j] == t[i].0 + "="@ + claim_text(t[i].1);
        assert(now[j] == before[j]);
    }
}

/// Only claims of the token itself are listed, none of them a standard one.
pub proof fn law_standard_claims_are_not_repeated(t: Seq<(Seq<char>, Json)>, n: int)
    requires
        0 <= n <= t.len(),
    ensures
        forall|j: int|
            0 <= j < claim_parts(t, n).len() ==> exists|i: int|
                0 <= i < n && !is_standard_claim((#[trigger] t[i]).0) && #[trigger] claim_parts(
                    t,
                    n,
                )[j] == t[i].0 + "="@ + claim_text(t[i].1),
        forall|k: Seq<char>| #[trigger]
            is_standard_claim(k) <==> k == "uid"@ || k == "provider"@ || k == "iat"@ || k == "exp"@
                || k == "aud"@ || k == "iss"@ || k == "sub"@,
    decreases n,
{
    if n > 0 {
        law_standard_claims_are_not_repeated(t, n - 1);
        let now = claim_parts(t, n);
        let before = claim_parts(t, n - 1);
        assert forall|j: int| 0 <= j < now.len() implies exists|i: int|
            0 <= i < n && !is_standard_claim((#[trigger] t[i]).0) && #[trigger] now[j] == t[i].0
                + "="@ + claim_text(t[i].1) by {
            if j < before.len() {
                assert(now[j] == before[j]);
                let i = choose|i: int|
                    0 <= i < n - 1 && !is_standard_claim((#[trigger] t[i]).0) && before[j]
                        == t[i].0 + "="@ + claim_text(t[i].1);
                assert(!is_standard_claim(t[i].0));
            } else {
                assert(!is_standard_claim(t[n - 1].0));
            }
        }
    }
}

/// An identity of which nothing is known is called so.
pub proof fn law_identities_without_claims(client: Client, a: RulesIdentity)
    requires
        client.rules_auth == Some(a),
        a.uid is None && a.provider is None && !a.is_true_admin,
        a.token is None || a.token == Some(Seq::<(Seq<char>, Json)>::empty()),
    ensures
        auth_summary(Some(client)) == "authenticated (no claims)"@,
{
}

} // verus!
