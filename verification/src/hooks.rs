//! Writes that clients leave behind to be carried out when they disconnect.
use crate::change;
use crate::change::{Change, MutationEvent};
use crate::database::{ClientHooks, Database, DisconnectAction};
use crate::path;
use crate::path::{bytes_in, child_path_text, validate_path};
use crate::protocol::{Answer, ClientMessage, ErrorCode, ServerMessage};
use crate::replay::{Entry, WalOp};
use crate::store::AppendOutcome;
use crate::text;
use crate::text::same_text;
use crate::transaction;
use crate::transaction::NewData;
use crate::value;
use crate::value::{
    copy_members, copy_opt_value, copy_value, estimate_value_bytes, validate_value_keys, Json,
    JsonValue,
};
use crate::writes;
use crate::writes::lies_too_deep;
use vstd::prelude::*;

verus! {

/// Largest number of waiting writes of one client.
pub const MAX_ON_DISCONNECT_ACTIONS_PER_CLIENT: usize = 100;

/// Largest size of the waiting writes of one client, in bytes.
pub const MAX_ON_DISCONNECT_BYTES_PER_CLIENT: usize = 1_048_576;

/// What a request about waiting writes asks for next.
pub enum HookStep {
    /// Nothing: this is the answer.
    Reply(ServerMessage),
    /// Whether the client may carry out the write.
    Authorize(NewData),
}

/// A waiting write, as data.
pub ghost struct Hook {
    pub path: Seq<char>,
    pub action: Seq<char>,
    pub value: Option<Json>,
}

impl View for DisconnectAction {
    type V = Hook;

    open spec fn view(&self) -> Hook {
        Hook { path: self.path@, action: self.action@, value: value::opt_json(self.value) }
    }
}

/// A list of waiting writes, as data.
pub open spec fn hooks_view(s: Seq<DisconnectAction>) -> Seq<Hook> {
    s.map_values(|a: DisconnectAction| a@)
}

/// The waiting writes of a client.
pub open spec fn hooks_of(s: Seq<ClientHooks>, client: Seq<char>) -> Seq<Hook>
    decreases s.len(),
{
    if s.len() == 0 {
        Seq::empty()
    } else if s[0].client_id@ == client {
        hooks_view(s[0].actions@)
    } else {
        hooks_of(s.skip(1), client)
    }
}

/// The size of a waiting write.
pub open spec fn hook_bytes(h: Hook) -> nat {
    text::byte_len(h.path) + text::byte_len(h.action) + match h.value {
        Some(v) => value::weight(v),
        None => 0,
    }
}

/// The size of waiting writes together.
pub open spec fn hooks_bytes(s: Seq<Hook>) -> nat
    decreases s.len(),
{
    if s.len() == 0 {
        0
    } else {
        hooks_bytes(s.drop_last()) + hook_bytes(s.last())
    }
}

/// What a request wants to be done on disconnect; without a word about it, a set.
pub open spec fn wanted_action(msg: ClientMessage) -> Seq<char> {
    match msg.action {
        Some(a) => a@,
        None => "s"@,
    }
}

/// Whether an action is a write.
pub open spec fn is_write_action(a: Seq<char>) -> bool {
    a == "s"@ || a == "u"@ || a == "d"@
}

/// The waiting write that a request asks for.
pub open spec fn wanted_hook(msg: ClientMessage) -> Hook {
    Hook { path: msg.target(), action: wanted_action(msg), value: msg.data() }
}

/// Whether the path and the keys of a waiting write follow the rules.
pub open spec fn hook_fits(db: Database, h: Hook) -> bool {
    writes::path_fits(db, h.path) && match h.value {
        Some(v) if h.action == "s"@ => value::keys_valid(v),
        Some(Json::Object(members)) if h.action == "u"@ => transaction::members_fit(
            db,
            h.path,
            members,
            members.len() as int,
        ),
        _ => true,
    }
}

/// Whether a waiting write would lie too deep.
pub open spec fn hook_sinks(db: Database, h: Hook) -> bool {
    match h.value {
        Some(v) if h.action == "s"@ => writes::sinks(db, h.path, v),
        Some(Json::Object(members)) if h.action == "u"@ => transaction::members_sink(
            db,
            h.path,
            members,
            members.len() as int,
        ),
        _ => false,
    }
}

/// Whether a client has no room for one more waiting write.
pub open spec fn hooks_full(s: Seq<Hook>, h: Hook) -> bool {
    s.len() >= MAX_ON_DISCONNECT_ACTIONS_PER_CLIENT || hooks_bytes(s) + hook_bytes(h)
        > MAX_ON_DISCONNECT_BYTES_PER_CLIENT
}

/// The waiting writes that are left when those for a path are called off.
pub open spec fn without_path(s: Seq<Hook>, p: Seq<char>) -> Seq<Hook>
    decreases s.len(),
{
    if s.len() == 0 {
        Seq::empty()
    } else if s.last().path == p {
        without_path(s.drop_last(), p)
    } else {
        without_path(s.drop_last(), p).push(s.last())
    }
}

/// The write that a waiting write comes to, if it comes to one.
pub open spec fn hook_write(h: Hook) -> Option<Entry> {
    let p = path::segments(h.path);
    if h.action == "set"@ || h.action == "s"@ {
        match h.value {
            Some(v) => Some(Entry { op: WalOp::Assign, path: p, value: Some(v) }),
            None => None,
        }
    } else if h.action == "update"@ || h.action == "u"@ {
        match h.value {
            Some(Json::Object(members)) => Some(
                Entry { op: WalOp::Update, path: p, value: Some(Json::Object(members)) },
            ),
            _ => None,
        }
    } else if h.action == "remove"@ || h.action == "d"@ {
        Some(Entry { op: WalOp::Delete, path: p, value: None })
    } else {
        None
    }
}

/// The writes that the first `n` waiting writes come to.
pub open spec fn hook_writes(s: Seq<Hook>, n: int) -> Seq<Entry>
    decreases n,
{
    if n <= 0 || n > s.len() {
        Seq::empty()
    } else {
        match hook_write(s[n - 1]) {
            Some(e) => hook_writes(s, n - 1).push(e),
            None => hook_writes(s, n - 1),
        }
    }
}

/// The entry that counts for a client holds its waiting writes.
proof fn lemma_hooks_at(s: Seq<ClientHooks>, i: int, client: Seq<char>)
    requires
        0 <= i < s.len(),
        s[i].client_id@ == client,
        forall|j: int| 0 <= j < i ==> (#[trigger] s[j]).client_id@ != client,
    ensures
        hooks_of(s, client) == hooks_view(s[i].actions@),
    decreases i,
{
    if i > 0 {
        assert(s[0].client_id@ != client);
        let t = s.skip(1);
        assert forall|j: int| 0 <= j < i - 1 implies (#[trigger] t[j]).client_id@ != client by {
            assert(t[j] == s[j + 1]);
        }
        lemma_hooks_at(t, i - 1, client);
    }
}

/// A client without an entry has no waiting writes.
proof fn lemma_hooks_none(s: Seq<ClientHooks>, client: Seq<char>)
    requires
        forall|j: int| 0 <= j < s.len() ==> (#[trigger] s[j]).client_id@ != client,
    ensures
        hooks_of(s, client) == Seq::<Hook>::empty(),
    decreases s.len(),
{
    if s.len() > 0 {
        assert(s[0].client_id@ != client);
        let t = s.skip(1);
        assert forall|j: int| 0 <= j < t.len() implies (#[trigger] t[j]).client_id@ != client by {
            assert(t[j] == s[j + 1]);
        }
        lemma_hooks_none(t, client);
    }
}

/// Changing the entry of one client leaves the others alone.
proof fn lemma_hooks_update(s: Seq<ClientHooks>, i: int, e: ClientHooks, other: Seq<char>)
    requires
        0 <= i < s.len(),
        e.client_id@ == s[i].client_id@,
        other != e.client_id@,
    ensures
        hooks_of(s.update(i, e), other) == hooks_of(s, other),
    decreases s.len(),
{
    let u = s.update(i, e);
    if i > 0 {
        assert(u[0] == s[0]);
        assert(u.skip(1) =~= s.skip(1).update(i - 1, e));
        lemma_hooks_update(s.skip(1), i - 1, e, other);
    } else {
        assert(u.skip(1) =~= s.skip(1));
    }
}

/// A new entry at the end leaves the others alone.
proof fn lemma_hooks_push(s: Seq<ClientHooks>, e: ClientHooks, other: Seq<char>)
    requires
        other != e.client_id@,
    ensures
        hooks_of(s.push(e), other) == hooks_of(s, other),
    decreases s.len(),
{
    let u = s.push(e);
    if s.len() > 0 {
        assert(u[0] == s[0]);
        assert(u.skip(1) =~= s.skip(1).push(e));
        lemma_hooks_push(s.skip(1), e, other);
    } else {
        assert(u[0] == e);
        assert(u.skip(1) =~= s);
    }
}

/// Where the waiting writes of a client are listed.
fn find_hooks(list: &Vec<ClientHooks>, client_id: &str) -> (r: Option<usize>)
    ensures
        match r {
            Some(i) => i < list@.len() && list@[i as int].client_id@ == client_id@ && hooks_of(
                list@,
                client_id@,
            ) == hooks_view(list@[i as int].actions@) && forall|j: int|
                0 <= j < i ==> (#[trigger] list@[j]).client_id@ != client_id@,
            None => hooks_of(list@, client_id@) == Seq::<Hook>::empty() && forall|j: int|
                0 <= j < list@.len() ==> (#[trigger] list@[j]).client_id@ != client_id@,
        },
{
    let mut i: usize = 0;
    while i < list.len()
        invariant
            i <= list@.len(),
            forall|j: int| 0 <= j < i ==> (#[trigger] list@[j]).client_id@ != client_id@,
        decreases list@.len() - i,
    {
        if same_text(list[i].client_id.as_str(), client_id) {
            proof {
                lemma_hooks_at(list@, i as int, client_id@);
            }
            return Some(i);
        }
        i = i + 1;
    }
    proof {
        lemma_hooks_none(list@, client_id@);
    }
    None
}

/// Puts other waiting writes in place of those of a client.
fn replace_hooks(
    list: &mut Vec<ClientHooks>,
    client_id: &str,
    actions: Vec<DisconnectAction>,
)
    ensures
        forall|c: Seq<char>| #[trigger]
            hooks_of(final(list)@, c) == if c == client_id@ {
                hooks_view(actions@)
            } else {
                hooks_of(old(list)@, c)
            },
{
    let ghost all = list@;
    match find_hooks(list, client_id) {
        Some(i) => {
            let e = ClientHooks { client_id: client_id.to_owned(), actions };
            proof {
                let u = all.update(i as int, e);
                assert forall|j: int| 0 <= j < i implies (#[trigger] u[j]).client_id@
                    != client_id@ by {
                    assert(all[j].client_id@ != client_id@);
                }
                lemma_hooks_at(u, i as int, client_id@);
                assert forall|c: Seq<char>| #[trigger] hooks_of(u, c) == if c == client_id@ {
                    hooks_view(actions@)
                } else {
                    hooks_of(all, c)
                } by {
                    if c != client_id@ {
                        lemma_hooks_update(all, i as int, e, c);
                    }
                }
            }
            list.set(i, e);
        },
        None => {
            let e = ClientHooks { client_id: client_id.to_owned(), actions };
            list.push(e);
            proof {
                let u = all.push(e);
                assert forall|j: int| 0 <= j < all.len() implies (#[trigger] u[j]).client_id@
                    != client_id@ by {
                    assert(all[j].client_id@ != client_id@);
                }
                lemma_hooks_at(u, all.len() as int, client_id@);
                assert forall|c: Seq<char>| #[trigger] hooks_of(u, c) == if c == client_id@ {
                    hooks_view(actions@)
                } else {
                    hooks_of(all, c)
                } by {
                    if c != client_id@ {
                        lemma_hooks_push(all, e, c);
                    }
                }
            }
        },
    }
}

/// Takes the waiting writes of a client off the list.
fn take_hooks(list: &mut Vec<ClientHooks>, client_id: &str) -> (r: Vec<DisconnectAction>)
    ensures
        hooks_view(r@) == hooks_of(old(list)@, client_id@),
        forall|c: Seq<char>| #[trigger]
            hooks_of(final(list)@, c) == if c == client_id@ {
                Seq::<Hook>::empty()
            } else {
                hooks_of(old(list)@, c)
            },
{
    let ghost all = list@;
    let mut taken: Vec<DisconnectAction> = Vec::new();
    match find_hooks(list, client_id) {
        Some(i) => {
            std::mem::swap(&mut taken, &mut list[i].actions);
            proof {
                let u = list@;
                let e = u[i as int];
                assert(u =~= all.update(i as int, e));
                assert(hooks_view(e.actions@) =~= Seq::<Hook>::empty());
                assert forall|j: int| 0 <= j < i implies (#[trigger] u[j]).client_id@
                    != client_id@ by {
                    assert(all[j].client_id@ != client_id@);
                }
                lemma_hooks_at(u, i as int, client_id@);
                assert forall|c: Seq<char>| #[trigger] hooks_of(u, c) == if c == client_id@ {
                    Seq::<Hook>::empty()
                } else {
                    hooks_of(all, c)
                } by {
                    if c != client_id@ {
                        lemma_hooks_update(all, i as int, e, c);
                    }
                }
            }
        },
        None => {
            assert(hooks_view(taken@) =~= Seq::<Hook>::empty());
        },
    }
    taken
}

/// The size of a waiting write, as far as a machine integer holds it.
fn action_bytes(path: &str, action: &str, v: &Option<JsonValue>) -> (r: usize)
    ensures
        r == value::held(
            hook_bytes(Hook { path: path@, action: action@, value: value::opt_json(*v) }),
        ),
{
    let text = bytes_in(path).saturating_add(bytes_in(action));
    match v {
        Some(x) => text.saturating_add(estimate_value_bytes(x)),
        None => text,
    }
}

/// The size of waiting writes together, as far as a machine integer holds it.
fn actions_bytes(actions: &Vec<DisconnectAction>) -> (r: usize)
    ensures
        r == value::held(hooks_bytes(hooks_view(actions@))),
{
    let ghost hs = hooks_view(actions@);
    let mut sum: usize = 0;
    let mut i: usize = 0;
    assert(hs.take(0) =~= Seq::<Hook>::empty());
    while i < actions.len()
        invariant
            i <= actions@.len(),
            hs == hooks_view(actions@),
            sum == value::held(hooks_bytes(hs.take(i as int))),
        decreases actions@.len() - i,
    {
        let a = &actions[i];
        assert(hs.take(i + 1).drop_last() =~= hs.take(i as int));
        assert(hs.take(i + 1).last() == a@);
        sum = sum.saturating_add(action_bytes(a.path.as_str(), a.action.as_str(), &a.value));
        i = i + 1;
    }
    assert(hs.take(i as int) =~= hs);
    sum
}

/// The answer to a request about waiting writes that is turned down.
pub open spec fn hook_refused(msg: ClientMessage, code: ErrorCode, message: Seq<char>) -> Answer {
    Answer::Nack(msg.request(), code, message)
}

/// The refusal of one waiting write too many.
pub open spec fn no_room(msg: ClientMessage) -> Answer {
    hook_refused(
        msg,
        ErrorCode::PayloadTooLarge,
        "onDisconnect limit reached (100 actions or 1048576 bytes per connection)"@,
    )
}

/// Whether the security rules are asked about a waiting write as they would be about
/// the write itself.
pub open spec fn asks_about(d: NewData, h: Hook) -> bool {
    match h.value {
        Some(v) if h.action == "s"@ => d matches NewData::Assign(x) && x@ == v,
        Some(Json::Object(members)) if h.action == "u"@ => d matches NewData::Update(x)
            && value::members_json(x@) == members,
        _ => d is Nothing,
    }
}

impl Database {
    /// Whether this state differs from an earlier one in the waiting writes of one
    /// client alone.
    pub open spec fn rehooked(&self, before: &Database, client: Seq<char>, now: Seq<Hook>) -> bool {
        &&& *self == (Database { on_disconnect: self.on_disconnect, ..*before })
        &&& forall|c: Seq<char>| #[trigger]
            hooks_of(self.on_disconnect@, c) == if c == client {
                now
            } else {
                hooks_of(before.on_disconnect@, c)
            }
    }

    /// Whether a waiting write has a valid form: `None` where it has, else whether it
    /// lies too deep.
    fn bad_hook(&self, p: &str, action: &str, v: &Option<JsonValue>) -> (r: Option<bool>)
        ensures
            ({
                let h = Hook { path: p@, action: action@, value: value::opt_json(*v) };
                match r {
                    None => hook_fits(*self, h) && !hook_sinks(*self, h),
                    Some(false) => !hook_fits(*self, h),
                    Some(true) => hook_fits(*self, h) && hook_sinks(*self, h),
                }
            }),
    {
        let max_depth = self.limits.max_path_depth;
        let path_check = validate_path(p, max_depth);
        if path_check.is_err() {
            return Some(false);
        }
        let x = match v {
            Some(x) => x,
            None => {
                return None;
            },
        };
        if same_text(action, "s") {
            let key_check = validate_value_keys(x);
            if key_check.is_err() {
                return Some(false);
            }
            if lies_too_deep(p, x, max_depth) {
                return Some(true);
            }
            return None;
        }
        if !same_text(action, "u") {
            return None;
        }
        let members = match x {
            JsonValue::Object(members) => members,
            _ => {
                return None;
            },
        };
        let ghost ms = value::members_json(members@);
        let mut deep = false;
        let mut i: usize = 0;
        while i < members.len()
            invariant
                i <= members@.len(),
                ms == value::members_json(members@),
                max_depth == self.limits.max_path_depth,
                transaction::members_fit(*self, p@, ms, i as int),
                deep == transaction::members_sink(*self, p@, ms, i as int),
                action@ == "u"@,
                action@ != "s"@,
                value::opt_json(*v) == Some(Json::Object(ms)),
            decreases members@.len() - i,
        {
            let m = &members[i];
            assert(ms[i as int] == (m.key@, m.value@));
            let full = child_path_text(p, m.key.as_str());
            let path_check = validate_path(full.as_str(), max_depth);
            let key_check = validate_value_keys(&m.value);
            if path_check.is_err() || key_check.is_err() {
                assert(!transaction::members_fit(*self, p@, ms, ms.len() as int)) by {
                    assert(ms[i as int].0 == m.key@);
                }
                return Some(false);
            }
            if lies_too_deep(full.as_str(), &m.value, max_depth) {
                assert(writes::sinks(
                    *self,
                    path::child_path(p@, ms[i as int].0),
                    ms[i as int].1,
                ));
                deep = true;
            }
            i = i + 1;
        }
        if deep {
            Some(true)
        } else {
            None
        }
    }

    /// Starts a request about waiting writes. What is to be carried out later is
    /// checked now as if it were carried out now.
    pub fn begin_on_disconnect(&mut self, client_id: &str, msg: &ClientMessage) -> (r: HookStep)
        requires
            old(self).inv(),
        ensures
            final(self).inv(),
            ({
                let h = wanted_hook(*msg);
                if is_write_action(h.action) {
                    &&& *final(self) == *old(self)
                    &&& if !hook_fits(*old(self), h) {
                        r matches HookStep::Reply(m) && m@ == hook_refused(
                            *msg,
                            ErrorCode::InvalidData,
                            "invalid path or key"@,
                        )
                    } else if hook_sinks(*old(self), h) {
                        r matches HookStep::Reply(m) && m@ == hook_refused(
                            *msg,
                            ErrorCode::InvalidData,
                            "write exceeds maximum path depth"@,
                        )
                    } else {
                        r matches HookStep::Authorize(d) && asks_about(d, h)
                    }
                } else {
                    &&& r matches HookStep::Reply(m) && m@ == Answer::Ack(msg.request())
                    &&& if h.action == "c"@ {
                        final(self).rehooked(
                            old(self),
                            client_id@,
                            without_path(
                                hooks_of(old(self).on_disconnect@, client_id@),
                                msg.target(),
                            ),
                        )
                    } else {
                        *final(self) == *old(self)
                    }
                }
            }),
    {
        let request_id = msg.request_text();
        let path_str = msg.target_text();
        let action = match &msg.action {
            Some(a) => a.as_str(),
            None => "s",
        };
        if same_text(action, "s") || same_text(action, "u") || same_text(action, "d") {
            match self.bad_hook(path_str, action, &msg.value) {
                Some(deep) => {
                    let text = if deep {
                        "write exceeds maximum path depth"
                    } else {
                        "invalid path or key"
                    };
                    return HookStep::Reply(
                        ServerMessage::nack(request_id, ErrorCode::InvalidData, text),
                    );
                },
                None => {},
            }
            return HookStep::Authorize(hook_new_data(action, &msg.value));
        }
        proof {
            reveal_strlit("c");
            reveal_strlit("s");
            reveal_strlit("u");
            reveal_strlit("d");
        }
        if same_text(action, "c") {
            self.cancel_hooks(client_id, path_str);
        }
        HookStep::Reply(ServerMessage::ack(request_id))
    }

    /// Calls off the waiting writes of a client for a path.
    fn cancel_hooks(&mut self, client_id: &str, p: &str)
        requires
            old(self).inv(),
        ensures
            final(self).inv(),
            final(self).rehooked(
                old(self),
                client_id@,
                without_path(hooks_of(old(self).on_disconnect@, client_id@), p@),
            ),
    {
        let actions = take_hooks(&mut self.on_disconnect, client_id);
        let ghost hs = hooks_view(actions@);
        let mut kept: Vec<DisconnectAction> = Vec::new();
        let mut i: usize = 0;
        assert(hs.take(0) =~= Seq::<Hook>::empty());
        assert(hooks_view(kept@) =~= Seq::<Hook>::empty());
        while i < actions.len()
            invariant
                i <= actions@.len(),
                hs == hooks_view(actions@),
                hooks_view(kept@) == without_path(hs.take(i as int), p@),
            decreases actions@.len() - i,
        {
            let a = &actions[i];
            assert(hs.take(i + 1).drop_last() =~= hs.take(i as int));
            assert(hs.take(i + 1).last() == a@);
            if !same_text(a.path.as_str(), p) {
                let ghost before = kept@;
                let copy = DisconnectAction {
                    path: a.path.clone(),
                    action: a.action.clone(),
                    value: copy_opt_value(&a.value),
                };
                kept.push(copy);
                assert(hooks_view(kept@) =~= hooks_view(before).push(a@));
            }
            i = i + 1;
        }
        assert(hs.take(i as int) =~= hs);
        replace_hooks(&mut self.on_disconnect, client_id, kept);
    }

    /// Goes on with a request about a waiting write once the security rules have
    /// spoken.
    pub fn on_disconnect_authorized(
        &mut self,
        client_id: &str,
        msg: &ClientMessage,
        allowed: bool,
    ) -> (r: ServerMessage)
        requires
            old(self).inv(),
        ensures
            final(self).inv(),
            ({
                let waiting = hooks_of(old(self).on_disconnect@, client_id@);
                if !allowed {
                    r@ == hook_refused(
                        *msg,
                        ErrorCode::PermissionDenied,
                        "write permission denied"@,
                    ) && *final(self) == *old(self)
                } else if hooks_full(waiting, wanted_hook(*msg)) {
                    r@ == no_room(*msg) && *final(self) == *old(self)
                } else {
                    r@ == Answer::Ack(msg.request()) && final(self).rehooked(
                        old(self),
                        client_id@,
                        waiting.push(wanted_hook(*msg)),
                    )
                }
            }),
    {
        let request_id = msg.request_text();
        let path_str = msg.target_text();
        let action = match &msg.action {
            Some(a) => a.as_str(),
            None => "s",
        };
        if !allowed {
            return ServerMessage::nack(
                request_id,
                ErrorCode::PermissionDenied,
                "write permission denied",
            );
        }
        let new_bytes = action_bytes(path_str, action, &msg.value);
        let (count, bytes): (usize, usize) = match find_hooks(&self.on_disconnect, client_id) {
            Some(i) => (
                self.on_disconnect[i].actions.len(),
                actions_bytes(&self.on_disconnect[i].actions),
            ),
            None => (0, 0),
        };
        if count >= MAX_ON_DISCONNECT_ACTIONS_PER_CLIENT || bytes.saturating_add(new_bytes)
            > MAX_ON_DISCONNECT_BYTES_PER_CLIENT {
            return ServerMessage::nack(
                request_id,
                ErrorCode::PayloadTooLarge,
                "onDisconnect limit reached (100 actions or 1048576 bytes per connection)",
            );
        }
        let mut actions = take_hooks(&mut self.on_disconnect, client_id);
        let ghost before = actions@;
        actions.push(
            DisconnectAction {
                path: path_str.to_owned(),
                action: action.to_owned(),
                value: copy_opt_value(&msg.value),
            },
        );
        assert(hooks_view(actions@) =~= hooks_view(before).push(wanted_hook(*msg)));
        replace_hooks(&mut self.on_disconnect, client_id, actions);
        ServerMessage::ack(request_id)
    }

    /// Starts a disconnect: the writes that the client left behind, in order.
    pub fn begin_disconnect(&mut self, client_id: &str) -> (r: Vec<Change>)
        requires
            old(self).inv(),
        ensures
            final(self).inv(),
            final(self).rehooked(old(self), client_id@, Seq::empty()),
            ({
                let waiting = hooks_of(old(self).on_disconnect@, client_id@);
                transaction::changes_view(r@) == hook_writes(waiting, waiting.len() as int)
            }),
    {
        let actions = take_hooks(&mut self.on_disconnect, client_id);
        let ghost hs = hooks_view(actions@);
        let mut out: Vec<Change> = Vec::new();
        let mut i: usize = 0;
        assert(transaction::changes_view(out@) =~= Seq::<Entry>::empty());
        while i < actions.len()
            invariant
                i <= actions@.len(),
                hs == hooks_view(actions@),
                transaction::changes_view(out@) == hook_writes(hs, i as int),
            decreases actions@.len() - i,
        {
            let a = &actions[i];
            assert(hs[i as int] == a@);
            match hook_change(a) {
                Some(c) => {
                    let ghost before = out@;
                    out.push(c);
                    assert(transaction::changes_view(out@) =~= transaction::changes_view(
                        before,
                    ).push(c@));
                },
                None => {},
            }
            i = i + 1;
        }
        out
    }

    /// Finishes a disconnect: carries out what the client left behind and forgets the
    /// client. What its connection has had carried out or refused stays known, so that
    /// a client that comes back is not served twice.
    pub fn finish_disconnect(
        &mut self,
        client_id: &str,
        changes: &Vec<Change>,
        outcomes: &Vec<AppendOutcome>,
    ) -> (r: Vec<MutationEvent>)
        requires
            old(self).inv(),
            changes@.len() == outcomes@.len(),
        ensures
            final(self).inv(),
            *final(self) == (Database {
                store: final(self).store,
                wal: final(self).wal,
                clients: final(self).clients,
                ..*old(self)
            }),
            transaction::holds_writes(
                *old(self),
                *final(self),
                transaction::changes_view(changes@),
                outcomes@,
            ),
            final(self).clients@ == old(self).clients@.remove(client_id@),
            r@.len() == changes@.len(),
            forall|i: int|
                0 <= i < changes@.len() ==> change::event_tells(#[trigger] r@[i], changes@[i])
                    && !r@[i].volatile && r@[i].writer is None,
    {
        let events = self.commit_all(None, changes, outcomes);
        self.clients.remove(client_id);
        events
    }
}

/// What the security rules are asked about a waiting write.
fn hook_new_data(action: &str, v: &Option<JsonValue>) -> (r: NewData)
    ensures
        asks_about(r, Hook { path: Seq::empty(), action: action@, value: value::opt_json(*v) }),
{
    match v {
        Some(x) => {
            if same_text(action, "s") {
                return NewData::Assign(copy_value(x));
            }
            if same_text(action, "u") {
                match x {
                    JsonValue::Object(members) => {
                        return NewData::Update(copy_members(members));
                    },
                    _ => {},
                }
            }
            NewData::Nothing
        },
        None => NewData::Nothing,
    }
}

/// The write that a waiting write comes to.
fn hook_change(a: &DisconnectAction) -> (r: Option<Change>)
    ensures
        hook_write(a@) == match r {
            Some(c) => Some(c@),
            None => None,
        },
{
    let action = a.action.as_str();
    if same_text(action, "set") || same_text(action, "s") {
        match &a.value {
            Some(v) => Some(Change::Put { path: a.path.clone(), value: copy_value(v) }),
            None => None,
        }
    } else if same_text(action, "update") || same_text(action, "u") {
        match &a.value {
            Some(JsonValue::Object(members)) => Some(
                Change::Merge { path: a.path.clone(), members: copy_members(members) },
            ),
            _ => None,
        }
    } else if same_text(action, "remove") || same_text(action, "d") {
        Some(Change::Drop { path: a.path.clone() })
    } else {
        None
    }
}

/// A client that started within the limits stays within them, whatever it asks for.
pub proof fn law_hooks_are_bounded(waiting: Seq<Hook>, h: Hook)
    requires
        waiting.len() <= MAX_ON_DISCONNECT_ACTIONS_PER_CLIENT,
        hooks_bytes(waiting) <= MAX_ON_DISCONNECT_BYTES_PER_CLIENT,
        !hooks_full(waiting, h),
    ensures
        waiting.push(h).len() <= MAX_ON_DISCONNECT_ACTIONS_PER_CLIENT,
        hooks_bytes(waiting.push(h)) <= MAX_ON_DISCONNECT_BYTES_PER_CLIENT,
{
    assert(waiting.push(h).drop_last() =~= waiting);
}

/// Calling off the writes for a path leaves none for that path and all others.
pub proof fn law_cancel_is_exact(waiting: Seq<Hook>, p: Seq<char>, h: Hook)
    ensures
        without_path(waiting, p).contains(h) <==> waiting.contains(h) && h.path != p,
    decreases waiting.len(),
{
    if waiting.len() > 0 {
        let rest = waiting.drop_last();
        let kept = without_path(rest, p);
        law_cancel_is_exact(rest, p, h);
        assert(waiting =~= rest.push(waiting.last()));
        if waiting.contains(h) {
            let i = choose|i: int| 0 <= i < waiting.len() && waiting[i] == h;
            if i < rest.len() {
                assert(rest[i] == h);
            }
        }
        if rest.contains(h) {
            let i = choose|i: int| 0 <= i < rest.len() && rest[i] == h;
            assert(waiting[i] == h);
        }
        if waiting.last() == h {
            assert(waiting[waiting.len() - 1] == h);
        }
        if waiting.last().path != p {
            let grown = kept.push(waiting.last());
            if grown.contains(h) {
                let i = choose|i: int| 0 <= i < grown.len() && grown[i] == h;
                if i < kept.len() {
                    assert(kept[i] == h);
                }
            }
            if kept.contains(h) {
                let i = choose|i: int| 0 <= i < kept.len() && kept[i] == h;
                assert(grown[i] == h);
            }
            assert(grown[kept.len() as int] == waiting.last());
        }
    }
}

/// What a waiting write does when its client is gone: it sets the value that came with it,
/// merges the object, or removes, at its path. Other actions, and a set or merge without
/// anything to write, do nothing.
pub proof fn law_waiting_writes_do_what_they_say(h: Hook)
    ensures
        h.action == "s"@ || h.action == "set"@ ==> match h.value {
            Some(v) => hook_write(h) == Some(
                Entry { op: WalOp::Assign, path: path::segments(h.path), value: Some(v) },
            ),
            None => hook_write(h) is None,
        },
        h.action == "u"@ || h.action == "update"@ ==> match h.value {
            Some(Json::Object(members)) => hook_write(h) == Some(
                Entry {
                    op: WalOp::Update,
                    path: path::segments(h.path),
                    value: Some(Json::Object(members)),
                },
            ),
            _ => hook_write(h) is None,
        },
        h.action == "d"@ || h.action == "remove"@ ==> hook_write(h) == Some(
            Entry { op: WalOp::Delete, path: path::segments(h.path), value: None },
        ),
        !(h.action == "s"@ || h.action == "set"@ || h.action == "u"@ || h.action == "update"@
            || h.action == "d"@ || h.action == "remove"@) ==> hook_write(h) is None,
{
    reveal_strlit("s");
    reveal_strlit("set");
    reveal_strlit("u");
    reveal_strlit("update");
    reveal_strlit("d");
    reveal_strlit("remove");
    assert("s"@[0] == 's' && "s"@.len() == 1 && "set"@[0] == 's');
    assert("u"@[0] == 'u' && "u"@.len() == 1 && "update"@[0] == 'u');
    assert("d"@[0] == 'd' && "d"@.len() == 1 && "remove"@[0] == 'r');
}

/// How many of the first `n` waiting writes do something.
pub open spec fn doing_something(s: Seq<Hook>, n: int) -> int
    decreases n,
{
    if n <= 0 || n > s.len() {
        0
    } else {
        doing_something(s, n - 1) + if hook_write(s[n - 1]) is Some {
            1int
        } else {
            0int
        }
    }
}

/// Every waiting write that does something is carried out, once and in the order in which
/// they were asked for.
pub proof fn law_every_waiting_write_is_carried_out(s: Seq<Hook>, n: int)
    requires
        0 <= n <= s.len(),
    ensures
        hook_writes(s, n).len() == doing_something(s, n),
        forall|i: int|
            0 <= i < n && hook_write(#[trigger] s[i]) is Some ==> 0 <= doing_something(s, i)
                < hook_writes(s, n).len() && hook_writes(s, n)[doing_something(s, i)]
                == hook_write(s[i])->0,
    decreases n,
{
    if n > 0 {
        law_every_waiting_write_is_carried_out(s, n - 1);
        let before = hook_writes(s, n - 1);
        let after = hook_writes(s, n);
        assert forall|i: int| 0 <= i < n && hook_write(#[trigger] s[i]) is Some implies 0
            <= doing_something(s, i) < after.len() && after[doing_something(s, i)] == hook_write(
            s[i],
        )->0 by {
            if i < n - 1 {
                assert(after[doing_something(s, i)] == before[doing_something(s, i)]);
            }
        }
    }
}

/// A client has room for one more waiting write exactly if it has fewer than a hundred, and
/// all of them together stay within a mebibyte. A waiting write takes the bytes of its path,
/// its action and its value.
pub proof fn law_room_for_waiting_writes(s: Seq<Hook>, h: Hook)
    ensures
        !hooks_full(s, h) <==> s.len() < 100 && hooks_bytes(s.push(h)) <= 1_048_576,
        hooks_bytes(s.push(h)) == hooks_bytes(s) + vstd::utf8::encode_utf8(h.path).len()
            + vstd::utf8::encode_utf8(h.action).len() + match h.value {
            Some(v) => value::weight(v),
            None => 0,
        },
        hooks_bytes(Seq::empty()) == 0,
{
    assert(s.push(h).drop_last() =~= s);
}

/// A waiting write has the right form exactly if its path is valid and so is what it would
/// write, and it may not lie too deep.
pub proof fn law_waiting_writes_of_the_right_form(db: Database, h: Hook)
    ensures
        hook_fits(db, h) ==> path::valid_path(h.path, db.limits.max_path_depth as nat),
        h.action == "s"@ && h.value is Some ==> {
            &&& hook_fits(db, h) <==> path::valid_path(h.path, db.limits.max_path_depth as nat)
                && value::keys_valid(h.value->0)
            &&& hook_sinks(db, h) <==> path::segments(h.path).len() + value::held(
                value::depth(h.value->0),
            ) > db.limits.max_path_depth
        },
        h.action == "d"@ ==> (hook_fits(db, h) <==> path::valid_path(
            h.path,
            db.limits.max_path_depth as nat,
        )) && !hook_sinks(db, h),
        h.action == "u"@ ==> (h.value matches Some(Json::Object(members)) ==> {
            &&& hook_fits(db, h) <==> path::valid_path(h.path, db.limits.max_path_depth as nat)
                && forall|i: int|
                0 <= i < members.len() ==> path::valid_path(
                    path::child_path(h.path, (#[trigger] members[i]).0),
                    db.limits.max_path_depth as nat,
                ) && value::keys_valid(members[i].1)
            &&& hook_sinks(db, h) <==> exists|i: int|
                0 <= i < members.len() && path::segments(
                    path::child_path(h.path, (#[trigger] members[i]).0),
                ).len() + value::held(value::depth(members[i].1)) > db.limits.max_path_depth
        }),
{
    reveal_strlit("s");
    reveal_strlit("u");
    reveal_strlit("d");
    assert("s"@[0] == 's' && "u"@[0] == 'u' && "d"@[0] == 'd');
    if h.action == "u"@ {
        if let Some(Json::Object(members)) = h.value {
            if hook_fits(db, h) {
                assert forall|i: int| 0 <= i < members.len() implies path::valid_path(
                    path::child_path(h.path, (#[trigger] members[i]).0),
                    db.limits.max_path_depth as nat,
                ) && value::keys_valid(members[i].1) by {
                    assert(writes::path_fits(db, path::child_path(h.path, members[i].0)));
                }
            }
            if hook_sinks(db, h) {
                let i = choose|i: int|
                    0 <= i < members.len() && writes::sinks(
                        db,
                        path::child_path(h.path, (#[trigger] members[i]).0),
                        members[i].1,
                    );
                assert(members[i] == members[i]);
            }
            if exists|i: int|
                0 <= i < members.len() && path::segments(
                    path::child_path(h.path, (#[trigger] members[i]).0),
                ).len() + value::held(value::depth(members[i].1)) > db.limits.max_path_depth {
                let i = choose|i: int|
                    0 <= i < members.len() && path::segments(
                        path::child_path(h.path, (#[trigger] members[i]).0),
                    ).len() + value::held(value::depth(members[i].1)) > db.limits.max_path_depth;
                assert(writes::sinks(db, path::child_path(h.path, members[i].0), members[i].1));
            }
        }
    }
}

/// The rules are asked about what would be written: the value of a set, the members of a
/// merge, and else a removal. A request that names no action asks for a set.
pub proof fn law_rules_are_asked_about_waiting_writes(d: NewData, h: Hook, msg: ClientMessage)
    requires
        asks_about(d, h),
    ensures
        h.action == "s"@ && h.value is Some ==> (d matches NewData::Assign(x) && h.value == Some(
            x@,
        )),
        h.action == "d"@ ==> d is Nothing,
        h.action == "u"@ ==> (h.value matches Some(Json::Object(members)) ==> (d
            matches NewData::Update(x) && value::members_json(x@) == members)),
        wanted_hook(msg).path == msg.target(),
        wanted_hook(msg).value == msg.data(),
        wanted_hook(msg).action == match msg.action {
            Some(a) => a@,
            None => "s"@,
        },
        is_write_action(h.action) <==> h.action == "s"@ || h.action == "u"@ || h.action == "d"@,
{
    reveal_strlit("s");
    reveal_strlit("u");
    reveal_strlit("d");
    assert("s"@[0] == 's' && "u"@[0] == 'u' && "d"@[0] == 'd');
}

/// A client's waiting writes are those that are kept under its name.
pub proof fn law_waiting_writes_are_kept_by_client(
    s: Seq<ClientHooks>,
    client: Seq<char>,
    i: int,
)
    ensures
        0 <= i < s.len() && s[i].client_id@ == client && (forall|j: int|
            0 <= j < i ==> (#[trigger] s[j]).client_id@ != client) ==> hooks_of(s, client).len()
            == s[i].actions@.len() && (forall|j: int|
            0 <= j < s[i].actions@.len() ==> #[trigger] hooks_of(s, client)[j]
                == s[i].actions@[j]@),
        (forall|j: int| 0 <= j < s.len() ==> (#[trigger] s[j]).client_id@ != client) ==> hooks_of(
            s,
            client,
        ).len() == 0,
    decreases s.len(),
{
    if s.len() > 0 {
        let rest = s.skip(1);
        law_waiting_writes_are_kept_by_client(rest, client, i - 1);
        assert(s[0] == s[0]);
        assert(forall|j: int| 0 <= j < rest.len() ==> (#[trigger] rest[j]) == s[j + 1]);
        if s[0].client_id@ != client && 0 < i < s.len() {
            assert(rest[i - 1] == s[i]);
        }
    }
}

/// Leaving or taking back waiting writes concerns one client, and nothing but what waits.
pub proof fn law_waiting_writes_of_others_stay(
    before: Database,
    after: Database,
    client: Seq<char>,
    now: Seq<Hook>,
    other: Seq<char>,
)
    requires
        after.rehooked(&before, client, now),
    ensures
        hooks_of(after.on_disconnect@, client) == now,
        other != client ==> hooks_of(after.on_disconnect@, other) == hooks_of(
            before.on_disconnect@,
            other,
        ),
        after.store == before.store,
        after.clients == before.clients,
        after.ledger == before.ledger,
        after.wal == before.wal,
{
}

/// A client without room for a waiting write is told so, by the name of its request.
pub proof fn law_refused_waiting_writes_are_answered(msg: ClientMessage)
    ensures
        no_room(msg) matches Answer::Nack(request, code, why) && request == msg.request() && code
            == ErrorCode::PayloadTooLarge && why
            == "onDisconnect limit reached (100 actions or 1048576 bytes per connection)"@,
{
}

} // verus!
