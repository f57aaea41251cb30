//! Which write requests a connection has had carried out or refused, so that a retry is
//! not carried out twice and a write that builds on a refused one is left alone.
use crate::text::same_text;
use vstd::prelude::*;

verus! {

/// How many request ids are kept per connection; older ones are forgotten.
pub const MAX_WRITES_PER_CONNECTION: usize = 500;

/// `indexmap::IndexSet`, a set that keeps the order of insertion.
#[verifier::external_type_specification]
#[verifier::external_body]
#[verifier::reject_recursive_types(T)]
#[verifier::reject_recursive_types(S)]
pub struct ExIndexSet<T, S>(indexmap::IndexSet<T, S>);

/// The texts of a set, in the order in which the set holds them.
pub uninterp spec fn kept_texts(s: indexmap::IndexSet<String>) -> Seq<Seq<char>>;

/// `indexmap::IndexSet::new`: a new set holds nothing.
#[verifier::external_body]
fn new_text_set() -> (r: indexmap::IndexSet<String>)
    ensures
        kept_texts(r) == Seq::<Seq<char>>::empty(),
{
    indexmap::IndexSet::new()
}

/// `indexmap::IndexSet::insert`: a text that is not in the set yet goes behind the
/// others; whether it was added is returned.
#[verifier::external_body]
fn add_text(s: &mut indexmap::IndexSet<String>, x: String) -> (r: bool)
    ensures
        r == !kept_texts(*old(s)).contains(x@),
        kept_texts(*final(s)) == if r {
            kept_texts(*old(s)).push(x@)
        } else {
            kept_texts(*old(s))
        },
{
    s.insert(x)
}

/// `indexmap::IndexSet::len`: the number of texts in the set.
#[verifier::external_body]
fn text_count(s: &indexmap::IndexSet<String>) -> (r: usize)
    ensures
        r == kept_texts(*s).len(),
{
    s.len()
}

/// `indexmap::IndexSet::contains`: whether the set holds a text.
#[verifier::external_body]
fn holds_text(s: &indexmap::IndexSet<String>, x: &str) -> (r: bool)
    ensures
        r == kept_texts(*s).contains(x@),
{
    s.contains(x)
}

/// `indexmap::IndexSet::shift_remove_index`: the text at an index leaves and is returned,
/// the others keep their order; where there is none, nothing happens.
#[verifier::external_body]
fn remove_text(s: &mut indexmap::IndexSet<String>, index: usize) -> (r: Option<String>)
    ensures
        match r {
            Some(x) => index < kept_texts(*old(s)).len() && x@ == kept_texts(*old(s))[index as int],
            None => index >= kept_texts(*old(s)).len(),
        },
        kept_texts(*final(s)) == if index < kept_texts(*old(s)).len() {
            kept_texts(*old(s)).remove(index as int)
        } else {
            kept_texts(*old(s))
        },
{
    s.shift_remove_index(index)
}

/// The requests kept for one connection.
pub struct ConnectionLog {
    pub connection_id: String,
    pub requests: indexmap::IndexSet<String>,
}

/// Request ids by connection.
pub struct RequestLog {
    pub connections: Vec<ConnectionLog>,
}

/// The requests that a list keeps for a connection.
pub open spec fn requests_of(s: Seq<ConnectionLog>, connection: Seq<char>) -> Seq<Seq<char>>
    decreases s.len(),
{
    if s.len() == 0 {
        Seq::empty()
    } else if s[0].connection_id@ == connection {
        kept_texts(s[0].requests)
    } else {
        requests_of(s.skip(1), connection)
    }
}

/// A list of requests after one more was noted: a request that is there changes
/// nothing, and beyond the limit only the latest stay.
pub open spec fn remember(s: Seq<Seq<char>>, x: Seq<char>) -> Seq<Seq<char>> {
    if s.contains(x) {
        s
    } else if s.len() < MAX_WRITES_PER_CONNECTION {
        s.push(x)
    } else {
        s.push(x).skip(s.len() + 1 - MAX_WRITES_PER_CONNECTION)
    }
}

/// The entry that counts for a connection holds its requests.
proof fn lemma_requests_at(s: Seq<ConnectionLog>, i: int, connection: Seq<char>)
    requires
        0 <= i < s.len(),
        s[i].connection_id@ == connection,
        forall|j: int| 0 <= j < i ==> (#[trigger] s[j]).connection_id@ != connection,
    ensures
        requests_of(s, connection) == kept_texts(s[i].requests),
    decreases i,
{
    if i > 0 {
        assert(s[0].connection_id@ != connection);
        let t = s.skip(1);
        assert forall|j: int| 0 <= j < i - 1 implies (#[trigger] t[j]).connection_id@
            != connection by {
            assert(t[j] == s[j + 1]);
        }
        lemma_requests_at(t, i - 1, connection);
    }
}

/// A connection without an entry has no requests.
proof fn lemma_requests_none(s: Seq<ConnectionLog>, connection: Seq<char>)
    requires
        forall|j: int| 0 <= j < s.len() ==> (#[trigger] s[j]).connection_id@ != connection,
    ensures
        requests_of(s, connection) == Seq::<Seq<char>>::empty(),
    decreases s.len(),
{
    if s.len() > 0 {
        assert(s[0].connection_id@ != connection);
        let t = s.skip(1);
        assert forall|j: int| 0 <= j < t.len() implies (#[trigger] t[j]).connection_id@
            != connection by {
            assert(t[j] == s[j + 1]);
        }
        lemma_requests_none(t, connection);
    }
}

/// Changing the requests of one entry leaves other connections alone.
proof fn lemma_requests_update(s: Seq<ConnectionLog>, i: int, e: ConnectionLog, other: Seq<char>)
    requires
        0 <= i < s.len(),
        e.connection_id@ == s[i].connection_id@,
        other != e.connection_id@,
    ensures
        requests_of(s.update(i, e), other) == requests_of(s, other),
    decreases s.len(),
{
    let u = s.update(i, e);
    if i > 0 {
        assert(u[0] == s[0]);
        assert(u.skip(1) =~= s.skip(1).update(i - 1, e));
        lemma_requests_update(s.skip(1), i - 1, e, other);
    } else {
        assert(u.skip(1) =~= s.skip(1));
    }
}

/// A new entry at the end leaves other connections alone.
proof fn lemma_requests_push(s: Seq<ConnectionLog>, e: ConnectionLog, other: Seq<char>)
    requires
        other != e.connection_id@,
    ensures
        requests_of(s.push(e), other) == requests_of(s, other),
    decreases s.len(),
{
    let u = s.push(e);
    if s.len() > 0 {
        assert(u[0] == s[0]);
        assert(u.skip(1) =~= s.skip(1).push(e));
        lemma_requests_push(s.skip(1), e, other);
    } else {
        assert(u[0] == e);
        assert(u.skip(1) =~= s);
    }
}

impl RequestLog {
    /// The requests kept for a connection, oldest first.
    pub open spec fn kept(&self, connection: Seq<char>) -> Seq<Seq<char>> {
        requests_of(self.connections@, connection)
    }

    /// A log without requests.
    pub fn new() -> (r: RequestLog)
        ensures
            forall|c: Seq<char>| #[trigger] r.kept(c) == Seq::<Seq<char>>::empty(),
    {
        RequestLog { connections: Vec::new() }
    }

    /// Whether a request is kept for a connection.
    pub fn contains(&self, connection: &str, request: &str) -> (r: bool)
        ensures
            r == self.kept(connection@).contains(request@),
    {
        let mut i: usize = 0;
        while i < self.connections.len()
            invariant
                i <= self.connections@.len(),
                forall|j: int|
                    0 <= j < i ==> (#[trigger] self.connections@[j]).connection_id@ != connection@,
            decreases self.connections@.len() - i,
        {
            if same_text(self.connections[i].connection_id.as_str(), connection) {
                proof {
                    lemma_requests_at(self.connections@, i as int, connection@);
                }
                return holds_text(&self.connections[i].requests, request);
            }
            i = i + 1;
        }
        proof {
            lemma_requests_none(self.connections@, connection@);
        }
        false
    }

    /// Notes a request of a connection.
    pub fn record(&mut self, connection: &str, request: &str)
        ensures
            forall|c: Seq<char>| #[trigger]
                final(self).kept(c) == if c == connection@ {
                    remember(old(self).kept(c), request@)
                } else {
                    old(self).kept(c)
                },
    {
        let ghost all = self.connections@;
        let mut i: usize = 0;
        while i < self.connections.len()
            invariant
                i <= self.connections@.len(),
                self.connections@ == all,
                all == old(self).connections@,
                forall|j: int| 0 <= j < i ==> (#[trigger] all[j]).connection_id@ != connection@,
            decreases self.connections@.len() - i,
        {
            if same_text(self.connections[i].connection_id.as_str(), connection) {
                let name = connection.to_owned();
                let mut entry = ConnectionLog { connection_id: name, requests: new_text_set() };
                std::mem::swap(&mut entry, &mut self.connections[i]);
                assert(entry == all[i as int]);
                let ConnectionLog { connection_id, requests } = entry;
                let changed = note_request(requests, request);
                self.connections.set(i, ConnectionLog { connection_id, requests: changed });
                proof {
                    let now = self.connections@;
                    let e = now[i as int];
                    assert(now =~= all.update(i as int, e));
                    lemma_requests_at(all, i as int, connection@);
                    lemma_requests_at(now, i as int, connection@);
                    assert forall|c: Seq<char>| #[trigger] self.kept(c) == if c == connection@ {
                        remember(requests_of(all, c), request@)
                    } else {
                        requests_of(all, c)
                    } by {
                        if c != connection@ {
                            lemma_requests_update(all, i as int, e, c);
                        }
                    }
                }
                return;
            }
            i = i + 1;
        }
        let name = connection.to_owned();
        let changed = note_request(new_text_set(), request);
        self.connections.push(ConnectionLog { connection_id: name, requests: changed });
        proof {
            let now = self.connections@;
            let e = now.last();
            lemma_requests_none(all, connection@);
            lemma_requests_at(now, all.len() as int, connection@);
            assert forall|c: Seq<char>| #[trigger] self.kept(c) == if c == connection@ {
                remember(requests_of(all, c), request@)
            } else {
                requests_of(all, c)
            } by {
                if c != connection@ {
                    lemma_requests_push(all, e, c);
                }
            }
        }
    }
}

/// Notes one more request and forgets the oldest beyond the limit.
fn note_request(requests: indexmap::IndexSet<String>, request: &str) -> (r: indexmap::IndexSet<
    String,
>)
    ensures
        kept_texts(r) == remember(kept_texts(requests), request@),
{
    let mut set = requests;
    let ghost before = kept_texts(set);
    let added = add_text(&mut set, request.to_owned());
    if added {
        let ghost grown = kept_texts(set);
        let ghost mut gone: int = 0;
        assert(grown.skip(0) =~= grown);
        while text_count(&set) > MAX_WRITES_PER_CONNECTION
            invariant
                kept_texts(set) == grown.skip(gone),
                0 <= gone <= grown.len(),
                gone > 0 ==> kept_texts(set).len() >= MAX_WRITES_PER_CONNECTION,
            decreases kept_texts(set).len(),
        {
            let _ = remove_text(&mut set, 0);
            proof {
                assert(grown.skip(gone).remove(0) =~= grown.skip(gone + 1));
                gone = gone + 1;
            }
        }
        assert(kept_texts(set) =~= remember(before, request@));
    }
    set
}

/// A request that was noted is found again.
pub proof fn law_noted_is_found(s: Seq<Seq<char>>, x: Seq<char>)
    ensures
        remember(s, x).contains(x),
{
    let r = remember(s, x);
    if !s.contains(x) {
        let grown = s.push(x);
        assert(grown[grown.len() - 1] == x);
        assert(r[r.len() - 1] == x);
    }
}

/// A connection never has more requests kept than the limit, however many it sends.
pub proof fn law_kept_is_bounded(s: Seq<Seq<char>>, x: Seq<char>)
    requires
        s.len() <= MAX_WRITES_PER_CONNECTION,
    ensures
        remember(s, x).len() <= MAX_WRITES_PER_CONNECTION,
{
}

/// A noted request stays found through as many further requests as the limit leaves
/// room for.
pub proof fn law_latest_are_found(s: Seq<Seq<char>>, i: int, x: Seq<char>)
    requires
        s.len() <= MAX_WRITES_PER_CONNECTION,
        0 <= i < s.len(),
        i > 0 || s.len() < MAX_WRITES_PER_CONNECTION,
    ensures
        remember(s, x).contains(s[i]),
{
    let r = remember(s, x);
    if s.contains(x) {
        assert(r[i] == s[i]);
    } else if s.len() < MAX_WRITES_PER_CONNECTION {
        assert(r[i] == s[i]);
    } else {
        assert(r[i - 1] == s.push(x)[i]);
        assert(s.push(x)[i] == s[i]);
    }
}

/// What a database knows about the requests of its connections.
pub struct WriteLedger {
    pub processed: RequestLog,
    pub nacked: RequestLog,
}

impl WriteLedger {
    /// A ledger without requests.
    pub fn new() -> (r: WriteLedger)
        ensures
            forall|c: Seq<char>| #[trigger] r.processed.kept(c) == Seq::<Seq<char>>::empty(),
            forall|c: Seq<char>| #[trigger] r.nacked.kept(c) == Seq::<Seq<char>>::empty(),
    {
        WriteLedger { processed: RequestLog::new(), nacked: RequestLog::new() }
    }
}

/// Nothing is found that was not noted: of what is kept, all was kept before or has just been
/// noted.
pub proof fn law_only_noted_is_found(s: Seq<Seq<char>>, x: Seq<char>, y: Seq<char>)
    ensures
        remember(s, x).contains(y) ==> s.contains(y) || y == x,
{
    let r = remember(s, x);
    if r.contains(y) && !s.contains(x) {
        let i = choose|i: int| 0 <= i < r.len() && r[i] == y;
        if s.len() < MAX_WRITES_PER_CONNECTION {
            if i < s.len() {
                assert(s[i] == y);
            }
        } else {
            let d = s.len() + 1 - MAX_WRITES_PER_CONNECTION;
            assert(r[i] == s.push(x)[i + d]);
            if i + d < s.len() {
                assert(s[i + d] == y);
            }
        }
    }
}

/// What has been noted is kept until five hundred others have been noted after it, and the
/// order of what is kept is that in which it came.
pub proof fn law_kept_in_order(s: Seq<Seq<char>>, x: Seq<char>)
    requires
        s.len() <= 500,
        !s.contains(x),
    ensures
        remember(s, x).last() == x,
        s.len() < 500 ==> remember(s, x) == s.push(x),
        s.len() == 500 ==> remember(s, x) == s.skip(1).push(x),
{
    if s.len() == 500 {
        assert(s.push(x).skip(1) =~= s.skip(1).push(x));
    }
}

} // verus!
