//! Reading: single reads, one-level reads, and subscriptions with their first snapshot.
use crate::database::Database;
use crate::listing;
use crate::listing::{child_sizes, size_of, SizeNote};
use crate::node;
use crate::node::{find_child, Child, Node};
use crate::path;
use crate::path::{validate_path, Path};
use crate::promotion;
use crate::promotion::{ShallowChild, ShallowRead};
use crate::protocol::{Answer, ClientMessage, ErrorCode, ServerMessage};
use crate::replay;
use crate::server_value;
use crate::server_value::number_from;
use crate::shape;
use crate::shape::Shape;
use crate::size;
use crate::size::estimate_node_bytes;
use crate::text;
use crate::text::{concat, decimal_text, list_once};
use crate::value;
use crate::writes;
use vstd::prelude::*;

verus! {

broadcast use vstd::string::group_string_axioms;

/// What a read asks for next.
pub enum ReadStep {
    /// Nothing: this is the answer.
    Reply(ServerMessage),
    /// Whether the client may read the path.
    Authorize,
    /// A one-level read of the path from the blob.
    ReadShallow,
    /// The size of the subtree in the blob.
    Measure,
    /// The whole subtree to be loaded.
    Load,
    /// The query, if there is one, to be applied to the loaded data.
    Answer,
    /// The subscription to be entered.
    Subscribe,
}

/// What came of the query of a read.
pub enum QueryOutcome {
    /// There is none.
    NoQuery,
    /// It asks for more than is allowed.
    LimitTooLarge(u64),
    /// It picks these children, in this order.
    Keys(Vec<String>),
}

/// What came of entering a subscription.
#[derive(Clone, Copy, PartialEq, Eq, Structural)]
pub enum SubscribeOutcome {
    Entered,
    /// Its query asks for more than is allowed.
    LimitTooLarge(u64),
    /// The client has as many subscriptions as are allowed.
    TooMany(u64),
}

/// Where the first snapshot of a subscription comes from.
pub enum SnapshotSource {
    /// All data at the path.
    Whole,
    /// The children that a view with the same query already keeps.
    Shared(Vec<String>),
    /// The children that the query picks.
    Query(Vec<String>),
    /// The query is not valid, for this reason.
    Invalid(String),
}

/// What to do with a subscription that was entered.
pub enum SnapshotStep {
    /// Send the event, then acknowledge. A new view starts with the picked children.
    Send { event: ServerMessage, ack: ServerMessage, start_view: bool },
    /// Take the subscription back and turn the request down.
    Undo(ServerMessage),
}

/// The answer to a read that is turned down.
pub open spec fn turned_down(msg: ClientMessage, code: ErrorCode, message: Seq<char>) -> Answer {
    Answer::Nack(msg.request(), code, message)
}

/// Whether a step is a given answer.
pub open spec fn answers(step: ReadStep, a: Answer) -> bool {
    step matches ReadStep::Reply(m) && m@ == a
}

/// The mark that stands for a container of some size.
pub open spec fn size_mark(n: nat) -> Shape {
    Shape::Object(
        Map::empty().insert(
            ".sz"@,
            Shape::Number(
                server_value::whole_number(
                    if n <= i64::MAX {
                        n as i64
                    } else {
                        i64::MAX
                    },
                ),
            ),
        ),
    )
}

/// How a one-level read shows a child: leaves as they are, containers as a mark with
/// their size, which is zero where it is not known.
pub open spec fn shallow_child(c: Shape, k: Seq<char>, sizes: Seq<(Seq<char>, nat)>) -> Shape {
    match c {
        Shape::Object(_) => size_mark(value::held(size::shape_size(c)) as nat),
        Shape::Array(_) => size_mark(value::held(size::shape_size(c)) as nat),
        Shape::Sentinel(_) => size_mark(listing::noted_size(sizes, k)),
        leaf => leaf,
    }
}

/// How a one-level read shows a node.
pub open spec fn shallow_view(n: Shape, sizes: Seq<(Seq<char>, nat)>) -> Shape {
    match n {
        Shape::Object(m) => shallow_children(m, sizes),
        Shape::Sentinel(m) => shallow_children(m, sizes),
        Shape::Array(_) => Shape::Null,
        leaf => leaf,
    }
}

/// How a one-level read shows children; no children read as null.
pub open spec fn shallow_children(
    m: Map<Seq<char>, Shape>,
    sizes: Seq<(Seq<char>, nat)>,
) -> Shape {
    if m.dom() == Set::<Seq<char>>::empty() {
        Shape::Null
    } else {
        Shape::Object(shallow_map(m, sizes))
    }
}

/// The children of a one-level read.
pub open spec fn shallow_map(
    m: Map<Seq<char>, Shape>,
    sizes: Seq<(Seq<char>, nat)>,
) -> Map<Seq<char>, Shape> {
    Map::new(|k: Seq<char>| m.contains_key(k), |k: Seq<char>| shallow_child(m[k], k, sizes))
}

/// The listed children of a one-level read of the blob.
pub open spec fn listed_of(r: ShallowRead) -> Seq<ShallowChild> {
    match r {
        ShallowRead::Children(c) => c@,
        _ => Seq::empty(),
    }
}

/// The children of a node that a query picks; a node without children is shown as it
/// is.
pub open spec fn query_result(n: Option<Shape>, keys: Seq<Seq<char>>) -> Shape {
    match n {
        None => Shape::Null,
        Some(x) => if shape::kids(x).dom() == Set::<Seq<char>>::empty() {
            x
        } else if keys.len() == 0 {
            Shape::Null
        } else {
            Shape::Object(picked_kids(shape::kids(x), keys))
        },
    }
}

/// The children with given keys.
pub open spec fn picked_kids(
    m: Map<Seq<char>, Shape>,
    keys: Seq<Seq<char>>,
) -> Map<Seq<char>, Shape> {
    Map::new(|k: Seq<char>| m.contains_key(k) && keys.contains(k), |k: Seq<char>| m[k])
}

/// The children of a node that a shared view keeps; none read as null.
pub open spec fn shared_result(n: Option<Shape>, keys: Seq<Seq<char>>) -> Shape {
    match n {
        None => Shape::Null,
        Some(x) => if picked_kids(shape::kids(x), keys).dom() == Set::<Seq<char>>::empty() {
            Shape::Null
        } else {
            Shape::Object(picked_kids(shape::kids(x), keys))
        },
    }
}

/// What a read with this outcome of its query shows.
pub open spec fn read_result(t: Shape, p: Seq<Seq<char>>, q: QueryOutcome) -> Shape {
    match q {
        QueryOutcome::Keys(keys) => query_result(shape::at(t, p), text::texts(keys@)),
        _ => shape::at_or_null(t, p),
    }
}

/// The text about a query that asks for too much.
pub open spec fn limit_text(n: u64) -> Seq<char> {
    "Query limit "@ + text::decimal(n as nat) + " exceeds maximum allowed (10000)"@
}

/// The text about an answer that is too large.
pub open spec fn oversize_text(what: Seq<char>, size: usize, limit: usize) -> Seq<char> {
    what + text::decimal(size as nat) + " exceeds maximum allowed ("@ + text::decimal(limit as nat)
        + " bytes)"@
}

/// The text about a query that asks for too much.
fn limit_message(n: u64) -> (r: String)
    ensures
        r@ == limit_text(n),
{
    let mut out = concat("Query limit ", decimal_text(n).as_str());
    out.append(" exceeds maximum allowed (10000)");
    out
}

/// The text about an answer that is too large.
fn oversize_message(what: &str, size: usize, limit: usize) -> (r: String)
    ensures
        r@ == oversize_text(what@, size, limit),
{
    let mut out = concat(what, decimal_text(size as u64).as_str());
    out.append(" exceeds maximum allowed (");
    out.append(decimal_text(limit as u64).as_str());
    out.append(" bytes)");
    out
}

/// Whether a subtree in the blob is too large to be answered with. The text of the data
/// is larger than what the blob holds, so half as much again as the limit is surely too
/// much.
pub fn subtree_exceeds_limit(subtree_size: u64, max_response_size: usize) -> (r: bool)
    ensures
        r == (subtree_size > (max_response_size * 3) / 2),
{
    let limit: u128 = max_response_size as u128 * 3 / 2;
    subtree_size as u128 > limit
}

/// The mark that stands for a container of some size.
fn size_marker(n: u64) -> (r: Node)
    ensures
        r@ == size_mark(n as nat),
{
    let size: i64 = if n <= i64::MAX as u64 {
        n as i64
    } else {
        i64::MAX
    };
    let number = number_from(size);
    let mut children: Vec<Child> = Vec::new();
    children.push(Child { key: ".sz".to_owned(), node: Node::Number(number) });
    proof {
        let none = Seq::<Child>::empty();
        assert(children@.drop_last() =~= none);
        assert(node::children_map(none) =~= Map::empty());
        assert(children@.last().node.shape() == Shape::Number(number));
        assert(node::children_map(children@) =~= Map::empty().insert(
            ".sz"@,
            Shape::Number(number),
        ));
    }
    Node::Object(children)
}

/// How a one-level read shows a child.
fn shown_child(c: &Node, k: &str, sizes: &Vec<SizeNote>) -> (r: Node)
    ensures
        r@ == shallow_child(c@, k@, listing::notes(sizes@)),
{
    match c {
        Node::Object(_) => size_marker(estimate_node_bytes(c) as u64),
        Node::Array(_) => size_marker(estimate_node_bytes(c) as u64),
        Node::Sentinel(_) => size_marker(size_of(sizes, k)),
        leaf => leaf.copy(),
    }
}

/// How a one-level read shows children.
fn shown_children(children: &Vec<Child>, sizes: &Vec<SizeNote>) -> (r: Node)
    ensures
        r@ == shallow_children(node::children_map(children@), listing::notes(sizes@)),
{
    let ghost s = children@;
    let ghost m = node::children_map(s);
    let mut out: Vec<Child> = Vec::new();
    let mut i: usize = 0;
    proof {
        assert forall|k: Seq<char>| !size::keys_up_to(s, 0).contains(k) by {
            if size::keys_up_to(s, 0).contains(k) {
                let j = choose|j: int| j < 0 && #[trigger] node::last_for_key(s, k, j);
            }
        }
        assert(size::keys_up_to(s, 0) =~= Set::empty());
    }
    while i < children.len()
        invariant
            i <= children@.len(),
            s == children@,
            m == node::children_map(s),
            node::children_map(out@).dom() == size::keys_up_to(s, i as int),
            forall|k: Seq<char>|
                size::keys_up_to(s, i as int).contains(k) ==> m.contains_key(k)
                    && #[trigger] node::children_map(out@)[k] == shallow_child(
                    m[k],
                    k,
                    listing::notes(sizes@),
                ),
            i == 0 ==> out@.len() == 0,
            out@.len() == 0 <==> size::keys_up_to(s, i as int) == Set::<Seq<char>>::empty(),
        decreases children@.len() - i,
    {
        let ghost k = s[i as int].key@;
        proof {
            size::lemma_keys_step(s, i as int);
        }
        let counts = match find_child(children, children[i].key.as_str()) {
            Some(j) => j == i,
            None => false,
        };
        if counts {
            proof {
                node::lemma_last_for_key(s, k, i as int);
            }
            let ghost before = out@;
            let c = &children[i];
            let shown = shown_child(&c.node, c.key.as_str(), sizes);
            out.push(Child { key: c.key.clone(), node: shown });
            proof {
                assert(out@.drop_last() =~= before);
                assert(node::children_map(out@) == node::children_map(before).insert(k, shown@));
                assert(node::children_map(out@).dom() =~= size::keys_up_to(s, i + 1));
                assert(size::keys_up_to(s, i + 1).contains(k));
            }
        } else {
            proof {
                if node::last_for_key(s, k, i as int) {
                    node::lemma_last_for_key(s, k, i as int);
                    let j = choose|j: int| node::last_for_key(s, k, j) && j != i;
                    assert(s[i as int].key@ == k && s[j].key@ == k);
                }
            }
        }
        i = i + 1;
    }
    proof {
        size::lemma_keys_all(s);
        assert(m.dom() == size::keys_up_to(s, i as int));
    }
    if out.len() == 0 {
        Node::Null
    } else {
        assert(node::children_map(out@) =~= shallow_map(m, listing::notes(sizes@)));
        Node::Object(out)
    }
}

/// How a one-level read shows a node.
pub fn shallow_node(n: &Node, sizes: &Vec<SizeNote>) -> (r: Node)
    ensures
        r@ == shallow_view(n@, listing::notes(sizes@)),
{
    match n {
        Node::Object(children) => shown_children(children, sizes),
        Node::Sentinel(children) => shown_children(children, sizes),
        Node::Array(_) => Node::Null,
        leaf => leaf.copy(),
    }
}

/// The children with given keys.
fn pick_children(children: &Vec<Child>, keys: &Vec<String>) -> (r: Vec<Child>)
    ensures
        node::children_map(r@) == picked_kids(
            node::children_map(children@),
            text::texts(keys@),
        ),
        r@.len() == 0 <==> picked_kids(
            node::children_map(children@),
            text::texts(keys@),
        ).dom() == Set::<Seq<char>>::empty(),
{
    let ghost m = node::children_map(children@);
    let ghost ks = text::texts(keys@);
    let mut out: Vec<Child> = Vec::new();
    let mut i: usize = 0;
    assert(picked_kids(m, ks.take(0)) =~= Map::empty());
    while i < keys.len()
        invariant
            i <= keys@.len(),
            m == node::children_map(children@),
            ks == text::texts(keys@),
            node::children_map(out@) == picked_kids(m, ks.take(i as int)),
            out@.len() == 0 ==> node::children_map(out@) == Map::<Seq<char>, Shape>::empty(),
            out@.len() > 0 ==> exists|k: Seq<char>| #[trigger]
                node::children_map(out@).contains_key(k),
        decreases keys@.len() - i,
    {
        let ghost k = keys@[i as int]@;
        assert(ks[i as int] == k);
        assert(ks.take(i + 1) =~= ks.take(i as int).push(k));
        match find_child(children, keys[i].as_str()) {
            Some(j) => {
                let ghost before = out@;
                let copy = children[j].node.copy();
                out.push(Child { key: keys[i].clone(), node: copy });
                proof {
                    assert(out@.drop_last() =~= before);
                    assert(m[k] == copy@);
                    assert forall|x: Seq<char>| picked_kids(m, ks.take(i + 1)).contains_key(x)
                        == picked_kids(m, ks.take(i as int)).insert(k, copy@).contains_key(x) by {
                        lemma_push_contains(ks.take(i as int), k, x);
                    }
                    assert(node::children_map(out@) =~= picked_kids(m, ks.take(i + 1)));
                    assert(node::children_map(out@).contains_key(k));
                }
            },
            None => {
                proof {
                    assert forall|x: Seq<char>| picked_kids(m, ks.take(i + 1)).contains_key(x)
                        == picked_kids(m, ks.take(i as int)).contains_key(x) by {
                        lemma_push_contains(ks.take(i as int), k, x);
                    }
                    assert(picked_kids(m, ks.take(i + 1)) =~= picked_kids(m, ks.take(i as int)));
                }
            },
        }
        i = i + 1;
    }
    assert(ks.take(i as int) =~= ks);
    proof {
        let d = picked_kids(m, ks).dom();
        if out@.len() == 0 {
            assert(d =~= Set::<Seq<char>>::empty());
        } else {
            let k = choose|k: Seq<char>| #[trigger] node::children_map(out@).contains_key(k);
            assert(d.contains(k));
        }
    }
    out
}

/// What a longer list holds.
proof fn lemma_push_contains(s: Seq<Seq<char>>, k: Seq<char>, x: Seq<char>)
    ensures
        s.push(k).contains(x) <==> s.contains(x) || x == k,
{
    if s.contains(x) {
        let i = choose|i: int| 0 <= i < s.len() && s[i] == x;
        assert(s.push(k)[i] == x);
    }
    if x == k {
        assert(s.push(k)[s.len() as int] == x);
    }
    if s.push(k).contains(x) {
        let i = choose|i: int| 0 <= i < s.push(k).len() && s.push(k)[i] == x;
        if i < s.len() {
            assert(s[i] == x);
        }
    }
}

/// The children of a node; a node that is no container has none.
fn children_of(n: &Node) -> (r: Option<&Vec<Child>>)
    ensures
        match r {
            Some(c) => node::children_map(c@) == shape::kids(n@),
            None => shape::kids(n@) == Map::<Seq<char>, Shape>::empty(),
        },
{
    match n {
        Node::Object(c) => Some(c),
        Node::Sentinel(c) => Some(c),
        _ => {
            assert(shape::kids(n@) =~= Map::empty());
            None
        },
    }
}

impl Database {
    /// The children that a query picks of the node at a path; the keys come from
    /// applying the query to `query_keys`.
    pub fn get_query_result_with_keys(&self, path: &Path, keys: &Vec<String>) -> (r: Node)
        ensures
            r@ == query_result(shape::at(self.store.tree@, path@), text::texts(keys@)),
    {
        let n = match self.store.tree.get(path) {
            Some(n) => n,
            None => {
                return Node::Null;
            },
        };
        match children_of(n) {
            None => {
                assert(shape::kids(n@).dom() =~= Set::<Seq<char>>::empty());
                n.copy()
            },
            Some(children) => {
                if children.len() == 0 {
                    assert(shape::kids(n@).dom() =~= Set::<Seq<char>>::empty());
                    return n.copy();
                }
                proof {
                    let s = children@;
                    assert(node::children_map(s).contains_key(s.last().key@));
                    assert(shape::kids(n@).dom().contains(s.last().key@));
                }
                if keys.len() == 0 {
                    return Node::Null;
                }
                Node::Object(pick_children(children, keys))
            },
        }
    }

    /// The keys of the children that a query can pick from, each once.
    pub fn query_keys(&self, path: &Path) -> (r: Vec<String>)
        ensures
            text::texts(r@).no_duplicates(),
            forall|k: Seq<char>| #[trigger]
                text::texts(r@).contains(k) <==> shape::at(self.store.tree@, path@) is Some
                    && shape::kids(shape::at(self.store.tree@, path@)->0).contains_key(k),
    {
        let mut out: Vec<String> = Vec::new();
        let n = match self.store.tree.get(path) {
            Some(n) => n,
            None => {
                return out;
            },
        };
        let children = match children_of(n) {
            Some(c) => c,
            None => {
                return out;
            },
        };
        let ghost s = children@;
        let mut i: usize = 0;
        while i < children.len()
            invariant
                i <= children@.len(),
                s == children@,
                text::texts(out@).no_duplicates(),
                forall|k: Seq<char>| #[trigger]
                    text::texts(out@).contains(k) <==> exists|j: int|
                        0 <= j < i && (#[trigger] s[j]).key@ == k,
            decreases children@.len() - i,
        {
            let ghost before = text::texts(out@);
            let key = children[i].key.clone();
            list_once(&mut out, key);
            proof {
                assert forall|k: Seq<char>| #[trigger]
                    text::texts(out@).contains(k) <==> exists|j: int|
                        0 <= j < i + 1 && (#[trigger] s[j]).key@ == k by {
                    if before.contains(k) {
                        let j = choose|j: int| 0 <= j < i && (#[trigger] s[j]).key@ == k;
                        assert(s[j].key@ == k);
                    }
                    if k == key@ {
                        assert(s[i as int].key@ == k);
                    }
                }
            }
            i = i + 1;
        }
        proof {
            assert forall|k: Seq<char>| #[trigger]
                text::texts(out@).contains(k) <==> node::children_map(s).contains_key(k) by {
                if node::children_map(s).contains_key(k) {
                    node::lemma_key_present(s, k);
                    let j = choose|j: int| #[trigger] node::last_for_key(s, k, j);
                    assert(s[j].key@ == k);
                }
                if !node::children_map(s).contains_key(k) {
                    if text::texts(out@).contains(k) {
                        let j = choose|j: int| 0 <= j < s.len() && (#[trigger] s[j]).key@ == k;
                        lemma_key_listed(s, j);
                    }
                }
            }
        }
        out
    }

    /// The children that a view with the same query already keeps.
    pub fn get_result_from_cached_keys(&self, path: &Path, keys: &Vec<String>) -> (r: Node)
        ensures
            r@ == shared_result(shape::at(self.store.tree@, path@), text::texts(keys@)),
    {
        let n = match self.store.tree.get(path) {
            Some(n) => n,
            None => {
                return Node::Null;
            },
        };
        match children_of(n) {
            None => {
                assert(picked_kids(shape::kids(n@), text::texts(keys@)).dom() =~= Set::<
                    Seq<char>,
                >::empty());
                Node::Null
            },
            Some(children) => {
                let out = pick_children(children, keys);
                if out.len() == 0 {
                    Node::Null
                } else {
                    Node::Object(out)
                }
            },
        }
    }

    /// Starts a read: a malformed path is turned down.
    pub fn begin_read(&self, msg: &ClientMessage) -> (r: ReadStep)
        ensures
            if writes::path_fits(*self, msg.target()) {
                r is Authorize
            } else {
                answers(r, turned_down(*msg, ErrorCode::InvalidData, "invalid path"@))
            },
    {
        let path_check = validate_path(msg.target_text(), self.limits.max_path_depth);
        if path_check.is_err() {
            return ReadStep::Reply(
                ServerMessage::nack(msg.request_text(), ErrorCode::InvalidData, "invalid path"),
            );
        }
        ReadStep::Authorize
    }

    /// Where a read goes that needs all data at its path.
    fn seek_data(&self, msg: &ClientMessage) -> (r: ReadStep)
        requires
            self.inv(),
        ensures
            r == if promotion::has_holes(self.store, path::segments(msg.target())) {
                ReadStep::Measure
            } else {
                ReadStep::Load
            },
    {
        if self.store.has_sentinel_at_or_below(msg.target_text()) {
            ReadStep::Measure
        } else {
            ReadStep::Load
        }
    }

    /// Goes on with a single read once the security rules have spoken.
    pub fn once_authorized(&self, msg: &ClientMessage, allowed: bool) -> (r: ReadStep)
        requires
            self.inv(),
        ensures
            if !allowed {
                answers(
                    r,
                    turned_down(*msg, ErrorCode::PermissionDenied, "Permission denied"@),
                )
            } else if msg.shallow == Some(true) {
                let p = path::segments(msg.target());
                match shape::at(self.store.tree@, p) {
                    Some(n) if !(n is Sentinel) => answers(
                        r,
                        Answer::OnceResponse(msg.request(), shallow_view(n, Seq::empty())),
                    ),
                    _ => if self.store.blob_backed {
                        r is ReadShallow
                    } else {
                        answers(r, Answer::OnceResponse(msg.request(), Shape::Null))
                    },
                }
            } else {
                r == if promotion::has_holes(self.store, path::segments(msg.target())) {
                    ReadStep::Measure
                } else {
                    ReadStep::Load
                }
            },
    {
        if !allowed {
            return self.read_denied(msg);
        }
        let shallow = match msg.shallow {
            Some(b) => b,
            None => false,
        };
        if shallow {
            return self.begin_shallow(msg);
        }
        self.seek_data(msg)
    }

    /// The answer to a read that the security rules refuse.
    fn read_denied(&self, msg: &ClientMessage) -> (r: ReadStep)
        ensures
            answers(r, turned_down(*msg, ErrorCode::PermissionDenied, "Permission denied"@)),
    {
        ReadStep::Reply(
            ServerMessage::nack(
                msg.request_text(),
                ErrorCode::PermissionDenied,
                "Permission denied",
            ),
        )
    }

    /// Starts a one-level read: data that is in the tree is shown from there.
    fn begin_shallow(&self, msg: &ClientMessage) -> (r: ReadStep)
        ensures
            ({
                let p = path::segments(msg.target());
                match shape::at(self.store.tree@, p) {
                    Some(n) if !(n is Sentinel) => answers(
                        r,
                        Answer::OnceResponse(msg.request(), shallow_view(n, Seq::empty())),
                    ),
                    _ => if self.store.blob_backed {
                        r is ReadShallow
                    } else {
                        answers(r, Answer::OnceResponse(msg.request(), Shape::Null))
                    },
                }
            }),
    {
        let p = Path::parse(msg.target_text());
        match self.store.tree.get(&p) {
            Some(n) => {
                if !n.is_sentinel() {
                    let none: Vec<SizeNote> = Vec::new();
                    let shown = shallow_node(n, &none);
                    assert(listing::notes(none@) =~= Seq::empty());
                    return ReadStep::Reply(ServerMessage::once_response(msg.request_text(), shown));
                }
            },
            None => {},
        }
        if self.store.blob_backed {
            return ReadStep::ReadShallow;
        }
        ReadStep::Reply(ServerMessage::once_response(msg.request_text(), Node::Null))
    }

    /// Answers a one-level read from what the blob holds with the pending log on top.
    pub fn answer_shallow(&self, msg: &ClientMessage, read: ShallowRead) -> (r: ServerMessage)
        requires
            self.inv(),
        ensures
            r@ == match read {
                ShallowRead::Failed(e) => turned_down(
                    *msg,
                    ErrorCode::Unavailable,
                    "Failed to read shallow data: "@ + e@,
                ),
                _ => Answer::OnceResponse(
                    msg.request(),
                    shallow_view(
                        replay::shallow_promoted(
                            promotion::listing(read),
                            self.store.log(),
                            path::segments(msg.target()),
                        ),
                        listing::after_log(
                            listing::listed_sizes(listed_of(read)),
                            self.store.log(),
                            path::segments(msg.target()),
                        ),
                    ),
                ),
            },
    {
        let request_id = msg.request_text();
        let path_str = msg.target_text();
        let mut listed: Vec<ShallowChild> = Vec::new();
        let base = match read {
            ShallowRead::Failed(e) => {
                let text = concat("Failed to read shallow data: ", e.as_str());
                return ServerMessage::nack(request_id, ErrorCode::Unavailable, text.as_str());
            },
            ShallowRead::Primitive(n) => n,
            ShallowRead::NotFound => Node::Null,
            ShallowRead::Children(c) => {
                listed = c;
                promotion::listed_node(&listed)
            },
        };
        assert(listed@ =~= listed_of(read));
        let merged = self.store.replayed_at(path_str, base, true);
        let p = Path::parse(path_str);
        let sizes = child_sizes(&listed, &self.store.pending_wal_entries, &p);
        ServerMessage::once_response(request_id, shallow_node(&merged, &sizes))
    }

    /// Goes on with a subscription once the security rules have spoken.
    pub fn subscribe_authorized(&self, msg: &ClientMessage, allowed: bool) -> (r: ReadStep)
        requires
            self.inv(),
        ensures
            if !allowed {
                answers(
                    r,
                    turned_down(*msg, ErrorCode::PermissionDenied, "Permission denied"@),
                )
            } else {
                r == if promotion::has_holes(self.store, path::segments(msg.target())) {
                    ReadStep::Measure
                } else {
                    ReadStep::Load
                }
            },
    {
        if !allowed {
            return self.read_denied(msg);
        }
        self.seek_data(msg)
    }

    /// Goes on with a read once the size of the subtree in the blob is known, if it has
    /// one.
    pub fn read_measured(&self, msg: &ClientMessage, subtree_size: Option<u64>) -> (r: ReadStep)
        ensures
            if self.store.blob_backed && subtree_size is Some && subtree_size->0 > (
            self.limits.max_response_size * 3) / 2 {
                answers(
                    r,
                    turned_down(*msg, ErrorCode::ResponseTooLarge, "Subtree too large to read"@),
                )
            } else {
                r is Load
            },
    {
        let exceeds = match subtree_size {
            Some(n) => self.store.blob_backed && subtree_exceeds_limit(
                n,
                self.limits.max_response_size,
            ),
            None => false,
        };
        if exceeds {
            return ReadStep::Reply(
                ServerMessage::nack(
                    msg.request_text(),
                    ErrorCode::ResponseTooLarge,
                    "Subtree too large to read",
                ),
            );
        }
        ReadStep::Load
    }

    /// Goes on with a single read once its data is loaded, or could not be.
    pub fn once_loaded(&self, msg: &ClientMessage, failure: Option<&str>) -> (r: ReadStep)
        ensures
            match failure {
                Some(e) => answers(
                    r,
                    turned_down(
                        *msg,
                        ErrorCode::Unavailable,
                        "Failed to load data for read: "@ + e@,
                    ),
                ),
                None => r is Answer,
            },
    {
        match failure {
            Some(e) => {
                let text = concat("Failed to load data for read: ", e);
                ReadStep::Reply(
                    ServerMessage::nack(msg.request_text(), ErrorCode::Unavailable, text.as_str()),
                )
            },
            None => ReadStep::Answer,
        }
    }

    /// Answers a single read of loaded data.
    pub fn answer_once(&self, msg: &ClientMessage, query: QueryOutcome) -> (r: ServerMessage)
        ensures
            r@ == match query {
                QueryOutcome::LimitTooLarge(n) => turned_down(
                    *msg,
                    ErrorCode::InvalidData,
                    limit_text(n),
                ),
                _ => {
                    let shown = read_result(
                        self.store.tree@,
                        path::segments(msg.target()),
                        query,
                    );
                    let size = value::held(size::shape_size(shown));
                    if size > self.limits.max_response_size {
                        turned_down(
                            *msg,
                            ErrorCode::ResponseTooLarge,
                            oversize_text(
                                "Response size "@,
                                size,
                                self.limits.max_response_size,
                            ),
                        )
                    } else {
                        Answer::OnceResponse(msg.request(), shown)
                    }
                },
            },
    {
        let request_id = msg.request_text();
        let p = Path::parse(msg.target_text());
        let shown = match query {
            QueryOutcome::LimitTooLarge(n) => {
                let text = limit_message(n);
                return ServerMessage::nack(request_id, ErrorCode::InvalidData, text.as_str());
            },
            QueryOutcome::Keys(keys) => self.get_query_result_with_keys(&p, &keys),
            QueryOutcome::NoQuery => self.store.tree.get_or_null(&p),
        };
        let size = estimate_node_bytes(&shown);
        if size > self.limits.max_response_size {
            let text = oversize_message("Response size ", size, self.limits.max_response_size);
            return ServerMessage::nack(request_id, ErrorCode::ResponseTooLarge, text.as_str());
        }
        ServerMessage::once_response(request_id, shown)
    }

    /// Goes on with a subscription once its data is loaded, or could not be.
    pub fn subscribe_loaded(&self, client_id: &str, msg: &ClientMessage, failure: Option<&str>) -> (r:
        ReadStep)
        requires
            self.clients.inv(),
        ensures
            match failure {
                Some(e) => answers(
                    r,
                    turned_down(
                        *msg,
                        ErrorCode::Unavailable,
                        "Failed to load data for subscription: "@ + e@,
                    ),
                ),
                None => if self.clients@.contains_key(client_id@) {
                    r is Subscribe
                } else {
                    answers(r, turned_down(*msg, ErrorCode::Internal, "Client not found"@))
                },
            },
    {
        match failure {
            Some(e) => {
                let text = concat("Failed to load data for subscription: ", e);
                return ReadStep::Reply(
                    ServerMessage::nack(msg.request_text(), ErrorCode::Unavailable, text.as_str()),
                );
            },
            None => {},
        }
        match self.clients.get(client_id) {
            Some(_) => ReadStep::Subscribe,
            None => ReadStep::Reply(
                ServerMessage::nack(msg.request_text(), ErrorCode::Internal, "Client not found"),
            ),
        }
    }

    /// Goes on with a subscription once it was entered, or could not be.
    pub fn subscribe_entered(&self, msg: &ClientMessage, outcome: SubscribeOutcome) -> (r: ReadStep)
        ensures
            match outcome {
                SubscribeOutcome::Entered => r is Answer,
                SubscribeOutcome::LimitTooLarge(n) => answers(
                    r,
                    turned_down(*msg, ErrorCode::InvalidData, limit_text(n)),
                ),
                SubscribeOutcome::TooMany(n) => answers(
                    r,
                    turned_down(
                        *msg,
                        ErrorCode::TooManySubscriptions,
                        "subscription limit reached ("@ + text::decimal(n as nat)
                            + " per connection)"@,
                    ),
                ),
            },
    {
        match outcome {
            SubscribeOutcome::Entered => ReadStep::Answer,
            SubscribeOutcome::LimitTooLarge(n) => {
                let text = limit_message(n);
                ReadStep::Reply(
                    ServerMessage::nack(msg.request_text(), ErrorCode::InvalidData, text.as_str()),
                )
            },
            SubscribeOutcome::TooMany(n) => {
                let mut text = concat("subscription limit reached (", decimal_text(n).as_str());
                text.append(" per connection)");
                ReadStep::Reply(
                    ServerMessage::nack(
                        msg.request_text(),
                        ErrorCode::TooManySubscriptions,
                        text.as_str(),
                    ),
                )
            },
        }
    }

    /// The first snapshot of a subscription that was entered. One that is too large, or
    /// whose query is not valid, is taken back.
    pub fn first_snapshot(&self, msg: &ClientMessage, source: SnapshotSource, tag: Option<i64>) -> (r:
        SnapshotStep)
        ensures
            ({
                let at = shape::at(self.store.tree@, path::segments(msg.target()));
                let shown = snapshot_data(at, source);
                let size = value::held(size::shape_size(shown));
                match source {
                    SnapshotSource::Invalid(e) => r matches SnapshotStep::Undo(m) && m@
                        == turned_down(
                        *msg,
                        ErrorCode::InvalidData,
                        "Invalid query: "@ + e@,
                    ),
                    _ => if size > self.limits.max_response_size {
                        r matches SnapshotStep::Undo(m) && m@ == turned_down(
                            *msg,
                            ErrorCode::ResponseTooLarge,
                            oversize_text(
                                "Initial snapshot size "@,
                                size,
                                self.limits.max_response_size,
                            ),
                        )
                    } else {
                        r matches SnapshotStep::Send { event, ack, start_view } && {
                            &&& event@ == Answer::PutEvent(
                                msg.target(),
                                "/"@,
                                shown,
                                if source is Whole {
                                    None
                                } else {
                                    tag
                                },
                            )
                            &&& ack@ == Answer::Ack(msg.request())
                            &&& start_view == (source is Query)
                        }
                    },
                }
            }),
    {
        let request_id = msg.request_text();
        let path_str = msg.target_text();
        let p = Path::parse(path_str);
        let (shown, used_tag, start_view): (Node, Option<i64>, bool) = match source {
            SnapshotSource::Invalid(e) => {
                let text = concat("Invalid query: ", e.as_str());
                return SnapshotStep::Undo(
                    ServerMessage::nack(request_id, ErrorCode::InvalidData, text.as_str()),
                );
            },
            SnapshotSource::Whole => (self.store.tree.get_or_null(&p), None, false),
            SnapshotSource::Shared(keys) => (
                self.get_result_from_cached_keys(&p, &keys),
                tag,
                false,
            ),
            SnapshotSource::Query(keys) => (
                self.get_query_result_with_keys(&p, &keys),
                tag,
                true,
            ),
        };
        let size = estimate_node_bytes(&shown);
        if size > self.limits.max_response_size {
            let text = oversize_message(
                "Initial snapshot size ",
                size,
                self.limits.max_response_size,
            );
            return SnapshotStep::Undo(
                ServerMessage::nack(request_id, ErrorCode::ResponseTooLarge, text.as_str()),
            );
        }
        SnapshotStep::Send {
            event: ServerMessage::put_event(path_str, "/", shown, used_tag),
            ack: ServerMessage::ack(request_id),
            start_view,
        }
    }

    /// The query that an unsubscription is about, and its answer.
    pub fn handle_unsubscribe(&self, msg: &ClientMessage, query_identifier: Option<&str>) -> (r: (
        String,
        ServerMessage,
    ))
        ensures
            r.0@ == match query_identifier {
                Some(q) => q@,
                None => "default"@,
            },
            r.1@ == Answer::Ack(msg.request()),
    {
        let query_id = match query_identifier {
            Some(q) => q.to_owned(),
            None => "default".to_owned(),
        };
        (query_id, ServerMessage::ack(msg.request_text()))
    }
}

/// What the first snapshot of a subscription shows.
pub open spec fn snapshot_data(at: Option<Shape>, source: SnapshotSource) -> Shape {
    match source {
        SnapshotSource::Shared(keys) => shared_result(at, text::texts(keys@)),
        SnapshotSource::Query(keys) => query_result(at, text::texts(keys@)),
        _ => match at {
            Some(n) => n,
            None => Shape::Null,
        },
    }
}

/// A listed key is a key of the children.
proof fn lemma_key_listed(s: Seq<Child>, j: int)
    requires
        0 <= j < s.len(),
    ensures
        node::children_map(s).contains_key(s[j].key@),
    decreases s.len(),
{
    if j < s.len() - 1 {
        lemma_key_listed(s.drop_last(), j);
    }
}

/// A one-level read is true to the data that the blob and the log hold: what it shows
/// as a leaf is the leaf there, and a listing leaves out nothing that is there.
pub proof fn law_shallow_read_true(
    blob: Shape,
    read: ShallowRead,
    entries: Seq<replay::Entry>,
    p: Seq<Seq<char>>,
    k: Seq<char>,
)
    requires
        shape::fully_loaded(blob),
        promotion::listing(read) == replay::one_level(shape::at_or_null(blob, p)),
        replay::shallow_promoted(promotion::listing(read), entries, p) is Object,
    ensures
        ({
            let full = shape::at_or_null(replay::full_data(blob, entries), p);
            let merged = replay::shallow_promoted(promotion::listing(read), entries, p);
            let sizes = listing::after_log(listing::listed_sizes(listed_of(read)), entries, p);
            let shown = shape::kids(shallow_view(merged, sizes));
            &&& full is Object
            &&& shape::kids(full).contains_key(k) && !(shape::kids(full)[k] is Null)
                ==> shown.contains_key(k)
            &&& shown.contains_key(k) && !(shown[k] is Object) && !(shown[k] is Null)
                ==> shape::kids(full).contains_key(k) && shape::kids(full)[k] == shown[k]
        }),
{
    let full = shape::at_or_null(replay::full_data(blob, entries), p);
    let merged = replay::shallow_promoted(promotion::listing(read), entries, p);
    let root = Seq::<Seq<char>>::empty();
    replay::law_shallow_promotion_true(blob, entries, p);
    assert(shape::agrees_at(merged, full, root));
    assert(shape::at(full, root) == Some(full));
    let m = shape::kids(merged);
    let one = root.push(k);
    assert(one.drop_first() =~= root);
    assert(one[0] == k);
    shape::lemma_at_push(merged, root, k);
    shape::lemma_at_push(full, root, k);
    assert(shape::at(merged, root) == Some(merged));
    assert(shape::agrees_at(merged, full, one));
    if !m.contains_key(k) {
        assert(shape::absent(full, one));
    } else {
        assert(m.dom().contains(k));
        assert(shape::at(merged, one) == Some(m[k]));
    }
}

/// A single read of a path about which the tree tells, with nothing at or below it left
/// to load, shows the data that the blob and the log hold: whatever is asked of the
/// answer, at the path or below, is as it is there.
pub proof fn law_once_reads_full(
    db: Database,
    blob: Shape,
    p: Seq<Seq<char>>,
    shown: Shape,
    r: Seq<Seq<char>>,
)
    requires
        db.inv(),
        shape::fully_loaded(blob),
        shape::agrees(db.store.tree@, replay::full_data(blob, db.store.log())),
        !(promotion::standing(db.store.tree@, p) is Unknown),
        !promotion::has_holes(db.store, p),
        shown == read_result(db.store.tree@, p, QueryOutcome::NoQuery),
    ensures
        shape::sight(shown, r) == shape::sight(replay::full_data(blob, db.store.log()), p + r),
{
    let t = db.store.tree@;
    let full = replay::full_data(blob, db.store.log());
    replay::lemma_replay_loaded(blob, db.store.log());
    shape::lemma_at_split(t, p, r);
    shape::lemma_at_split(full, p, r);
    assert((p + r).take(p.len() as int) =~= p);
    if shape::at(t, p) is Some {
        assert forall|s: Seq<Seq<char>>| path::is_prefix(p, s) implies !#[trigger]
            shape::sentinel_at(t, s) by {
            if shape::sentinel_at(t, s) {
                assert(db.store.sentinel_paths@.contains(s));
            }
        }
        shape::law_loaded_reads_full(t, full, p, p + r);
    } else {
        let above = p.drop_last();
        assert(p =~= above.push(p.last())) by {
            if p.len() == 0 {
                assert(p =~= Seq::<Seq<char>>::empty());
            }
        }
        shape::lemma_at_push(t, above, p.last());
        shape::lemma_at_push(full, above, p.last());
        assert(shape::agrees_at(t, full, above));
        assert(shape::absent(full, p));
        assert(shape::kids(Shape::Null) =~= Map::empty());
        if r.len() == 0 {
            assert(p + r =~= p);
        }
    }
}

/// A one-level read of a container shows every child under its key and no other key. A child
/// that is an object, an array or not loaded is shown as an object with the one member `.sz`,
/// its size; every other child is shown as it is.
pub proof fn law_shallow_read_shows_every_child(
    n: Shape,
    sizes: Seq<(Seq<char>, nat)>,
    k: Seq<char>,
)
    requires
        n is Object || n is Sentinel,
        shape::kids(n).contains_key(k),
    ensures
        shallow_view(n, sizes) is Object,
        shape::kids(shallow_view(n, sizes)).dom() =~= shape::kids(n).dom(),
        ({
            let c = shape::kids(n)[k];
            let shown = shape::kids(shallow_view(n, sizes))[k];
            if c is Object || c is Array || c is Sentinel {
                &&& shown is Object
                &&& shape::kids(shown).dom() =~= set![".sz"@]
                &&& shape::kids(shown)[".sz"@] is Number
                &&& exists|x: i64|
                    shape::kids(shown)[".sz"@] == Shape::Number(
                        #[trigger] server_value::whole_number(x),
                    ) && (!(c is Sentinel) && size::shape_size(c) <= i64::MAX && size::shape_size(
                        c,
                    ) <= usize::MAX ==> x == size::shape_size(c)) && (c is Sentinel
                        && listing::noted_size(sizes, k) <= i64::MAX ==> x == listing::noted_size(
                        sizes,
                        k,
                    ))
            } else {
                shown == c
            }
        }),
{
    let m = shape::kids(n);
    let c = m[k];
    assert(m.dom().contains(k));
    if m.dom() == Set::<Seq<char>>::empty() {
        assert(false);
    }
    let shown = shape::kids(shallow_view(n, sizes))[k];
    assert(shown == shallow_child(c, k, sizes));
    if c is Object || c is Array || c is Sentinel {
        let size: nat = if c is Sentinel {
            listing::noted_size(sizes, k)
        } else {
            value::held(size::shape_size(c)) as nat
        };
        let x: i64 = if size <= i64::MAX {
            size as i64
        } else {
            i64::MAX
        };
        assert(shown == size_mark(size));
        assert(shape::kids(shown)[".sz"@] == Shape::Number(server_value::whole_number(x)));
    }
}

/// A one-level read of a leaf shows the leaf, and one of a container without children, or of
/// nothing, shows null.
pub proof fn law_shallow_read_of_leaves(n: Shape, sizes: Seq<(Seq<char>, nat)>)
    ensures
        n is Bool || n is Number || n is String || n is Null ==> shallow_view(n, sizes) == n,
        (n is Object || n is Sentinel) && shape::kids(n).dom() =~= Set::<Seq<char>>::empty()
            ==> shallow_view(n, sizes) is Null,
{
    if shape::kids(n).dom() =~= Set::<Seq<char>>::empty() {
        assert(shape::kids(n).dom() == Set::<Seq<char>>::empty());
    }
}

/// A query shows the picked children that exist, as they are, and no others; a leaf is shown
/// as it is.
pub proof fn law_query_shows_the_picked_children(
    n: Shape,
    keys: Seq<Seq<char>>,
    k: Seq<char>,
)
    ensures
        ({
            let r = query_result(Some(n), keys);
            let m = shape::kids(n);
            &&& !(n is Object || n is Sentinel) ==> r == n
            &&& m.contains_key(k) ==> r is Object || (r is Null && keys.len() == 0)
            &&& shape::kids(r).contains_key(k) <==> m.contains_key(k) && keys.contains(k)
            &&& shape::kids(r).contains_key(k) ==> shape::kids(r)[k] == m[k]
        }),
        query_result(None, keys) is Null,
        ({
            let r = shared_result(Some(n), keys);
            let m = shape::kids(n);
            &&& r is Object || r is Null
            &&& shape::kids(r).contains_key(k) <==> m.contains_key(k) && keys.contains(k)
            &&& shape::kids(r).contains_key(k) ==> shape::kids(r)[k] == m[k]
        }),
        shared_result(None, keys) is Null,
{
    let m = shape::kids(n);
    if m.contains_key(k) {
        assert(m.dom().contains(k));
        if m.dom() == Set::<Seq<char>>::empty() {
            assert(false);
        }
        if keys.contains(k) {
            assert(keys.len() > 0);
            assert(picked_kids(m, keys).dom().contains(k));
            if picked_kids(m, keys).dom() == Set::<Seq<char>>::empty() {
                assert(false);
            }
        }
    }
    if !(n is Object || n is Sentinel) {
        assert(m.dom() =~= Set::<Seq<char>>::empty());
    }
    if m.dom() == Set::<Seq<char>>::empty() && m.contains_key(k) {
        assert(m.dom().contains(k));
    }
}

/// A read without a query shows what stands at the path, and null where nothing stands; so
/// does a first snapshot.
pub proof fn law_plain_read_shows_what_is_there(t: Shape, p: Seq<Seq<char>>)
    ensures
        match shape::at(t, p) {
            Some(n) => {
                &&& read_result(t, p, QueryOutcome::NoQuery) == n
                &&& snapshot_data(Some(n), SnapshotSource::Whole) == n
            },
            None => {
                &&& read_result(t, p, QueryOutcome::NoQuery) is Null
                &&& snapshot_data(None, SnapshotSource::Whole) is Null
            },
        },
{
}

/// A read with a query shows the children that the query picked, and every other read all
/// that is there. A snapshot shows what its source picked.
pub proof fn law_reads_show_what_was_asked_for(
    t: Shape,
    p: Seq<Seq<char>>,
    q: QueryOutcome,
    source: SnapshotSource,
    k: Seq<char>,
)
    requires
        shape::at(t, p) is Some,
    ensures
        ({
            let n = shape::at(t, p)->0;
            let m = shape::kids(n);
            let r = read_result(t, p, q);
            let s = snapshot_data(Some(n), source);
            &&& q matches QueryOutcome::Keys(keys) ==> (shape::kids(r).contains_key(k)
                <==> m.contains_key(k) && text::texts(keys@).contains(k))
            &&& !(q is Keys) ==> r == n
            &&& source matches SnapshotSource::Shared(keys) ==> (shape::kids(s).contains_key(k)
                <==> m.contains_key(k) && text::texts(keys@).contains(k)) && (s is Object || s
                is Null)
            &&& source matches SnapshotSource::Query(keys) ==> (shape::kids(s).contains_key(k)
                <==> m.contains_key(k) && text::texts(keys@).contains(k))
            &&& !(source is Shared) && !(source is Query) ==> s == n
            &&& shape::kids(r).contains_key(k) ==> shape::kids(r)[k] == m[k]
            &&& shape::kids(s).contains_key(k) ==> shape::kids(s)[k] == m[k]
        }),
{
    let n = shape::at(t, p)->0;
    if let QueryOutcome::Keys(keys) = q {
        law_query_shows_the_picked_children(n, text::texts(keys@), k);
    }
    if let SnapshotSource::Shared(keys) = source {
        law_query_shows_the_picked_children(n, text::texts(keys@), k);
    }
    if let SnapshotSource::Query(keys) = source {
        law_query_shows_the_picked_children(n, text::texts(keys@), k);
    }
}

/// What is refused for its size is told its size and the limit, both in decimal.
pub proof fn law_size_refusals_tell_the_numbers(what: Seq<char>, size: usize, limit: usize, n: u64)
    ensures
        text::has_prefix(oversize_text(what, size, limit), what + text::decimal(size as nat)),
        text::contains(
            oversize_text(what, size, limit),
            "("@ + text::decimal(limit as nat) + " bytes)"@,
        ),
        text::contains(limit_text(n), " "@ + text::decimal(n as nat) + " exceeds maximum"@),
{
    reveal_strlit(" exceeds maximum allowed (");
    reveal_strlit(" exceeds maximum");
    reveal_strlit(" bytes)");
    reveal_strlit("(");
    reveal_strlit(" ");
    reveal_strlit("Query limit ");
    reveal_strlit(" exceeds maximum allowed (10000)");
    let s = text::decimal(size as nat);
    let l = text::decimal(limit as nat);
    let d = text::decimal(n as nat);
    let over = oversize_text(what, size, limit);
    assert(over.take((what + s).len() as int) =~= what + s);
    let part = "("@ + l + " bytes)"@;
    let at = over.len() - part.len();
    assert(over.subrange(at, at + part.len()) =~= part);
    assert(text::occurs_at(over, part, at));
    let most = " "@ + d + " exceeds maximum"@;
    let told = limit_text(n);
    assert(told.subrange(11, 11int + most.len()) =~= most);
    assert(text::occurs_at(told, most, 11));
}

} // verus!
