//! Loading data from the blob on demand: deciding whether a path must be read, and
//! installing what was read with the pending log on top.
use crate::node;
use crate::node::{Child, Node};
use crate::path;
use crate::path::Path;
use crate::replay;
use crate::replay::Entry;
use crate::sentinel;
use crate::shape;
use crate::shape::Shape;
use crate::store;
use crate::store::Store;
use crate::text::concat3;
use crate::tree::Tree;
use crate::wal;
use vstd::prelude::*;
use vstd::string::*;

verus! {

broadcast use vstd::string::group_string_axioms;

/// What to do next to have a path loaded.
#[derive(Clone, Copy, PartialEq, Eq, Structural)]
pub enum PromoteStep {
    /// Nothing needs to be read.
    Ready,
    /// The immediate children must be read from the blob.
    ReadShallow,
    /// The whole subtree must be read from the blob.
    ReadSubtree,
}

/// What a read of a whole subtree found.
pub enum SubtreeRead {
    Found(Node),
    NotFound,
    Failed(String),
}

/// One child as a one-level read lists it: a leaf with its value, or a container
/// without one and its size in bytes.
pub struct ShallowChild {
    pub key: String,
    pub value: Option<Node>,
    pub size: u64,
}

/// What a one-level read found.
pub enum ShallowRead {
    Primitive(Node),
    Children(Vec<ShallowChild>),
    NotFound,
    Failed(String),
}

/// What became of a one-level promotion.
pub enum ShallowOutcome {
    /// The path counts as loaded.
    Loaded,
    /// The blob does not have the path; the subtree must be built from the log.
    ReadSubtree,
    /// The read failed.
    Failed(String),
}

/// What the tree tells about a path.
pub ghost enum Standing {
    /// Real data stands there.
    Loaded,
    /// Nothing stands there, and the fully known parent says so.
    KnownAbsent,
    /// Nothing can stand there, because the parent is no container.
    Impossible,
    /// The blob must be asked.
    Unknown,
}

/// What a tree tells about a path.
pub open spec fn standing(t: Shape, p: Seq<Seq<char>>) -> Standing {
    match shape::at(t, p) {
        Some(Shape::Sentinel(_)) => Standing::Unknown,
        Some(_) => Standing::Loaded,
        None => match shape::at(t, p.drop_last()) {
            Some(Shape::Object(_)) => Standing::KnownAbsent,
            Some(Shape::Sentinel(_)) => Standing::Unknown,
            Some(_) => Standing::Impossible,
            None => Standing::Unknown,
        },
    }
}

/// Whether a value that is no container stands above `p`.
pub open spec fn blocked(t: Shape, p: Seq<Seq<char>>) -> bool {
    exists|n: int|
        0 <= n < p.len() && (#[trigger] shape::at(t, p.take(n))) is Some && !(shape::at(
            t,
            p.take(n),
        )->0 is Object) && !(shape::at(t, p.take(n))->0 is Sentinel)
}

/// The children that the first `n` listed ones stand for.
pub open spec fn listed_children(s: Seq<ShallowChild>, n: int) -> Map<Seq<char>, Shape>
    decreases n,
{
    if n <= 0 || n > s.len() {
        Map::empty()
    } else {
        let c = s[n - 1];
        listed_children(s, n - 1).insert(
            c.key@,
            match c.value {
                Some(v) => v@,
                None => Shape::Sentinel(Map::empty()),
            },
        )
    }
}

/// The node that a one-level read stands for.
pub open spec fn listing(r: ShallowRead) -> Shape {
    match r {
        ShallowRead::Primitive(v) => v@,
        ShallowRead::Children(c) => Shape::Object(listed_children(c@, c@.len() as int)),
        _ => Shape::Null,
    }
}

/// The node that a subtree read stands for.
pub open spec fn stored(r: SubtreeRead) -> Shape {
    match r {
        SubtreeRead::Found(v) => v@,
        _ => Shape::Null,
    }
}

/// A tree in which every sentinel is listed, after a node was put in at `p` and the
/// sentinels above and in it were listed.
pub proof fn lemma_install_tracks(
    t: Shape,
    s: Set<Seq<Seq<char>>>,
    p: Seq<Seq<char>>,
    v: Shape,
)
    requires
        sentinel::all_tracked(t, s),
    ensures
        sentinel::all_tracked(shape::put(t, p, v, true), installed_sentinels(t, s, p, v)),
{
    let t2 = shape::put(t, p, v, true);
    assert forall|q: Seq<Seq<char>>| #[trigger] shape::sentinel_at(
        t2,
        q,
    ) implies installed_sentinels(t, s, p, v).contains(q) by {
        shape::lemma_at_put(t, p, v, true, q);
        if path::is_prefix(p, q) {
        } else if path::is_prefix(q, p) {
            if q.len() == p.len() {
                assert(p.take(q.len() as int) =~= p);
                assert(q.take(p.len() as int) =~= q);
            }
            assert(sentinel::sentinels_above(t2, p).contains(q));
        } else {
            assert(shape::sentinel_at(t, q));
        }
    }
}

/// The listed sentinels after a node was put in at `p`.
pub open spec fn installed_sentinels(
    t: Shape,
    s: Set<Seq<Seq<char>>>,
    p: Seq<Seq<char>>,
    v: Shape,
) -> Set<Seq<Seq<char>>> {
    sentinel::without_below(
        s.union(sentinel::sentinels_above(shape::put(t, p, v, true), p)),
        p,
    ).union(sentinel::sentinels_in(v, p))
}

/// The node that a one-level read stands for.
pub fn listed_node(children: &Vec<ShallowChild>) -> (r: Node)
    ensures
        r@ == Shape::Object(listed_children(children@, children@.len() as int)),
{
    let ghost all = children@;
    let mut out: Vec<Child> = Vec::new();
    let mut i: usize = 0;
    while i < children.len()
        invariant
            i <= children@.len(),
            children@ == all,
            node::children_map(out@) == listed_children(all, i as int),
        decreases children@.len() - i,
    {
        let ghost before = out@;
        let c = &children[i];
        let node = match &c.value {
            Some(v) => v.copy(),
            None => Node::empty_sentinel(),
        };
        out.push(Child { key: c.key.clone(), node });
        assert(out@.drop_last() =~= before);
        i = i + 1;
    }
    Node::Object(out)
}

impl Store {
    /// Decides whether a path must be loaded one level deep. A loaded path is noted as
    /// used; a path that is known not to exist is marked with null.
    pub fn promote_path(&mut self, path: &str, now: u64) -> (r: PromoteStep)
        requires
            old(self).inv(),
        ensures
            final(self).inv(),
            final(self).same_log(old(self)),
            final(self).sentinel_paths == old(self).sentinel_paths,
            ({
                let p = path::segments(path@);
                let told = standing(old(self).tree@, p);
                &&& r == if old(self).blob_backed && told is Unknown {
                    PromoteStep::ReadShallow
                } else {
                    PromoteStep::Ready
                }
                &&& settled(*old(self), *final(self), p, told, now)
            }),
    {
        if !self.blob_backed {
            return PromoteStep::Ready;
        }
        let p = Path::parse(path);
        if self.settle(&p, now) {
            PromoteStep::Ready
        } else {
            PromoteStep::ReadShallow
        }
    }

    /// Decides whether a subtree must be loaded in full: it must where a sentinel is
    /// listed at or below the path, or the tree does not tell.
    pub fn promote_path_deep(&mut self, path: &str, now: u64) -> (r: PromoteStep)
        requires
            old(self).inv(),
        ensures
            final(self).inv(),
            final(self).same_log(old(self)),
            final(self).sentinel_paths == old(self).sentinel_paths,
            ({
                let p = path::segments(path@);
                let told = standing(old(self).tree@, p);
                let holes = has_holes(*old(self), p);
                &&& r == if old(self).blob_backed && (holes || told is Unknown) {
                    PromoteStep::ReadSubtree
                } else {
                    PromoteStep::Ready
                }
                &&& if holes {
                    final(self).tree == old(self).tree && final(self).promoted_paths
                        == old(self).promoted_paths
                } else {
                    settled(*old(self), *final(self), p, told, now)
                }
            }),
    {
        let p = Path::parse(path);
        let holes = self.sentinel_paths.has_at_or_below(&p);
        if !self.blob_backed {
            return PromoteStep::Ready;
        }
        if holes {
            return PromoteStep::ReadSubtree;
        }
        if self.settle(&p, now) {
            PromoteStep::Ready
        } else {
            PromoteStep::ReadSubtree
        }
    }

    /// Whether a sentinel is listed at or below a path.
    pub fn has_sentinel_at_or_below(&self, path: &str) -> (r: bool)
        requires
            self.inv(),
        ensures
            r == has_holes(*self, path::segments(path@)),
    {
        let p = Path::parse(path);
        self.sentinel_paths.has_at_or_below(&p)
    }

    /// Settles a path from what the tree tells; false where the blob must be asked.
    fn settle(&mut self, p: &Path, now: u64) -> (r: bool)
        requires
            old(self).inv(),
            old(self).blob_backed,
        ensures
            final(self).inv(),
            final(self).same_log(old(self)),
            final(self).sentinel_paths == old(self).sentinel_paths,
            r == !(standing(old(self).tree@, p@) is Unknown),
            settled(*old(self), *final(self), p@, standing(old(self).tree@, p@), now),
    {
        let (present, unloaded) = match self.tree.get(p) {
            Some(n) => (true, n.is_sentinel()),
            None => (false, false),
        };
        if present {
            if unloaded {
                return false;
            }
            self.touch(p, now);
            return true;
        }
        match p.parent() {
            Some(parent) => {
                let (known, object, open) = match self.tree.get(&parent) {
                    Some(n) => (true, n.is_object(), n.is_sentinel()),
                    None => (false, false, false),
                };
                if !known {
                    return false;
                }
                if object {
                    let ghost t0 = self.tree@;
                    self.tree.set_node(p, Node::Null, true);
                    proof {
                        lemma_marker_tracks(t0, self.sentinel_paths@, p@);
                    }
                    return true;
                }
                !open
            },
            None => {
                assert(shape::at(self.tree@, p@) is Some);
                true
            },
        }
    }

    /// Installs a subtree read from the blob, with the pending log replayed on top.
    pub fn promote_path_unchecked(
        &mut self,
        path: &str,
        read: SubtreeRead,
        now: u64,
    ) -> (r: Result<bool, String>)
        requires
            old(self).inv(),
        ensures
            final(self).inv(),
            final(self).same_log(old(self)),
            ({
                let p = path::segments(path@);
                match read {
                    _ if !old(self).blob_backed => r == Ok::<bool, String>(false) && *final(self)
                        == *old(self),
                    SubtreeRead::Failed(e) => {
                        &&& r is Err
                        &&& r->Err_0@ == "Blob read failed at "@ + path@ + ": "@ + e@
                        &&& *final(self) == *old(self)
                    },
                    _ => {
                        let v = replay::deep_promoted(stored(read), old(self).log(), p);
                        &&& r == Ok::<bool, String>(true)
                        &&& installed(*old(self), *final(self), p, v, now)
                    },
                }
            }),
    {
        if !self.blob_backed {
            return Ok(false);
        }
        let node = match read {
            SubtreeRead::Found(n) => n,
            SubtreeRead::NotFound => Node::Null,
            SubtreeRead::Failed(e) => {
                return Err(read_failure("Blob read failed at ", path, e.as_str()));
            },
        };
        let p = Path::parse(path);
        let value = self.replayed(&p, node, path, false);
        self.install(&p, value, now);
        Ok(true)
    }

    /// Installs what a one-level read found, with the pending log replayed on top.
    /// Where the blob does not have the path, the subtree is to be built from the log
    /// alone, unless a value above it stands in the way.
    pub fn promote_path_shallow(
        &mut self,
        path: &str,
        read: ShallowRead,
        now: u64,
    ) -> (r: ShallowOutcome)
        requires
            old(self).inv(),
        ensures
            final(self).inv(),
            final(self).same_log(old(self)),
            ({
                let p = path::segments(path@);
                match read {
                    _ if !old(self).blob_backed => r is Loaded && *final(self) == *old(self),
                    ShallowRead::Failed(e) => {
                        &&& r is Failed
                        &&& r->Failed_0@ == "Blob shallow read failed at "@ + path@ + ": "@ + e@
                        &&& *final(self) == *old(self)
                    },
                    ShallowRead::NotFound => if p.len() == 0 || blocked(old(self).tree@, p) {
                        &&& r is Loaded
                        &&& final(self).tree == old(self).tree
                        &&& store::times(final(self).promoted_paths@) == store::times(
                            old(self).promoted_paths@,
                        ).insert(p, now)
                        &&& forall|x: Seq<Seq<char>>| #[trigger]
                            final(self).sentinel_paths@.contains(x)
                                <==> old(self).sentinel_paths@.contains(x) && (x != p
                                || shape::sentinel_at(old(self).tree@, p))
                    } else {
                        r is ReadSubtree && *final(self) == *old(self)
                    },
                    _ => {
                        let v = replay::shallow_promoted(listing(read), old(self).log(), p);
                        &&& r is Loaded
                        &&& installed(*old(self), *final(self), p, v, now)
                    },
                }
            }),
    {
        if !self.blob_backed {
            return ShallowOutcome::Loaded;
        }
        let p = Path::parse(path);
        let node = match read {
            ShallowRead::Primitive(n) => n,
            ShallowRead::Children(c) => listed_node(&c),
            ShallowRead::Failed(e) => {
                return ShallowOutcome::Failed(
                    read_failure("Blob shallow read failed at ", path, e.as_str()),
                );
            },
            ShallowRead::NotFound => {
                if p.is_root() || self.value_above(&p) {
                    self.note_promoted(&p, now);
                    if !self.tree.sentinel_at(&p) {
                        self.untrack(&p);
                    }
                    return ShallowOutcome::Loaded;
                }
                return ShallowOutcome::ReadSubtree;
            },
        };
        let value = self.replayed(&p, node, path, true);
        self.install(&p, value, now);
        ShallowOutcome::Loaded
    }

    /// Whether a value that is no container stands above a path.
    fn value_above(&self, p: &Path) -> (r: bool)
        ensures
            r == blocked(self.tree@, p@),
    {
        let n = p.segments.len();
        let mut i: usize = 0;
        while i < n
            invariant
                i <= n == p@.len(),
                forall|j: int|
                    0 <= j < i && (#[trigger] shape::at(self.tree@, p@.take(j))) is Some
                        ==> shape::at(self.tree@, p@.take(j))->0 is Object || shape::at(
                        self.tree@,
                        p@.take(j),
                    )->0 is Sentinel,
            decreases n - i,
        {
            let above = p.take(i);
            match self.tree.get(&above) {
                Some(node) => {
                    if !node.is_object() && !node.is_sentinel() {
                        assert(shape::at(self.tree@, p@.take(i as int)) is Some);
                        return true;
                    }
                },
                None => {},
            }
            i = i + 1;
        }
        false
    }

    /// Takes one path off the list of sentinels.
    fn untrack(&mut self, p: &Path)
        requires
            old(self).inv(),
            !shape::sentinel_at(old(self).tree@, p@),
        ensures
            final(self).inv(),
            final(self).same_log(old(self)),
            final(self).tree == old(self).tree,
            final(self).promoted_paths == old(self).promoted_paths,
            final(self).sentinel_paths@ == old(self).sentinel_paths@.remove(p@),
    {
        self.sentinel_paths.remove(p);
    }

    /// A node read from the blob at a path, with the pending log replayed on top.
    pub fn replayed_at(&self, path: &str, node: Node, lazy: bool) -> (r: Node)
        requires
            self.inv(),
        ensures
            r@ == shape::at_or_null(
                replay::replay(
                    shape::put(Shape::Null, path::segments(path@), node@, false),
                    replay::affecting(self.log(), path::segments(path@)),
                    lazy,
                ),
                path::segments(path@),
            ),
    {
        let p = Path::parse(path);
        self.replayed(&p, node, path, lazy)
    }

    /// A node read from the blob with the pending log replayed on top.
    fn replayed(&self, p: &Path, node: Node, path: &str, lazy: bool) -> (r: Node)
        requires
            self.inv(),
            p@ == path::segments(path@),
        ensures
            r@ == shape::at_or_null(
                replay::replay(
                    shape::put(Shape::Null, p@, node@, false),
                    replay::affecting(self.log(), p@),
                    lazy,
                ),
                p@,
            ),
    {
        let ghost start = shape::put(Shape::Null, p@, node@, false);
        let mut temp = Tree::new();
        temp.set_node(p, node, false);
        let found = self.wal_index.find_affecting(path);
        let total = self.pending_wal_entries.len();
        let ghost chosen = wal::picked(self.log(), found@);
        proof {
            assert(self.log().len() == total);
            wal::law_affecting_complete(self.wal_index@, self.log(), p@, found@);
            assert(chosen.take(0) =~= Seq::<Entry>::empty());
        }
        let mut i: usize = 0;
        while i < found.len()
            invariant
                i <= found@.len(),
                total == self.pending_wal_entries@.len(),
                self.log().len() == total,
                chosen == wal::picked(self.log(), found@),
                forall|j: int| 0 <= j < found@.len() ==> (#[trigger] found@[j]) < self.log().len(),
                temp@ == replay::replay(start, chosen.take(i as int), lazy),
            decreases found@.len() - i,
        {
            let at: usize = found[i];
            assert(found@[i as int] < self.log().len());
            temp.apply(&self.pending_wal_entries[at], lazy);
            assert(chosen.take(i + 1).drop_last() =~= chosen.take(i as int));
            assert(chosen.take(i + 1).last() == self.pending_wal_entries@[at as int]@.write);
            i = i + 1;
        }
        assert(chosen.take(i as int) =~= chosen);
        temp.get_or_null(p)
    }

    /// Puts a loaded node in place and updates the tracking.
    fn install(&mut self, p: &Path, value: Node, now: u64)
        requires
            old(self).inv(),
        ensures
            final(self).inv(),
            final(self).same_log(old(self)),
            installed(*old(self), *final(self), p@, value@, now),
    {
        let ghost t0 = self.tree@;
        let ghost s0 = self.sentinel_paths@;
        let ghost v = value@;
        let copy = value.copy();
        self.tree.set_node(p, value, true);
        self.sentinel_paths.track_above(&self.tree, p);
        self.note_promoted(p, now);
        self.sentinel_paths.remove_below(p);
        self.sentinel_paths.collect(&copy, p);
        proof {
            lemma_install_tracks(t0, s0, p@, v);
        }
    }
}

/// Whether a sentinel is listed at or below `p`.
pub open spec fn has_holes(s: Store, p: Seq<Seq<char>>) -> bool {
    exists|x: Seq<Seq<char>>| #[trigger] s.sentinel_paths@.contains(x) && path::is_prefix(p, x)
}

/// The tree and the times after a path was settled from what the tree tells.
pub open spec fn settled(
    before: Store,
    after: Store,
    p: Seq<Seq<char>>,
    told: Standing,
    now: u64,
) -> bool {
    &&& after.tree@ == if before.blob_backed && told is KnownAbsent {
        shape::put(before.tree@, p, Shape::Null, true)
    } else {
        before.tree@
    }
    &&& store::times(after.promoted_paths@) == if before.blob_backed && told is Loaded
        && store::times(before.promoted_paths@).contains_key(p) {
        store::times(before.promoted_paths@).insert(p, now)
    } else {
        store::times(before.promoted_paths@)
    }
}

/// The tree and the tracking after a node was loaded at `p`.
pub open spec fn installed(
    before: Store,
    after: Store,
    p: Seq<Seq<char>>,
    v: Shape,
    now: u64,
) -> bool {
    &&& after.tree@ == shape::put(before.tree@, p, v, true)
    &&& store::times(after.promoted_paths@) == store::times(before.promoted_paths@).insert(p, now)
    &&& after.sentinel_paths@ == installed_sentinels(
        before.tree@,
        before.sentinel_paths@,
        p,
        v,
    )
}

/// A null marker under a fully known parent makes no sentinels.
pub proof fn lemma_marker_tracks(t: Shape, s: Set<Seq<Seq<char>>>, p: Seq<Seq<char>>)
    requires
        sentinel::all_tracked(t, s),
        p.len() > 0,
        shape::at(t, p.drop_last()) is Some,
        shape::at(t, p.drop_last())->0 is Object,
    ensures
        sentinel::all_tracked(shape::put(t, p, Shape::Null, true), s),
{
    let t2 = shape::put(t, p, Shape::Null, true);
    assert forall|q: Seq<Seq<char>>| #[trigger] shape::sentinel_at(t2, q) implies s.contains(q) by {
        shape::lemma_at_put(t, p, Shape::Null, true, q);
        if path::is_prefix(p, q) {
            let r = q.skip(p.len() as int);
            assert(shape::kids(Shape::Null) =~= Map::empty());
        } else if path::is_prefix(q, p) {
            if q.len() == p.len() {
                assert(p.take(q.len() as int) =~= p);
                assert(q.take(p.len() as int) =~= q);
            }
            let up = p.drop_last();
            let rest = up.skip(q.len() as int);
            assert(q + rest =~= up);
            shape::lemma_at_split(t, q, rest);
            assert(shape::at(t, q) is Some);
            let n = shape::at(t, q)->0;
            shape::lemma_put_kind(n, p.skip(q.len() as int), Shape::Null, true);
            if !(n is Object) && !(n is Sentinel) {
                assert(shape::kids(n) =~= Map::empty());
                if rest.len() == 0 {
                    assert(q =~= up);
                }
            }
            assert(shape::sentinel_at(t, q));
        } else {
            assert(shape::sentinel_at(t, q));
        }
    }
}

/// The text about a failed read.
fn read_failure(what: &str, path: &str, why: &str) -> (r: String)
    ensures
        r@ == what@ + path@ + ": "@ + why@,
{
    let mut out = concat3(what, path, ": ");
    out.append(why);
    out
}

/// Loading a subtree puts exactly the data in place that the blob and the log hold
/// there. It leaves nothing at or below the path unloaded, and keeps the rest of the tree
/// true.
pub proof fn law_load_is_exact(
    before: Store,
    after: Store,
    blob: Shape,
    read: SubtreeRead,
    p: Seq<Seq<char>>,
    now: u64,
)
    requires
        shape::fully_loaded(blob),
        !(read is Failed),
        stored(read) == shape::at_or_null(blob, p),
        installed(before, after, p, replay::deep_promoted(stored(read), before.log(), p), now),
        after.same_log(&before),
        shape::agrees(before.tree@, replay::full_data(blob, before.log())),
    ensures
        shape::at(after.tree@, p) == Some(
            shape::at_or_null(replay::full_data(blob, after.log()), p),
        ),
        shape::agrees(after.tree@, replay::full_data(blob, after.log())),
        !has_holes(after, p),
{
    let full = replay::full_data(blob, before.log());
    let v = shape::at_or_null(full, p);
    replay::law_promotion_exact(blob, before.log(), p);
    replay::lemma_replay_loaded(blob, before.log());
    replay::lemma_at_loaded(full, p);
    shape::lemma_agrees_self(v);
    shape::law_promote_agrees(before.tree@, full, p, v);
    shape::lemma_at_put(before.tree@, p, v, true, p);
    assert(p.take(p.len() as int) =~= p);
    assert(p.skip(p.len() as int) =~= Seq::<Seq<char>>::empty());
    assert forall|x: Seq<Seq<char>>| #[trigger]
        after.sentinel_paths@.contains(x) implies !path::is_prefix(p, x) by {
        if path::is_prefix(p, x) {
            assert(shape::sentinel_at(v, x.skip(p.len() as int)));
            assert(shape::at(v, x.skip(p.len() as int)) is Some);
        }
    }
}

/// Settling a path from what the tree tells keeps the tree true.
pub proof fn law_settling_keeps_tree_true(
    before: Store,
    after: Store,
    full: Shape,
    p: Seq<Seq<char>>,
    now: u64,
)
    requires
        settled(before, after, p, standing(before.tree@, p), now),
        shape::agrees(before.tree@, full),
    ensures
        shape::agrees(after.tree@, full),
{
    if before.blob_backed && standing(before.tree@, p) is KnownAbsent {
        let t = before.tree@;
        assert(shape::at(t, Seq::<Seq<char>>::empty()) is Some);
        assert(p.len() > 0) by {
            if p.len() == 0 {
                assert(p =~= Seq::<Seq<char>>::empty());
            }
        }
        let above = p.drop_last();
        assert(p =~= above.push(p.last()));
        shape::lemma_at_push(t, above, p.last());
        assert(shape::agrees_at(t, full, above));
        assert(shape::absent(full, above.push(p.last())));
        shape::lemma_agrees_self(Shape::Null);
        shape::law_promote_agrees(t, full, p, Shape::Null);
    }
}

/// What is said of a path without reading the blob is true of the whole data: what is in
/// memory is what is there, and what is known to be absent is.
pub proof fn law_standing_is_true(t: Shape, full: Shape, p: Seq<Seq<char>>)
    requires
        shape::agrees(t, full),
        shape::fully_loaded(full),
    ensures
        standing(t, p) is Loaded ==> shape::sight(t, p) == shape::sight(full, p),
        standing(t, p) is KnownAbsent ==> shape::absent(full, p),
        standing(t, p) is Impossible ==> shape::absent(full, p),
        shape::sentinel_at(t, p) ==> standing(t, p) is Unknown,
        shape::at(t, p) is Some && !shape::sentinel_at(t, p) ==> standing(t, p) is Loaded,
{
    assert(shape::agrees_at(t, full, p));
    if shape::at(t, p) is None {
        assert(p.len() > 0);
        let above = p.drop_last();
        assert(p =~= above.push(p.last()));
        shape::lemma_at_push(t, above, p.last());
        shape::lemma_at_push(full, above, p.last());
        assert(shape::agrees_at(t, full, above));
        if shape::at(t, above) is Some && !(shape::at(t, above)->0 is Sentinel) && shape::at(
            t,
            above,
        )->0 is Object {
            assert(shape::absent(full, above.push(p.last())));
        }
    } else if !shape::sentinel_at(t, p) {
        assert(shape::at(full, p) is Some ==> !(shape::at(full, p)->0 is Sentinel));
    }
}

/// A one-level read shows each listed child under its key, with its value where that was
/// read, and else with a mark that it must be read. The last child of a name counts, and
/// nothing is shown that was not listed.
pub proof fn law_listing_shows_the_children(s: Seq<ShallowChild>, n: int, k: Seq<char>)
    requires
        0 <= n <= s.len(),
    ensures
        listed_children(s, n).contains_key(k) <==> exists|i: int|
            0 <= i < n && (#[trigger] s[i]).key@ == k,
        forall|i: int|
            0 <= i < n && (#[trigger] s[i]).key@ == k && (forall|j: int|
                i < j < n ==> (#[trigger] s[j]).key@ != k) ==> listed_children(s, n)[k]
                == match s[i].value {
                Some(v) => v@,
                None => Shape::Sentinel(Map::empty()),
            },
    decreases n,
{
    if n > 0 {
        law_listing_shows_the_children(s, n - 1, k);
        assert(s[n - 1] == s[n - 1]);
        if s[n - 1].key@ != k && exists|i: int| 0 <= i < n && (#[trigger] s[i]).key@ == k {
            let i = choose|i: int| 0 <= i < n && (#[trigger] s[i]).key@ == k;
            assert(0 <= i < n - 1);
        }
        assert forall|i: int|
            0 <= i < n && (#[trigger] s[i]).key@ == k && (forall|j: int|
                i < j < n ==> (#[trigger] s[j]).key@ != k) implies listed_children(s, n)[k]
            == match s[i].value {
            Some(v) => v@,
            None => Shape::Sentinel(Map::empty()),
        } by {
            if i < n - 1 {
                assert(s[n - 1].key@ != k);
            }
        }
    }
}

/// What was read takes its place in the tree and is in use from then on. The rest of the
/// tree, and the times of other paths, stay.
pub proof fn law_loading_puts_in_place(
    before: Store,
    after: Store,
    p: Seq<Seq<char>>,
    v: Shape,
    now: u64,
    x: Seq<Seq<char>>,
)
    requires
        installed(before, after, p, v, now),
    ensures
        shape::at(after.tree@, p) == Some(v),
        !path::related(x, p) ==> shape::at(after.tree@, x) == shape::at(before.tree@, x),
        store::times(after.promoted_paths@).contains_key(p),
        store::times(after.promoted_paths@)[p] == now,
        x != p ==> store::times(after.promoted_paths@).contains_key(x) == store::times(
            before.promoted_paths@,
        ).contains_key(x) && store::times(after.promoted_paths@)[x] == store::times(
            before.promoted_paths@,
        )[x],
{
    assert(p.take(p.len() as int) =~= p);
    assert(p.skip(p.len() as int) =~= Seq::<Seq<char>>::empty());
    shape::lemma_at_put(before.tree@, p, v, true, p);
    shape::lemma_at_put(before.tree@, p, v, true, x);
}

/// Using what is in memory renews its time, and changes no other time and no data.
pub proof fn law_using_renews_the_time(
    before: Store,
    after: Store,
    p: Seq<Seq<char>>,
    now: u64,
    x: Seq<Seq<char>>,
)
    requires
        settled(before, after, p, standing(before.tree@, p), now),
    ensures
        standing(before.tree@, p) is Loaded ==> after.tree@ == before.tree@,
        before.blob_backed && standing(before.tree@, p) is Loaded && store::times(
            before.promoted_paths@,
        ).contains_key(p) ==> store::times(after.promoted_paths@)[p] == now,
        store::times(after.promoted_paths@).dom() == store::times(before.promoted_paths@).dom(),
        x != p ==> store::times(after.promoted_paths@)[x] == store::times(
            before.promoted_paths@,
        )[x],
        !path::related(x, p) ==> shape::at(after.tree@, x) == shape::at(before.tree@, x),
        shape::at_or_null(after.tree@, p) == shape::at_or_null(before.tree@, p),
{
    assert(p.take(p.len() as int) =~= p);
    assert(p.skip(p.len() as int) =~= Seq::<Seq<char>>::empty());
    shape::lemma_at_put(before.tree@, p, Shape::Null, true, p);
    shape::lemma_at_put(before.tree@, p, Shape::Null, true, x);
    assert(store::times(after.promoted_paths@).dom() =~= store::times(
        before.promoted_paths@,
    ).dom());
}

/// What was read brings its own marks with it: at and below its path there is a mark exactly
/// where it has a hole. Marks elsewhere stay, and only those of holes come in addition.
pub proof fn law_marks_of_what_was_read(
    t: Shape,
    s: Set<Seq<Seq<char>>>,
    p: Seq<Seq<char>>,
    v: Shape,
    x: Seq<Seq<char>>,
)
    ensures
        path::is_prefix(p, x) ==> (installed_sentinels(t, s, p, v).contains(x)
            <==> shape::sentinel_at(v, x.skip(p.len() as int))),
        !path::is_prefix(p, x) && s.contains(x) ==> installed_sentinels(t, s, p, v).contains(x),
        installed_sentinels(t, s, p, v).contains(x) ==> s.contains(x) || shape::sentinel_at(
            shape::put(t, p, v, true),
            x,
        ),
{
    if path::is_prefix(p, x) {
        shape::lemma_at_put(t, p, v, true, x);
    }
}

} // verus!
