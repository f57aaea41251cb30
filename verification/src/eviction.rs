//! Giving memory back: paths that have not been used for a while turn into sentinels
//! again, except where a path in use lies below them.
use crate::node;
use crate::node::{find_child, Child, Node};
use crate::path;
use crate::path::Path;
use crate::promotion;
use crate::sentinel;
use crate::sentinel::PathSet;
use crate::shape;
use crate::shape::Shape;
use crate::store;
use crate::store::{Promoted, Store};
use vstd::prelude::*;

verus! {

/// The paths of a list.
pub open spec fn path_list(v: Seq<Path>) -> Seq<Seq<Seq<char>>> {
    v.map_values(|p: Path| p@)
}

/// Whether a path in use lies strictly below `p`.
pub open spec fn leads_to_hot(p: Seq<Seq<char>>, hot: Seq<Seq<Seq<char>>>) -> bool {
    exists|i: int|
        0 <= i < hot.len() && path::is_prefix(p, #[trigger] hot[i]) && p.len() < hot[i].len()
}

/// A node at `p` with its unused branches forgotten: a child in use stays as it is, a
/// child above one in use is pruned, any other child becomes an empty sentinel.
pub open spec fn prune(n: Shape, p: Seq<Seq<char>>, hot: Seq<Seq<Seq<char>>>) -> Shape
    decreases n,
{
    match n {
        Shape::Object(m) => Shape::Object(
            Map::new(
                |k: Seq<char>| m.contains_key(k),
                |k: Seq<char>|
                    if !m.contains_key(k) {
                        Shape::Null
                    } else if hot.contains(p.push(k)) {
                        m[k]
                    } else if leads_to_hot(p.push(k), hot) {
                        prune(m[k], p.push(k), hot)
                    } else {
                        Shape::Sentinel(Map::empty())
                    },
            ),
        ),
        Shape::Sentinel(m) => Shape::Sentinel(
            Map::new(
                |k: Seq<char>| m.contains_key(k),
                |k: Seq<char>|
                    if !m.contains_key(k) {
                        Shape::Null
                    } else if hot.contains(p.push(k)) {
                        m[k]
                    } else if leads_to_hot(p.push(k), hot) {
                        prune(m[k], p.push(k), hot)
                    } else {
                        Shape::Sentinel(Map::empty())
                    },
            ),
        ),
        leaf => leaf,
    }
}

/// The children of a pruned node at `p`.
pub open spec fn prune_kids(
    m: Map<Seq<char>, Shape>,
    p: Seq<Seq<char>>,
    hot: Seq<Seq<Seq<char>>>,
) -> Map<Seq<char>, Shape> {
    shape::kids(prune(Shape::Object(m), p, hot))
}

/// Whether pruning the node `n` at `p` forgets the branch at `c`: it exists, neither
/// it nor anything above it up to `p` is in use, nothing in use lies below it, and its
/// parent is `p` or leads to a path in use.
pub open spec fn cold(
    n: Shape,
    p: Seq<Seq<char>>,
    hot: Seq<Seq<Seq<char>>>,
    c: Seq<Seq<char>>,
) -> bool {
    &&& path::is_prefix(p, c)
    &&& p.len() < c.len()
    &&& shape::at(n, c.skip(p.len() as int)) is Some
    &&& forall|i: int|
        0 <= i < hot.len() && path::is_prefix(p, #[trigger] hot[i]) && p.len() < hot[i].len()
            ==> !path::related(hot[i], c)
    &&& c.len() == p.len() + 1 || leads_to_hot(c.drop_last(), hot)
}

/// The branches that pruning the node `n` at `p` forgets.
pub open spec fn cold_branches(
    n: Shape,
    p: Seq<Seq<char>>,
    hot: Seq<Seq<Seq<char>>>,
) -> Set<Seq<Seq<char>>> {
    Set::new(|c: Seq<Seq<char>>| cold(n, p, hot, c))
}

/// A tree after the path `p` was given up.
pub open spec fn evict_step(t: Shape, p: Seq<Seq<char>>, hot: Seq<Seq<Seq<char>>>) -> Shape {
    if leads_to_hot(p, hot) {
        match shape::at(t, p) {
            Some(n) => shape::put(t, p, prune(n, p, hot), true),
            None => t,
        }
    } else {
        shape::put(t, p, Shape::Sentinel(Map::empty()), true)
    }
}

/// A tree after the first `n` idle paths were given up in turn.
pub open spec fn evict_run(
    t: Shape,
    idle: Seq<Seq<Seq<char>>>,
    hot: Seq<Seq<Seq<char>>>,
    n: int,
) -> Shape
    decreases n,
{
    if n <= 0 || n > idle.len() {
        t
    } else {
        evict_step(evict_run(t, idle, hot, n - 1), idle[n - 1], hot)
    }
}

/// Whether a time lies at least `idle_secs` seconds before `now`.
pub open spec fn is_idle(at: u64, now: u64, idle_secs: u64) -> bool {
    if at <= now {
        (now - at) / 1000 >= idle_secs
    } else {
        idle_secs == 0
    }
}

/// The listed paths that are idle, or those that are not, in order.
pub open spec fn sorted_out(
    s: Seq<Promoted>,
    now: u64,
    idle_secs: u64,
    idle: bool,
) -> Seq<Seq<Seq<char>>>
    decreases s.len(),
{
    if s.len() == 0 {
        Seq::empty()
    } else {
        let rest = sorted_out(s.drop_last(), now, idle_secs, idle);
        if is_idle(s.last().at, now, idle_secs) == idle {
            rest.push(s.last().path@)
        } else {
            rest
        }
    }
}

/// The listed paths that are not idle, with their times.
pub open spec fn still_hot(s: Seq<Promoted>, now: u64, idle_secs: u64) -> Map<
    Seq<Seq<char>>,
    u64,
>
    decreases s.len(),
{
    if s.len() == 0 {
        Map::empty()
    } else {
        let rest = still_hot(s.drop_last(), now, idle_secs);
        if is_idle(s.last().at, now, idle_secs) {
            rest
        } else {
            rest.insert(s.last().path@, s.last().at)
        }
    }
}

/// The listed sentinels after the node `n` at `p` was pruned.
pub open spec fn pruned_marks(
    n: Shape,
    p: Seq<Seq<char>>,
    hot: Seq<Seq<Seq<char>>>,
    s: Set<Seq<Seq<char>>>,
) -> Set<Seq<Seq<char>>> {
    Set::new(
        |x: Seq<Seq<char>>|
            cold(n, p, hot, x) || (s.contains(x) && forall|c: Seq<Seq<char>>| #[trigger]
                cold(n, p, hot, c) && path::is_prefix(c, x) ==> c == x),
    )
}

/// The listed sentinels after the path `p` was given up.
pub open spec fn evict_marks(
    t: Shape,
    s: Set<Seq<Seq<char>>>,
    p: Seq<Seq<char>>,
    hot: Seq<Seq<Seq<char>>>,
) -> Set<Seq<Seq<char>>> {
    if leads_to_hot(p, hot) {
        match shape::at(t, p) {
            Some(n) => pruned_marks(n, p, hot, s),
            None => s,
        }
    } else {
        promotion::installed_sentinels(t, s, p, Shape::Sentinel(Map::empty()))
    }
}

/// The listed sentinels after the first `n` idle paths were given up in turn.
pub open spec fn evict_run_marks(
    t: Shape,
    s: Set<Seq<Seq<char>>>,
    idle: Seq<Seq<Seq<char>>>,
    hot: Seq<Seq<Seq<char>>>,
    n: int,
) -> Set<Seq<Seq<char>>>
    decreases n,
{
    if n <= 0 || n > idle.len() {
        s
    } else {
        evict_marks(
            evict_run(t, idle, hot, n - 1),
            evict_run_marks(t, s, idle, hot, n - 1),
            idle[n - 1],
            hot,
        )
    }
}

/// Where a branch under `p` leads, seen from one step further down.
pub proof fn lemma_cold_step(
    n: Shape,
    p: Seq<Seq<char>>,
    hot: Seq<Seq<Seq<char>>>,
    c: Seq<Seq<char>>,
)
    requires
        path::is_prefix(p, c),
        p.len() < c.len(),
    ensures
        ({
            let k = c[p.len() as int];
            let cp = p.push(k);
            cold(n, p, hot, c) <==> shape::kids(n).contains_key(k) && (if hot.contains(cp) {
                false
            } else if leads_to_hot(cp, hot) {
                cold(shape::kids(n)[k], cp, hot, c)
            } else {
                c == cp
            })
        }),
{
    let k = c[p.len() as int];
    let cp = p.push(k);
    let s = c.skip(p.len() as int);
    assert(s[0] == k);
    assert(c.take(cp.len() as int) =~= cp) by {
        assert forall|i: int| 0 <= i < cp.len() implies c.take(cp.len() as int)[i] == cp[i] by {
            if i < p.len() {
                assert(c.take(p.len() as int)[i] == p[i]);
            }
        }
    }
    assert(path::is_prefix(cp, c));
    assert(s.drop_first() =~= c.skip(cp.len() as int));
    assert(path::is_prefix(p, cp)) by {
        assert(cp.take(p.len() as int) =~= p);
    }
    if hot.contains(cp) {
        let i = choose|i: int| 0 <= i < hot.len() && hot[i] == cp;
        assert(path::is_prefix(p, hot[i]) && p.len() < hot[i].len());
        assert(path::related(hot[i], c));
    } else if leads_to_hot(cp, hot) {
        let l = choose|i: int|
            0 <= i < hot.len() && path::is_prefix(cp, #[trigger] hot[i]) && cp.len()
                < hot[i].len();
        lemma_prefix_trans(p, cp, hot[l]);
        if c.len() == cp.len() {
            assert(c =~= cp);
            assert(path::related(hot[l], c));
        } else {
            assert(c.drop_last().take(cp.len() as int) =~= cp);
            if c.len() == cp.len() + 1 {
                assert(c.drop_last() =~= cp);
                assert(leads_to_hot(c.drop_last(), hot));
            }
            if cold(n, p, hot, c) {
                assert forall|i: int|
                    0 <= i < hot.len() && path::is_prefix(cp, #[trigger] hot[i]) && cp.len()
                        < hot[i].len() implies !path::related(hot[i], c) by {
                    lemma_prefix_trans(p, cp, hot[i]);
                }
            }
            if shape::kids(n).contains_key(k) && cold(shape::kids(n)[k], cp, hot, c) {
                assert forall|i: int|
                    0 <= i < hot.len() && path::is_prefix(p, #[trigger] hot[i]) && p.len()
                        < hot[i].len() implies !path::related(hot[i], c) by {
                    let h = hot[i];
                    if path::related(h, c) {
                        lemma_common_prefix(cp, h, c);
                        if h.len() == cp.len() {
                            assert(h =~= cp);
                            assert(hot.contains(cp));
                        }
                    }
                }
            }
        }
    } else {
        if c.len() == cp.len() {
            assert(c =~= cp);
            if shape::kids(n).contains_key(k) {
                assert(c.skip(cp.len() as int) =~= Seq::<Seq<char>>::empty());
                assert(shape::at(n, s) is Some);
                assert forall|i: int|
                    0 <= i < hot.len() && path::is_prefix(p, #[trigger] hot[i]) && p.len()
                        < hot[i].len() implies !path::related(hot[i], c) by {
                    let h = hot[i];
                    if path::is_prefix(h, c) {
                        assert(h.len() == c.len());
                        assert(c.take(h.len() as int) =~= c);
                        assert(hot.contains(cp));
                    }
                    if path::is_prefix(c, h) {
                        if h.len() == c.len() {
                            assert(h.take(c.len() as int) =~= h);
                            assert(hot.contains(cp));
                        }
                    }
                }
            }
        } else {
            assert(c != cp);
            if leads_to_hot(c.drop_last(), hot) {
                let l = choose|i: int|
                    0 <= i < hot.len() && path::is_prefix(c.drop_last(), #[trigger] hot[i])
                        && c.drop_last().len() < hot[i].len();
                assert(c.drop_last().take(cp.len() as int) =~= cp);
                lemma_prefix_trans(cp, c.drop_last(), hot[l]);
                assert(path::is_prefix(cp, hot[l]) && cp.len() < hot[l].len());
            }
        }
    }
}

/// Leading through is transitive.
pub proof fn lemma_prefix_trans(a: Seq<Seq<char>>, b: Seq<Seq<char>>, c: Seq<Seq<char>>)
    requires
        path::is_prefix(a, b),
        path::is_prefix(b, c),
    ensures
        path::is_prefix(a, c),
{
    assert(c.take(a.len() as int) =~= c.take(b.len() as int).take(a.len() as int));
}

/// A path related to one below `a`, and longer than the parent of `a` along the same
/// start, lies at or below `a`, or is shorter.
pub proof fn lemma_common_prefix(a: Seq<Seq<char>>, h: Seq<Seq<char>>, c: Seq<Seq<char>>)
    requires
        path::is_prefix(a, c),
        path::related(h, c),
        h.len() >= a.len(),
    ensures
        path::is_prefix(a, h),
{
    if path::is_prefix(h, c) {
        assert(h.take(a.len() as int) =~= c.take(h.len() as int).take(a.len() as int));
        assert(c.take(h.len() as int).take(a.len() as int) =~= c.take(a.len() as int));
    } else {
        lemma_prefix_trans(a, c, h);
    }
}

/// A sentinel in a pruned node is a forgotten branch, or was a sentinel before and
/// does not lie below a forgotten branch.
pub proof fn lemma_prune_sentinel(
    n: Shape,
    p: Seq<Seq<char>>,
    hot: Seq<Seq<Seq<char>>>,
    x: Seq<Seq<char>>,
)
    requires
        path::is_prefix(p, x),
        shape::sentinel_at(prune(n, p, hot), x.skip(p.len() as int)),
    ensures
        cold(n, p, hot, x) || (shape::sentinel_at(n, x.skip(p.len() as int)) && forall|c: Seq<
            Seq<char>,
        >| #[trigger]
            cold(n, p, hot, c) && path::is_prefix(c, x) ==> c == x),
    decreases x.len() - p.len(),
{
    let s = x.skip(p.len() as int);
    if x.len() == p.len() {
        assert(s =~= Seq::<Seq<char>>::empty());
        assert forall|c: Seq<Seq<char>>| #[trigger]
            cold(n, p, hot, c) && path::is_prefix(c, x) implies c == x by {
            assert(c.len() <= x.len());
        }
    } else {
        let k = x[p.len() as int];
        let cp = p.push(k);
        assert(s[0] == k);
        assert(x.take(cp.len() as int) =~= cp) by {
            assert forall|i: int| 0 <= i < cp.len() implies x.take(cp.len() as int)[i]
                == cp[i] by {
                if i < p.len() {
                    assert(x.take(p.len() as int)[i] == p[i]);
                }
            }
        }
        assert(s.drop_first() =~= x.skip(cp.len() as int));
        assert(shape::kids(n).contains_key(k));
        let kid = shape::kids(n)[k];
        lemma_cold_step(n, p, hot, x);
        if hot.contains(cp) {
            assert(shape::sentinel_at(n, s));
            assert forall|c: Seq<Seq<char>>| #[trigger]
                cold(n, p, hot, c) && path::is_prefix(c, x) implies c == x by {
                lemma_below_same_kid(p, c, x);
                lemma_cold_step(n, p, hot, c);
            }
        } else if leads_to_hot(cp, hot) {
            lemma_prune_sentinel(kid, cp, hot, x);
            if !cold(kid, cp, hot, x) {
                assert(shape::sentinel_at(n, s));
                assert forall|c: Seq<Seq<char>>| #[trigger]
                    cold(n, p, hot, c) && path::is_prefix(c, x) implies c == x by {
                    lemma_below_same_kid(p, c, x);
                    lemma_cold_step(n, p, hot, c);
                }
            }
        } else {
            if x.len() > cp.len() {
                assert(s.drop_first().len() > 0);
                assert(shape::at(Shape::Sentinel(Map::empty()), s.drop_first()) is None);
            } else {
                assert(x =~= cp);
            }
        }
    }
}

/// A path below `p` on the way to `x` takes the same first step.
pub proof fn lemma_below_same_kid(p: Seq<Seq<char>>, c: Seq<Seq<char>>, x: Seq<Seq<char>>)
    requires
        p.len() < c.len(),
        path::is_prefix(c, x),
    ensures
        c[p.len() as int] == x[p.len() as int],
{
    assert(x.take(c.len() as int)[p.len() as int] == c[p.len() as int]);
}

/// A path in use below `p`, and everything below it, is untouched when the branches of
/// `p` that are not in use are forgotten.
pub proof fn law_hot_path_preserved(
    n: Shape,
    p: Seq<Seq<char>>,
    hot: Seq<Seq<Seq<char>>>,
    h: Seq<Seq<char>>,
    x: Seq<Seq<char>>,
)
    requires
        hot.contains(h),
        path::is_prefix(p, h),
        p.len() < h.len(),
        path::is_prefix(h, x),
    ensures
        shape::at(prune(n, p, hot), x.skip(p.len() as int)) == shape::at(
            n,
            x.skip(p.len() as int),
        ),
    decreases h.len() - p.len(),
{
    lemma_prefix_trans(p, h, x);
    let s = x.skip(p.len() as int);
    let k = x[p.len() as int];
    let cp = p.push(k);
    assert(s[0] == k);
    lemma_below_same_kid(p, h, x);
    assert(h[p.len() as int] == k);
    assert(h.take(cp.len() as int) =~= cp) by {
        assert forall|i: int| 0 <= i < cp.len() implies h.take(cp.len() as int)[i] == cp[i] by {
            if i < p.len() {
                assert(h.take(p.len() as int)[i] == p[i]);
            }
        }
    }
    assert(s.drop_first() =~= x.skip(cp.len() as int));
    let i = choose|i: int| 0 <= i < hot.len() && hot[i] == h;
    if shape::kids(n).contains_key(k) {
        if !hot.contains(cp) {
            if cp.len() == h.len() {
                assert(h =~= cp);
            }
            assert(path::is_prefix(cp, hot[i]) && cp.len() < hot[i].len());
            assert(leads_to_hot(cp, hot));
            law_hot_path_preserved(shape::kids(n)[k], cp, hot, h, x);
        }
    }
}

/// A pruned node tells nothing false.
pub proof fn lemma_prune_agrees_at(
    n: Shape,
    full: Shape,
    p: Seq<Seq<char>>,
    hot: Seq<Seq<Seq<char>>>,
    base: Shape,
    top: Seq<Seq<char>>,
    s: Seq<Seq<char>>,
)
    requires
        shape::agrees(base, full),
        shape::at(base, top) == Some(n),
    ensures
        match shape::at(prune(n, p, hot), s) {
            None => true,
            Some(Shape::Sentinel(_)) => true,
            Some(Shape::Null) => shape::absent(full, top + s),
            Some(Shape::Object(m)) => {
                &&& shape::at(full, top + s) is Some
                &&& shape::at(full, top + s)->0 is Object
                &&& forall|k: Seq<char>|
                    !m.contains_key(k) ==> shape::absent(full, #[trigger] (top + s).push(k))
            },
            Some(leaf) => shape::at(full, top + s) == Some(leaf),
        },
    decreases s.len(),
{
    if s.len() == 0 {
        assert(top + s =~= top);
        assert(shape::agrees_at(base, full, top));
        assert(shape::at(prune(n, p, hot), s) == Some(prune(n, p, hot)));
        if n is Object {
            let m = n->Object_0;
            let m2 = prune_kids(m, p, hot);
            assert forall|k: Seq<char>| !m2.contains_key(k) implies shape::absent(
                full,
                #[trigger] (top + s).push(k),
            ) by {
                assert(!m.contains_key(k));
            }
        }
    } else if shape::kids(n).contains_key(s[0]) {
        let k = s[0];
        let kid = shape::kids(n)[k];
        let cp = p.push(k);
        shape::lemma_at_push(base, top, k);
        assert(top.push(k) + s.drop_first() =~= top + s);
        if hot.contains(cp) {
            assert(top + s =~= top.push(k) + s.drop_first());
            shape::lemma_at_split(base, top.push(k), s.drop_first());
            assert(shape::agrees_at(base, full, top + s));
        } else if leads_to_hot(cp, hot) {
            lemma_prune_agrees_at(kid, full, cp, hot, base, top.push(k), s.drop_first());
        } else {
            if s.drop_first().len() > 0 {
                assert(shape::at(Shape::Sentinel(Map::empty()), s.drop_first()) is None);
            }
        }
    }
}

/// Giving up idle paths keeps what is left true: whatever the tree tells afterwards
/// holds of the full data.
pub proof fn law_eviction_agrees(
    t: Shape,
    full: Shape,
    p: Seq<Seq<char>>,
    hot: Seq<Seq<Seq<char>>>,
)
    requires
        shape::agrees(t, full),
    ensures
        shape::agrees(evict_step(t, p, hot), full),
{
    if leads_to_hot(p, hot) {
        match shape::at(t, p) {
            Some(n) => {
                let v = prune(n, p, hot);
                let sub = shape::at_or_null(full, p);
                assert forall|s: Seq<Seq<char>>| #[trigger] shape::agrees_at(v, sub, s) by {
                    lemma_prune_agrees_at(n, full, p, hot, t, p, s);
                    shape::lemma_at_split(full, p, s);
                    assert forall|k: Seq<char>|
                        shape::absent(full, #[trigger] (p + s).push(k)) implies shape::absent(
                        sub,
                        s.push(k),
                    ) by {
                        assert((p + s).push(k) =~= p + s.push(k));
                        shape::lemma_at_split(full, p, s.push(k));
                    }
                    assert(forall|k: Seq<char>| #[trigger]
                        s.push(k) == s.push(k) && (p + s).push(k) =~= p + s.push(k));
                }
                shape::law_promote_agrees(t, full, p, v);
            },
            None => {},
        }
    } else {
        shape::law_evict_agrees(t, full, p);
    }
}

/// Whether a path is on a list of paths in use.
fn in_list(hot: &Vec<Path>, p: &Path) -> (r: bool)
    ensures
        r == path_list(hot@).contains(p@),
{
    let mut i: usize = 0;
    while i < hot.len()
        invariant
            i <= hot@.len(),
            forall|j: int| 0 <= j < i ==> (#[trigger] hot@[j])@ != p@,
        decreases hot@.len() - i,
    {
        if hot[i].same(p) {
            assert(path_list(hot@)[i as int] == p@);
            return true;
        }
        i = i + 1;
    }
    false
}

/// Whether a path in use lies strictly below another.
fn above_hot(hot: &Vec<Path>, p: &Path) -> (r: bool)
    ensures
        r == leads_to_hot(p@, path_list(hot@)),
{
    let ghost list = path_list(hot@);
    let mut i: usize = 0;
    while i < hot.len()
        invariant
            i <= hot@.len(),
            list == path_list(hot@),
            forall|j: int|
                0 <= j < i ==> !(path::is_prefix(p@, #[trigger] list[j]) && p@.len()
                    < list[j].len()),
        decreases hot@.len() - i,
    {
        assert(list[i as int] == hot@[i as int]@);
        if p.segments.len() < hot[i].segments.len() && p.leads_to(&hot[i]) {
            return true;
        }
        i = i + 1;
    }
    false
}

/// Forgets the unused branches of a node at `p` and lists their paths.
fn prune_node(n: Node, p: &Path, hot: &Vec<Path>, forgotten: &mut PathSet) -> (r: Node)
    requires
        old(forgotten).inv(),
    ensures
        r@ == prune(n@, p@, path_list(hot@)),
        forall|x: Seq<Seq<char>>| #[trigger]
            final(forgotten)@.contains(x) <==> old(forgotten)@.contains(x) || cold(
                n@,
                p@,
                path_list(hot@),
                x,
            ),
        final(forgotten).inv(),
    decreases n,
{
    let ghost list = path_list(hot@);
    let ghost shape0 = n@;
    match n {
        Node::Object(children) => {
            let out = prune_children(children, p, hot, forgotten);
            proof {
                assert(node::children_map(out@) =~= prune_kids(
                    node::children_map(children@),
                    p@,
                    list,
                ));
                lemma_cold_all(shape0, p@, list);
            }
            Node::Object(out)
        },
        Node::Sentinel(children) => {
            let out = prune_children(children, p, hot, forgotten);
            proof {
                assert(node::children_map(out@) =~= prune_kids(
                    node::children_map(children@),
                    p@,
                    list,
                ));
                lemma_cold_all(shape0, p@, list);
            }
            Node::Sentinel(out)
        },
        other => {
            proof {
                assert(shape::kids(shape0) =~= Map::empty());
                lemma_cold_all(shape0, p@, list);
            }
            other
        },
    }
}

/// What pruning forgets under the child with key `k`.
pub open spec fn cold_under(
    m: Map<Seq<char>, Shape>,
    p: Seq<Seq<char>>,
    hot: Seq<Seq<Seq<char>>>,
    k: Seq<char>,
    x: Seq<Seq<char>>,
) -> bool {
    &&& m.contains_key(k)
    &&& path::is_prefix(p, x)
    &&& p.len() < x.len()
    &&& x[p.len() as int] == k
    &&& !hot.contains(p.push(k))
    &&& if leads_to_hot(p.push(k), hot) {
        cold(m[k], p.push(k), hot, x)
    } else {
        x == p.push(k)
    }
}

/// What pruning forgets is what it forgets under each child.
pub proof fn lemma_cold_all(n: Shape, p: Seq<Seq<char>>, hot: Seq<Seq<Seq<char>>>)
    ensures
        forall|x: Seq<Seq<char>>| #[trigger]
            cold(n, p, hot, x) <==> path::is_prefix(p, x) && p.len() < x.len() && cold_under(
                shape::kids(n),
                p,
                hot,
                x[p.len() as int],
                x,
            ),
{
    assert forall|x: Seq<Seq<char>>| #[trigger]
        cold(n, p, hot, x) <==> path::is_prefix(p, x) && p.len() < x.len() && cold_under(
            shape::kids(n),
            p,
            hot,
            x[p.len() as int],
            x,
        ) by {
        if path::is_prefix(p, x) && p.len() < x.len() {
            lemma_cold_step(n, p, hot, x);
        }
    }
}

/// Forgets the unused branches among the children of a node at `p`.
fn prune_children(
    children: Vec<Child>,
    p: &Path,
    hot: &Vec<Path>,
    forgotten: &mut PathSet,
) -> (r: Vec<Child>)
    requires
        old(forgotten).inv(),
    ensures
        ({
            let m = node::children_map(children@);
            let m2 = node::children_map(r@);
            &&& forall|k: Seq<char>| #[trigger] m2.contains_key(k) == m.contains_key(k)
            &&& forall|k: Seq<char>|
                m.contains_key(k) ==> #[trigger] m2[k] == prune_kids(
                    m,
                    p@,
                    path_list(hot@),
                )[k]
        }),
        forall|x: Seq<Seq<char>>| #[trigger]
            final(forgotten)@.contains(x) <==> old(forgotten)@.contains(x) || (path::is_prefix(
                p@,
                x,
            ) && p@.len() < x.len() && cold_under(
                node::children_map(children@),
                p@,
                path_list(hot@),
                x[p@.len() as int],
                x,
            )),
        final(forgotten).inv(),
    decreases children,
{
    let ghost all = children@;
    let ghost m = node::children_map(all);
    let ghost list = path_list(hot@);
    let ghost f0 = forgotten@;
    let mut rest = children;
    let mut out: Vec<Child> = Vec::new();
    let ghost mut done: Set<Seq<char>> = Set::empty();
    assert(all.take(all.len() as int) =~= all);
    while rest.len() > 0
        invariant
            list == path_list(hot@),
            m == node::children_map(all),
            rest@ == all.take(rest@.len() as int),
            rest@.len() <= all.len(),
            forall|k: Seq<char>| #[trigger]
                done.contains(k) <==> exists|j: int|
                    rest@.len() <= j < all.len() && (#[trigger] all[j]).key@ == k,
            forall|k: Seq<char>| #[trigger]
                node::children_map(out@).contains_key(k) <==> done.contains(k),
            forall|k: Seq<char>|
                done.contains(k) ==> #[trigger] node::children_map(out@)[k] == prune_kids(
                    m,
                    p@,
                    list,
                )[k] && m.contains_key(k),
            forall|x: Seq<Seq<char>>| #[trigger]
                forgotten@.contains(x) <==> f0.contains(x) || (path::is_prefix(p@, x) && p@.len()
                    < x.len() && done.contains(x[p@.len() as int]) && cold_under(
                    m,
                    p@,
                    list,
                    x[p@.len() as int],
                    x,
                )),
            f0 == old(forgotten)@,
            forgotten.inv(),
            decreases_to!(children => all),
        decreases rest@.len(),
    {
        let ghost at = rest@.len() - 1;
        let ghost f1 = forgotten@;
        match rest.pop() {
            Some(entry) => {
                assert(entry == all[at]);
                assert(rest@ =~= all.take(at));
                let ghost k = entry.key@;
                let seen = find_child(&out, entry.key.as_str()).is_some();
                if !seen {
                    proof {
                        assert(node::last_for_key(all, k, at)) by {
                            assert forall|j: int| at < j < all.len() implies #[trigger] all[j].key@
                                != k by {
                                if all[j].key@ == k {
                                    assert(done.contains(k));
                                }
                            }
                        }
                        node::lemma_last_for_key(all, k, at);
                        assert(decreases_to!(all => all[at]));
                    }
                    let below = p.child(entry.key.as_str());
                    let key = entry.key.clone();
                    let ghost before_out = out@;
                    if in_list(hot, &below) {
                        out.push(Child { key, node: entry.node });
                    } else if above_hot(hot, &below) {
                        let node = prune_node(entry.node, &below, hot, forgotten);
                        out.push(Child { key, node });
                    } else {
                        forgotten.insert(&below);
                        out.push(Child { key, node: Node::empty_sentinel() });
                    }
                    proof {
                        assert(out@.drop_last() =~= before_out);
                        let done2 = done.insert(k);
                        assert forall|x: Seq<Seq<char>>| #[trigger]
                            forgotten@.contains(x) <==> f0.contains(x) || (path::is_prefix(p@, x)
                                && p@.len() < x.len() && done2.contains(x[p@.len() as int])
                                && cold_under(m, p@, list, x[p@.len() as int], x)) by {
                            if path::is_prefix(p@, x) && p@.len() < x.len() && x[p@.len() as int]
                                == k {
                            } else {
                                // Nothing was forgotten elsewhere.
                                if cold(m[k], below@, list, x) {
                                    assert(path::is_prefix(below@, x));
                                    assert(x.take(below@.len() as int)[p@.len() as int] == k);
                                    assert(p@ =~= below@.take(p@.len() as int));
                                    lemma_prefix_trans(p@, below@, x);
                                }
                                if x == below@ {
                                    assert(x[p@.len() as int] == k);
                                    assert(x.take(p@.len() as int) =~= p@);
                                }
                            }
                        }
                        assert forall|y: Seq<char>| #[trigger]
                            done2.contains(y) <==> exists|j: int|
                                at <= j < all.len() && (#[trigger] all[j]).key@ == y by {
                            if done2.contains(y) {
                                if y == k {
                                    assert(all[at].key@ == y);
                                } else {
                                    let j = choose|j: int|
                                        at + 1 <= j < all.len() && (#[trigger] all[j]).key@ == y;
                                    assert(all[j].key@ == y);
                                }
                            }
                        }
                        done = done2;
                    }
                } else {
                    proof {
                        assert(done.contains(k));
                        assert forall|y: Seq<char>| #[trigger]
                            done.contains(y) <==> exists|j: int|
                                at <= j < all.len() && (#[trigger] all[j]).key@ == y by {
                            if done.contains(y) {
                                let j = choose|j: int|
                                    at + 1 <= j < all.len() && (#[trigger] all[j]).key@ == y;
                                assert(all[j].key@ == y);
                            }
                        }
                    }
                }
            },
            None => {},
        }
    }
    proof {
        assert forall|k: Seq<char>| done.contains(k) == #[trigger] m.contains_key(k) by {
            if m.contains_key(k) {
                node::lemma_key_present(all, k);
                let j = choose|j: int| node::last_for_key(all, k, j);
                assert(all[j].key@ == k);
            }
            if done.contains(k) {
                assert(node::children_map(out@)[k] == prune_kids(m, p@, list)[k]);
            }
        }
    }
    out
}

/// Pruning keeps every sentinel listed.
pub proof fn lemma_prune_tracks(
    t: Shape,
    s: Set<Seq<Seq<char>>>,
    p: Seq<Seq<char>>,
    hot: Seq<Seq<Seq<char>>>,
)
    requires
        sentinel::all_tracked(t, s),
        shape::at(t, p) is Some,
    ensures
        sentinel::all_tracked(
            shape::put(t, p, prune(shape::at(t, p)->0, p, hot), true),
            pruned_marks(shape::at(t, p)->0, p, hot, s),
        ),
{
    let n = shape::at(t, p)->0;
    let v = prune(n, p, hot);
    let t2 = shape::put(t, p, v, true);
    assert forall|x: Seq<Seq<char>>| #[trigger] shape::sentinel_at(t2, x) implies pruned_marks(
        n,
        p,
        hot,
        s,
    ).contains(x) by {
        shape::lemma_at_put(t, p, v, true, x);
        if path::is_prefix(p, x) {
            let r = x.skip(p.len() as int);
            assert(p + r =~= x);
            shape::lemma_at_split(t, p, r);
            lemma_prune_sentinel(n, p, hot, x);
            if !cold(n, p, hot, x) {
                assert(shape::sentinel_at(t, x));
            }
        } else {
            if path::is_prefix(x, p) {
                let rest = p.skip(x.len() as int);
                assert(x + rest =~= p);
                shape::lemma_at_split(t, x, rest);
                let up = shape::at(t, x)->0;
                if rest.len() == 0 {
                    assert(x =~= p);
                    assert(p.take(x.len() as int) =~= p);
                }
                shape::lemma_put_kind(up, rest, v, true);
                if !(up is Object) && !(up is Sentinel) {
                    assert(shape::kids(up) =~= Map::empty());
                }
                assert(shape::sentinel_at(t, x));
            } else {
                assert(shape::sentinel_at(t, x));
            }
            assert forall|c: Seq<Seq<char>>| #[trigger]
                cold(n, p, hot, c) && path::is_prefix(c, x) implies c == x by {
                lemma_prefix_trans(p, c, x);
            }
        }
    }
}

impl Store {
    /// Turns the subtree at `p` into an empty sentinel.
    pub fn evict_path(&mut self, p: &Path)
        requires
            old(self).inv(),
        ensures
            final(self).inv(),
            final(self).tree@ == shape::put(
                old(self).tree@,
                p@,
                Shape::Sentinel(Map::empty()),
                true,
            ),
            final(self).sentinel_paths@ == promotion::installed_sentinels(
                old(self).tree@,
                old(self).sentinel_paths@,
                p@,
                Shape::Sentinel(Map::empty()),
            ),
            final(self).same_but_tree(old(self)),
    {
        let ghost gone = Shape::Sentinel(Map::<Seq<char>, Shape>::empty());
        let ghost t0 = self.tree@;
        let ghost s0 = self.sentinel_paths@;
        let node = Node::empty_sentinel();
        self.tree.set_node(p, node, true);
        self.sentinel_paths.remove_below(p);
        self.sentinel_paths.insert(p);
        self.sentinel_paths.track_above(&self.tree, p);
        proof {
            assert(node@ == gone);
            let marks = promotion::installed_sentinels(t0, s0, p@, gone);
            assert forall|x: Seq<Seq<char>>| self.sentinel_paths@.contains(x) == marks.contains(
                x,
            ) by {
                assert(sentinel::sentinels_in(gone, p@).contains(x) <==> x == p@) by {
                    if sentinel::sentinels_in(gone, p@).contains(x) {
                        if x.skip(p@.len() as int).len() > 0 {
                            assert(shape::at(gone, x.skip(p@.len() as int)) is None);
                        }
                        assert(x =~= p@);
                    }
                    if x == p@ {
                        assert(x.skip(p@.len() as int) =~= Seq::<Seq<char>>::empty());
                        assert(x.take(p@.len() as int) =~= p@);
                    }
                }
                if sentinel::sentinels_above(self.tree@, p@).contains(x) && path::is_prefix(p@, x) {
                    assert(x =~= p@);
                }
            }
            assert(self.sentinel_paths@ =~= marks);
            promotion::lemma_install_tracks(t0, s0, p@, gone);
        }
    }

    /// Turns the branches of `p` into sentinels that are not in use and do not lead to
    /// a path in use, and returns how many there were.
    pub fn selective_evict_children(&mut self, p: &Path, hot: &Vec<Path>) -> (r: usize)
        requires
            old(self).inv(),
        ensures
            final(self).inv(),
            match shape::at(old(self).tree@, p@) {
                Some(n) => {
                    &&& final(self).tree@ == shape::put(
                        old(self).tree@,
                        p@,
                        prune(n, p@, path_list(hot@)),
                        true,
                    )
                    &&& final(self).sentinel_paths@ == pruned_marks(
                        n,
                        p@,
                        path_list(hot@),
                        old(self).sentinel_paths@,
                    )
                    &&& cold_branches(n, p@, path_list(hot@)).finite()
                    &&& r == cold_branches(n, p@, path_list(hot@)).len()
                },
                None => *final(self) == *old(self) && r == 0,
            },
            final(self).same_but_tree(old(self)),
    {
        let ghost list = path_list(hot@);
        let ghost s0 = self.sentinel_paths@;
        let ghost t0 = self.tree@;
        let found = match self.tree.get(p) {
            Some(n) => Some(n.copy()),
            None => None,
        };
        match found {
            None => 0,
            Some(n) => {
                let ghost n0 = n@;
                let mut forgotten = PathSet::new();
                let pruned = prune_node(n, p, hot, &mut forgotten);
                self.tree.set_node(p, pruned, true);
                let mut i: usize = 0;
                let ghost all = forgotten.paths@;
                let ghost t1 = self.tree@;
                let ghost me = *self;
                while i < forgotten.paths.len()
                    invariant
                        i <= forgotten.paths@.len(),
                        forgotten.paths@ == all,
                        self.tree@ == t1,
                        self.same_but_tree(&me),
                        self.sentinel_paths.inv(),
                        forall|x: Seq<Seq<char>>| #[trigger]
                            self.sentinel_paths@.contains(x) <==> s0.contains(x) && forall|
                                j: int,
                            |
                                0 <= j < i && path::is_prefix((#[trigger] all[j])@, x) ==> all[j]@
                                    == x,
                    decreases forgotten.paths@.len() - i,
                {
                    let ghost before = self.sentinel_paths@;
                    self.sentinel_paths.remove_strictly_below(&forgotten.paths[i]);
                    proof {
                        let c = all[i as int]@;
                        assert forall|x: Seq<Seq<char>>| #[trigger]
                            self.sentinel_paths@.contains(x) <==> s0.contains(x) && forall|j: int|
                                0 <= j < i + 1 && path::is_prefix((#[trigger] all[j])@, x)
                                    ==> all[j]@ == x by {
                            if path::is_prefix(c, x) && c.len() == x.len() {
                                assert(x.take(c.len() as int) =~= x);
                            }
                            if before.contains(x) && (path::is_prefix(c, x) ==> c == x) {
                                assert forall|j: int|
                                    0 <= j < i + 1 && path::is_prefix(
                                        (#[trigger] all[j])@,
                                        x,
                                    ) implies all[j]@ == x by {
                                    if j == i {
                                        assert(all[j]@ == c);
                                    }
                                }
                            }
                            if self.sentinel_paths@.contains(x) {
                                assert(before.contains(x));
                            }
                        }
                    }
                    i = i + 1;
                }
                let ghost kept = self.sentinel_paths@;
                let mut k: usize = 0;
                while k < forgotten.paths.len()
                    invariant
                        k <= forgotten.paths@.len(),
                        forgotten.paths@ == all,
                        self.tree@ == t1,
                        self.same_but_tree(&me),
                        self.sentinel_paths.inv(),
                        forall|x: Seq<Seq<char>>| #[trigger]
                            self.sentinel_paths@.contains(x) <==> kept.contains(x) || exists|
                                j: int,
                            |
                                0 <= j < k && (#[trigger] all[j])@ == x,
                    decreases forgotten.paths@.len() - k,
                {
                    let ghost before = self.sentinel_paths@;
                    self.sentinel_paths.insert(&forgotten.paths[k]);
                    proof {
                        let c = all[k as int]@;
                        assert forall|x: Seq<Seq<char>>| #[trigger]
                            self.sentinel_paths@.contains(x) <==> kept.contains(x) || exists|j: int|
                                0 <= j < k + 1 && (#[trigger] all[j])@ == x by {
                            if x == c {
                                assert(all[k as int]@ == x);
                            }
                            if self.sentinel_paths@.contains(x) && x != c {
                                assert(before.contains(x));
                            }
                        }
                    }
                    k = k + 1;
                }
                proof {
                    let marks = pruned_marks(n0, p@, list, s0);
                    assert forall|x: Seq<Seq<char>>|
                        self.sentinel_paths@.contains(x) == marks.contains(x) by {
                        assert(forgotten@.contains(x) <==> cold(n0, p@, list, x));
                        assert(forgotten@.contains(x) <==> exists|j: int|
                            0 <= j < all.len() && (#[trigger] all[j])@ == x);
                        if kept.contains(x) {
                            assert forall|c: Seq<Seq<char>>| #[trigger]
                                cold(n0, p@, list, c) && path::is_prefix(c, x) implies c == x by {
                                assert(forgotten@.contains(c));
                                let j = choose|j: int|
                                    0 <= j < all.len() && (#[trigger] all[j])@ == c;
                                assert(all[j]@ == c);
                            }
                        }
                        if marks.contains(x) && !cold(n0, p@, list, x) {
                            assert forall|j: int|
                                0 <= j < all.len() && path::is_prefix(
                                    (#[trigger] all[j])@,
                                    x,
                                ) implies all[j]@ == x by {
                                assert(forgotten@.contains(all[j]@));
                                assert(cold(n0, p@, list, all[j]@));
                            }
                            assert(kept.contains(x));
                        }
                    }
                    assert(self.sentinel_paths@ =~= marks);
                    lemma_prune_tracks(t0, s0, p@, list);
                    assert(forgotten@ =~= cold_branches(n0, p@, list));
                }
                forgotten.count()
            },
        }
    }

    /// Gives up the paths that have not been used for `idle_secs` seconds. A path with
    /// a path in use below it loses only the branches that are not in use.
    pub fn evict_idle_paths(&mut self, now: u64, idle_secs: u64)
        requires
            old(self).inv(),
        ensures
            final(self).inv(),
            ({
                let idle = sorted_out(old(self).promoted_paths@, now, idle_secs, true);
                let hot = sorted_out(old(self).promoted_paths@, now, idle_secs, false);
                &&& final(self).tree@ == evict_run(
                    old(self).tree@,
                    idle,
                    hot,
                    idle.len() as int,
                )
                &&& final(self).sentinel_paths@ == evict_run_marks(
                    old(self).tree@,
                    old(self).sentinel_paths@,
                    idle,
                    hot,
                    idle.len() as int,
                )
            }),
            store::times(final(self).promoted_paths@) == still_hot(
                old(self).promoted_paths@,
                now,
                idle_secs,
            ),
            final(self).same_log(old(self)),
    {
        let mut idle: Vec<Path> = Vec::new();
        let mut hot: Vec<Path> = Vec::new();
        let mut kept: Vec<Promoted> = Vec::new();
        let ghost all = self.promoted_paths@;
        let mut i: usize = 0;
        assert(all.take(0) =~= Seq::<Promoted>::empty());
        assert(path_list(idle@) =~= Seq::empty());
        assert(path_list(hot@) =~= Seq::empty());
        while i < self.promoted_paths.len()
            invariant
                i <= self.promoted_paths@.len(),
                self.promoted_paths@ == all,
                *self == *old(self),
                store::distinct(all),
                path_list(idle@) == sorted_out(all.take(i as int), now, idle_secs, true),
                path_list(hot@) == sorted_out(all.take(i as int), now, idle_secs, false),
                store::times(kept@) == still_hot(all.take(i as int), now, idle_secs),
                store::distinct(kept@),
                forall|j: int|
                    0 <= j < kept@.len() ==> exists|l: int|
                        0 <= l < i && (#[trigger] kept@[j]).path@ == (#[trigger] all[l]).path@,
            decreases self.promoted_paths@.len() - i,
        {
            let ghost done = all.take(i as int);
            let ghost next = all.take(i + 1);
            assert(next.drop_last() =~= done);
            assert(next.last() == all[i as int]);
            let entry = &self.promoted_paths[i];
            let at = entry.at;
            let copy = entry.path.copy();
            let old_enough = if at <= now {
                (now - at) / 1000 >= idle_secs
            } else {
                idle_secs == 0
            };
            if old_enough {
                let ghost before = idle@;
                idle.push(copy);
                assert(path_list(idle@) =~= path_list(before).push(copy@));
            } else {
                let ghost before = hot@;
                let ghost kept0 = kept@;
                let again = entry.path.copy();
                hot.push(copy);
                kept.push(Promoted { path: again, at });
                assert(path_list(hot@) =~= path_list(before).push(copy@));
                assert(kept@.drop_last() =~= kept0);
                assert forall|a: int, b: int| 0 <= a < b < kept@.len() implies (
                #[trigger] kept@[a]).path@ != (#[trigger] kept@[b]).path@ by {
                    if b == kept@.len() - 1 {
                        assert(kept@[a] == kept0[a]);
                        let l = choose|l: int|
                            0 <= l < i && kept0[a].path@ == (#[trigger] all[l]).path@;
                        assert(all[l].path@ != all[i as int].path@);
                    } else {
                        assert(kept0[a].path@ != kept0[b].path@);
                    }
                }
                assert forall|j: int| 0 <= j < kept@.len() implies exists|l: int|
                    0 <= l < i + 1 && (#[trigger] kept@[j]).path@ == (
                    #[trigger] all[l]).path@ by {
                    if j < kept0.len() {
                        assert(kept@[j] == kept0[j]);
                        let l = choose|l: int|
                            0 <= l < i && kept0[j].path@ == (#[trigger] all[l]).path@;
                        assert(kept@[j].path@ == all[l].path@);
                    } else {
                        assert(kept@[j].path@ == all[i as int].path@);
                    }
                }
            }
            i = i + 1;
        }
        assert(all.take(i as int) =~= all);
        let ghost before = *self;
        let ghost idle_list = path_list(idle@);
        let ghost hot_list = path_list(hot@);
        let mut k: usize = 0;
        while k < idle.len()
            invariant
                k <= idle@.len(),
                idle_list == path_list(idle@),
                hot_list == path_list(hot@),
                self.inv(),
                self.same_but_tree(&before),
                self.tree@ == evict_run(before.tree@, idle_list, hot_list, k as int),
                self.sentinel_paths@ == evict_run_marks(
                    before.tree@,
                    before.sentinel_paths@,
                    idle_list,
                    hot_list,
                    k as int,
                ),
            decreases idle@.len() - k,
        {
            assert(idle_list[k as int] == idle@[k as int]@);
            if above_hot(&hot, &idle[k]) {
                let _ = self.selective_evict_children(&idle[k], &hot);
            } else {
                self.evict_path(&idle[k]);
            }
            k = k + 1;
        }
        self.promoted_paths = kept;
    }

    /// Gives up every loaded path at once.
    pub fn force_evict_all_paths(&mut self)
        requires
            old(self).inv(),
        ensures
            final(self).inv(),
            ({
                let all = promoted_list(old(self).promoted_paths@);
                &&& final(self).tree@ == evict_run(
                    old(self).tree@,
                    all,
                    Seq::empty(),
                    all.len() as int,
                )
                &&& final(self).sentinel_paths@ == evict_run_marks(
                    old(self).tree@,
                    old(self).sentinel_paths@,
                    all,
                    Seq::empty(),
                    all.len() as int,
                )
            }),
            final(self).promoted_paths@.len() == 0,
            final(self).same_log(old(self)),
    {
        let ghost before = *self;
        let ghost all = promoted_list(self.promoted_paths@);
        let ghost none = Seq::<Seq<Seq<char>>>::empty();
        let mut k: usize = 0;
        while k < self.promoted_paths.len()
            invariant
                k <= self.promoted_paths@.len(),
                all == promoted_list(self.promoted_paths@),
                none == Seq::<Seq<Seq<char>>>::empty(),
                self.inv(),
                self.same_but_tree(&before),
                self.tree@ == evict_run(before.tree@, all, none, k as int),
                self.sentinel_paths@ == evict_run_marks(
                    before.tree@,
                    before.sentinel_paths@,
                    all,
                    none,
                    k as int,
                ),
            decreases self.promoted_paths@.len() - k,
        {
            assert(all[k as int] == self.promoted_paths@[k as int].path@);
            let p = self.promoted_paths[k].path.copy();
            self.evict_path(&p);
            k = k + 1;
        }
        self.promoted_paths = Vec::new();
    }
}

/// The paths on a list of times.
pub open spec fn promoted_list(s: Seq<Promoted>) -> Seq<Seq<Seq<char>>> {
    s.map_values(|e: Promoted| e.path@)
}

/// Giving up idle paths, however many, never makes the tree tell anything false.
pub proof fn law_eviction_run_agrees(
    t: Shape,
    full: Shape,
    idle: Seq<Seq<Seq<char>>>,
    hot: Seq<Seq<Seq<char>>>,
    n: int,
)
    requires
        shape::agrees(t, full),
    ensures
        shape::agrees(evict_run(t, idle, hot, n), full),
    decreases n,
{
    if n > 0 && n <= idle.len() {
        law_eviction_run_agrees(t, full, idle, hot, n - 1);
        law_eviction_agrees(evict_run(t, idle, hot, n - 1), full, idle[n - 1], hot);
    }
}

/// A path in use is untouched by giving up the idle paths around it: everything at and
/// below it stays where it is, as long as no idle path lies at or below it.
pub proof fn law_eviction_keeps_hot(
    t: Shape,
    idle: Seq<Seq<Seq<char>>>,
    hot: Seq<Seq<Seq<char>>>,
    n: int,
    h: Seq<Seq<char>>,
    x: Seq<Seq<char>>,
)
    requires
        hot.contains(h),
        path::is_prefix(h, x),
        forall|i: int|
            0 <= i < idle.len() ==> !path::is_prefix(h, #[trigger] idle[i]),
    ensures
        shape::at(evict_run(t, idle, hot, n), x) == shape::at(t, x),
    decreases n,
{
    if n > 0 && n <= idle.len() {
        law_eviction_keeps_hot(t, idle, hot, n - 1, h, x);
        let p = idle[n - 1];
        let t1 = evict_run(t, idle, hot, n - 1);
        assert(!path::is_prefix(h, p));
        if path::is_prefix(p, h) {
            if p.len() == h.len() {
                assert(h.take(p.len() as int) =~= h);
                assert(p.take(h.len() as int) =~= p);
            }
            let i = choose|i: int| 0 <= i < hot.len() && hot[i] == h;
            assert(path::is_prefix(p, hot[i]) && p.len() < hot[i].len());
            assert(leads_to_hot(p, hot));
            lemma_prefix_trans(p, h, x);
            match shape::at(t1, p) {
                Some(node) => {
                    law_hot_path_preserved(node, p, hot, h, x);
                    shape::lemma_at_put(t1, p, prune(node, p, hot), true, x);
                    let r = x.skip(p.len() as int);
                    assert(p + r =~= x);
                    shape::lemma_at_split(t1, p, r);
                },
                None => {},
            }
        } else {
            assert(!path::related(x, p)) by {
                if path::is_prefix(x, p) {
                    lemma_prefix_trans(h, x, p);
                }
                if path::is_prefix(p, x) {
                    if p.len() >= h.len() {
                        lemma_common_prefix(h, p, x);
                    } else {
                        lemma_common_prefix(p, h, x);
                    }
                }
            }
            match shape::at(t1, p) {
                Some(node) => {
                    shape::lemma_at_put(t1, p, prune(node, p, hot), true, x);
                },
                None => {},
            }
            shape::lemma_at_put(t1, p, Shape::Sentinel(Map::empty()), true, x);
        }
    }
}

/// A path is idle exactly if it has not been used for the given number of whole seconds.
/// One that was used at a time that is yet to come has been idle for none.
pub proof fn law_idle_for_seconds(at: u64, now: u64, idle_secs: u64)
    ensures
        at <= now ==> (is_idle(at, now, idle_secs) <==> at + 1000 * idle_secs <= now),
        at > now ==> (is_idle(at, now, idle_secs) <==> idle_secs == 0),
{
}

/// Every path in memory is either idle or in use, by its own time alone.
pub proof fn law_paths_are_sorted_out(
    s: Seq<Promoted>,
    now: u64,
    idle_secs: u64,
    idle: bool,
    p: Seq<Seq<char>>,
)
    ensures
        sorted_out(s, now, idle_secs, idle).contains(p) <==> exists|i: int|
            0 <= i < s.len() && (#[trigger] s[i]).path@ == p && is_idle(s[i].at, now, idle_secs)
                == idle,
    decreases s.len(),
{
    let all = sorted_out(s, now, idle_secs, idle);
    if s.len() > 0 {
        let d = s.drop_last();
        let rest = sorted_out(d, now, idle_secs, idle);
        law_paths_are_sorted_out(d, now, idle_secs, idle, p);
        if all.contains(p) {
            let j = choose|j: int| 0 <= j < all.len() && all[j] == p;
            if j < rest.len() {
                assert(rest[j] == p);
                assert(rest.contains(p));
                let i = choose|i: int|
                    0 <= i < d.len() && (#[trigger] d[i]).path@ == p && is_idle(
                        d[i].at,
                        now,
                        idle_secs,
                    ) == idle;
                assert(s[i] == d[i]);
            } else {
                assert(s[s.len() - 1].path@ == p);
            }
        }
        if exists|i: int|
            0 <= i < s.len() && (#[trigger] s[i]).path@ == p && is_idle(s[i].at, now, idle_secs)
                == idle {
            let i = choose|i: int|
                0 <= i < s.len() && (#[trigger] s[i]).path@ == p && is_idle(
                    s[i].at,
                    now,
                    idle_secs,
                ) == idle;
            if i < d.len() {
                assert(d[i] == s[i]);
                assert(rest.contains(p));
                let j = choose|j: int| 0 <= j < rest.len() && rest[j] == p;
                assert(all[j] == p);
            } else {
                assert(all[all.len() - 1] == p);
            }
        }
    }
}

/// What stays in memory are the paths in use, each with the time of its last use.
pub proof fn law_used_paths_stay(s: Seq<Promoted>, now: u64, idle_secs: u64, i: int)
    requires
        0 <= i < s.len(),
        store::distinct(s),
    ensures
        is_idle(s[i].at, now, idle_secs) ==> !still_hot(s, now, idle_secs).contains_key(s[i].path@),
        !is_idle(s[i].at, now, idle_secs) ==> still_hot(s, now, idle_secs).contains_key(s[i].path@)
            && still_hot(s, now, idle_secs)[s[i].path@] == s[i].at,
    decreases s.len(),
{
    let d = s.drop_last();
    assert forall|a: int, b: int| 0 <= a < b < d.len() implies (#[trigger] d[a]).path@ != (
    #[trigger] d[b]).path@ by {
        assert(s[a].path@ != s[b].path@);
    }
    if i < s.len() - 1 {
        assert(s[i].path@ != s[s.len() - 1].path@);
        assert(d[i] == s[i]);
        law_used_paths_stay(d, now, idle_secs, i);
    } else {
        assert forall|a: int| 0 <= a < d.len() implies (#[trigger] d[a]).path@ != s[i].path@ by {
            assert(s[a].path@ != s[s.len() - 1].path@);
        }
        lemma_unlisted_is_not_hot(d, now, idle_secs, s[i].path@);
    }
}

/// A path that is not listed is not in use.
proof fn lemma_unlisted_is_not_hot(
    s: Seq<Promoted>,
    now: u64,
    idle_secs: u64,
    p: Seq<Seq<char>>,
)
    requires
        forall|a: int| 0 <= a < s.len() ==> (#[trigger] s[a]).path@ != p,
    ensures
        !still_hot(s, now, idle_secs).contains_key(p),
    decreases s.len(),
{
    if s.len() > 0 {
        let d = s.drop_last();
        assert forall|a: int| 0 <= a < d.len() implies (#[trigger] d[a]).path@ != p by {
            assert(d[a] == s[a]);
        }
        assert(s[s.len() - 1].path@ != p);
        lemma_unlisted_is_not_hot(d, now, idle_secs, p);
    }
}

/// Evicting a path gives its memory back: where no path in use lies below it, nothing is left
/// there but a mark that the data must be read again. Nothing else changes.
pub proof fn law_eviction_gives_memory_back(
    t: Shape,
    p: Seq<Seq<char>>,
    hot: Seq<Seq<Seq<char>>>,
    x: Seq<Seq<char>>,
)
    ensures
        (forall|i: int| 0 <= i < hot.len() ==> !path::is_prefix(p, #[trigger] hot[i]))
            ==> shape::at(evict_step(t, p, hot), p) == Some(Shape::Sentinel(Map::empty())),
        !path::related(x, p) ==> shape::at(evict_step(t, p, hot), x) == shape::at(t, x),
{
    assert(p.take(p.len() as int) =~= p);
    assert(p.skip(p.len() as int) =~= Seq::<Seq<char>>::empty());
    let gone = Shape::Sentinel(Map::empty());
    shape::lemma_at_put(t, p, gone, true, p);
    shape::lemma_at_put(t, p, gone, true, x);
    if shape::at(t, p) is Some {
        shape::lemma_at_put(t, p, prune(shape::at(t, p)->0, p, hot), true, x);
    }
}

/// Where a path in use lies below an idle one, every branch that leads to none goes, and
/// leaves a mark that the data must be read again.
pub proof fn law_cold_branches_go(
    n: Shape,
    p: Seq<Seq<char>>,
    hot: Seq<Seq<Seq<char>>>,
    c: Seq<Seq<char>>,
)
    requires
        cold(n, p, hot, c),
    ensures
        shape::at(prune(n, p, hot), c.skip(p.len() as int)) == Some(Shape::Sentinel(Map::empty())),
    decreases c.len() - p.len(),
{
    lemma_cold_step(n, p, hot, c);
    let k = c[p.len() as int];
    let cp = p.push(k);
    let rest = c.skip(p.len() as int);
    let after = prune(n, p, hot);
    assert(rest[0] == k);
    assert(rest.drop_first() =~= c.skip(cp.len() as int));
    assert(shape::kids(after).contains_key(k));
    if leads_to_hot(cp, hot) {
        assert(shape::kids(after)[k] == prune(shape::kids(n)[k], cp, hot));
        law_cold_branches_go(shape::kids(n)[k], cp, hot, c);
    } else {
        let gone = Shape::Sentinel(Map::<Seq<char>, Shape>::empty());
        assert(shape::kids(after)[k] == gone);
        assert(c.skip(cp.len() as int) =~= Seq::<Seq<char>>::empty());
        assert(shape::at(gone, c.skip(cp.len() as int)) == Some(gone));
    }
    assert(shape::at(after, rest) == shape::at(shape::kids(after)[k], rest.drop_first()));
}

/// A branch is cold exactly if it is there, its parent is the evicted path or leads to a path
/// in use, and no path in use lies at it, below it or above it.
pub proof fn law_which_branches_are_cold(
    n: Shape,
    p: Seq<Seq<char>>,
    hot: Seq<Seq<Seq<char>>>,
    k: Seq<char>,
)
    requires
        shape::kids(n).contains_key(k),
        forall|i: int| 0 <= i < hot.len() ==> !path::related(#[trigger] hot[i], p.push(k)),
    ensures
        cold(n, p, hot, p.push(k)),
{
    let c = p.push(k);
    assert(c.take(p.len() as int) =~= p);
    assert(c.skip(p.len() as int) =~= seq![k]);
    assert(seq![k].drop_first() =~= Seq::<Seq<char>>::empty());
    assert(shape::at(shape::kids(n)[k], Seq::<Seq<char>>::empty()) is Some);
    assert(shape::at(n, seq![k]) is Some);
}

} // verus!
