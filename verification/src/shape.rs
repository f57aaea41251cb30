//! The mathematical model of the data tree: lookup, writing, removal, and how a
//! partially loaded tree relates to the full data it stands for.
use crate::path;
use crate::value::Json;
use vstd::prelude::*;

verus! {

/// A tree node. A sentinel is a container of which only the listed children are
/// known; an object is a container whose children are all listed.
pub ghost enum Shape {
    Null,
    Bool(bool),
    Number(serde_json::Number),
    String(Seq<char>),
    Array(Seq<Json>),
    Object(Map<Seq<char>, Shape>),
    Sentinel(Map<Seq<char>, Shape>),
}

/// The known children of a node.
pub open spec fn kids(n: Shape) -> Map<Seq<char>, Shape> {
    match n {
        Shape::Object(m) => m,
        Shape::Sentinel(m) => m,
        _ => Map::empty(),
    }
}

/// The child under `k`, or null where there is none.
pub open spec fn kid(n: Shape, k: Seq<char>) -> Shape {
    if kids(n).contains_key(k) {
        kids(n)[k]
    } else {
        Shape::Null
    }
}

/// A node of the kind of `n` with other children; anything but a container turns
/// into a fresh one, a sentinel when `lazy` and an object otherwise.
pub open spec fn with_kids(n: Shape, m: Map<Seq<char>, Shape>, lazy: bool) -> Shape {
    match n {
        Shape::Object(_) => Shape::Object(m),
        Shape::Sentinel(_) => Shape::Sentinel(m),
        _ => if lazy {
            Shape::Sentinel(m)
        } else {
            Shape::Object(m)
        },
    }
}

/// The node at path `p` below `n`, if there is one.
pub open spec fn at(n: Shape, p: Seq<Seq<char>>) -> Option<Shape>
    decreases p.len(),
{
    if p.len() == 0 {
        Some(n)
    } else if kids(n).contains_key(p[0]) {
        at(kids(n)[p[0]], p.drop_first())
    } else {
        None
    }
}

/// The node at path `p`, or null where there is none.
pub open spec fn at_or_null(n: Shape, p: Seq<Seq<char>>) -> Shape {
    match at(n, p) {
        Some(m) => m,
        None => Shape::Null,
    }
}

/// `n` with `leaf` standing at path `p`. Containers on the way that do not exist,
/// and values that are no containers, become sentinels when `lazy` and objects otherwise.
pub open spec fn put(n: Shape, p: Seq<Seq<char>>, leaf: Shape, lazy: bool) -> Shape
    decreases p.len(),
{
    if p.len() == 0 {
        leaf
    } else {
        with_kids(n, kids(n).insert(p[0], put(kid(n, p[0]), p.drop_first(), leaf, lazy)), lazy)
    }
}

/// `n` with nothing at path `p`; removing the root leaves null.
pub open spec fn cut(n: Shape, p: Seq<Seq<char>>) -> Shape
    decreases p.len(),
{
    if p.len() == 0 {
        Shape::Null
    } else if !kids(n).contains_key(p[0]) {
        n
    } else if p.len() == 1 {
        with_kids(n, kids(n).remove(p[0]), false)
    } else {
        with_kids(n, kids(n).insert(p[0], cut(kids(n)[p[0]], p.drop_first())), false)
    }
}

/// Whether no sentinel stands anywhere in `n`.
pub open spec fn fully_loaded(n: Shape) -> bool {
    forall|p: Seq<Seq<char>>| (#[trigger] at(n, p)) is Some ==> !(at(n, p)->0 is Sentinel)
}

/// Whether `t` has a sentinel at path `p`.
pub open spec fn sentinel_at(t: Shape, p: Seq<Seq<char>>) -> bool {
    at(t, p) is Some && at(t, p)->0 is Sentinel
}

/// Whether there is no data at path `p`: no node, or null.
pub open spec fn absent(t: Shape, p: Seq<Seq<char>>) -> bool {
    at_or_null(t, p) is Null
}

/// What a partially loaded tree says at one path is true of the full data `full`.
pub open spec fn agrees_at(t: Shape, full: Shape, p: Seq<Seq<char>>) -> bool {
    match at(t, p) {
        None => true,
        Some(Shape::Sentinel(_)) => true,
        Some(Shape::Null) => absent(full, p),
        Some(Shape::Object(m)) => {
            &&& at(full, p) is Some
            &&& at(full, p)->0 is Object
            &&& forall|k: Seq<char>| !m.contains_key(k) ==> absent(full, #[trigger] p.push(k))
        },
        Some(n) => at(full, p) == Some(n),
    }
}

/// Everything a partially loaded tree says is true of the full data `full`.
pub open spec fn agrees(t: Shape, full: Shape) -> bool {
    forall|p: Seq<Seq<char>>| #[trigger] agrees_at(t, full, p)
}

/// What a reader sees at a path.
pub ghost enum Sight {
    Nothing,
    Container,
    Leaf(Shape),
}

/// What a reader sees of `n` at path `p`.
pub open spec fn sight(n: Shape, p: Seq<Seq<char>>) -> Sight {
    match at_or_null(n, p) {
        Shape::Null => Sight::Nothing,
        Shape::Object(_) => Sight::Container,
        Shape::Sentinel(_) => Sight::Container,
        leaf => Sight::Leaf(leaf),
    }
}

/// Dropping a segment from both paths keeps how they relate.
pub proof fn lemma_related_step(p: Seq<Seq<char>>, q: Seq<Seq<char>>)
    requires
        p.len() > 0,
        q.len() > 0,
    ensures
        p[0] == q[0] ==> (path::is_prefix(p, q) <==> path::is_prefix(
            p.drop_first(),
            q.drop_first(),
        )),
        p[0] == q[0] ==> (path::is_prefix(q, p) <==> path::is_prefix(
            q.drop_first(),
            p.drop_first(),
        )),
        p[0] != q[0] ==> !path::related(p, q),
{
    let pd = p.drop_first();
    let qd = q.drop_first();
    if p[0] == q[0] {
        if path::is_prefix(p, q) {
            assert(qd.take(pd.len() as int) =~= pd) by {
                assert forall|i: int| 0 <= i < pd.len() implies qd.take(pd.len() as int)[i]
                    == pd[i] by {
                    assert(q.take(p.len() as int)[i + 1] == p[i + 1]);
                }
            }
        }
        if path::is_prefix(pd, qd) {
            assert(q.take(p.len() as int) =~= p) by {
                assert forall|i: int| 0 <= i < p.len() implies q.take(p.len() as int)[i]
                    == p[i] by {
                    if i > 0 {
                        assert(qd.take(pd.len() as int)[i - 1] == pd[i - 1]);
                    }
                }
            }
        }
        if path::is_prefix(q, p) {
            assert(pd.take(qd.len() as int) =~= qd) by {
                assert forall|i: int| 0 <= i < qd.len() implies pd.take(qd.len() as int)[i]
                    == qd[i] by {
                    assert(p.take(q.len() as int)[i + 1] == q[i + 1]);
                }
            }
        }
        if path::is_prefix(qd, pd) {
            assert(p.take(q.len() as int) =~= q) by {
                assert forall|i: int| 0 <= i < q.len() implies p.take(q.len() as int)[i]
                    == q[i] by {
                    if i > 0 {
                        assert(pd.take(qd.len() as int)[i - 1] == qd[i - 1]);
                    }
                }
            }
        }
    } else {
        if path::is_prefix(p, q) {
            assert(q.take(p.len() as int)[0] == p[0]);
        }
        if path::is_prefix(q, p) {
            assert(p.take(q.len() as int)[0] == q[0]);
        }
    }
}

/// Lookup after a write: other paths are untouched, below the written path stands
/// what was written, and above it the write happened inside the node that was there.
pub proof fn lemma_at_put(
    n: Shape,
    q: Seq<Seq<char>>,
    leaf: Shape,
    lazy: bool,
    p: Seq<Seq<char>>,
)
    ensures
        !path::related(p, q) ==> at(put(n, q, leaf, lazy), p) == at(n, p),
        path::is_prefix(q, p) ==> at(put(n, q, leaf, lazy), p) == at(
            leaf,
            p.skip(q.len() as int),
        ),
        path::is_prefix(p, q) ==> at(put(n, q, leaf, lazy), p) == Some(
            put(at_or_null(n, p), q.skip(p.len() as int), leaf, lazy),
        ),
    decreases p.len(),
{
    if q.len() == 0 {
        assert(p.skip(0) =~= p);
        assert(p.take(0) =~= q);
        if path::is_prefix(p, q) {
            assert(q.skip(0) =~= q);
        }
    } else if p.len() == 0 {
        assert(q.skip(0) =~= q);
        assert(q.take(0) =~= p);
    } else {
        lemma_related_step(p, q);
        let c = kid(n, q[0]);
        let qd = q.drop_first();
        let pd = p.drop_first();
        if p[0] == q[0] {
            lemma_at_put(c, qd, leaf, lazy, pd);
            if q.len() <= p.len() {
                assert(pd.skip(qd.len() as int) =~= p.skip(q.len() as int));
            }
            if p.len() <= q.len() {
                assert(qd.skip(pd.len() as int) =~= q.skip(p.len() as int));
            }
            if !kids(n).contains_key(p[0]) {
                if pd.len() > 0 {
                    assert(at(Shape::Null, pd) is None);
                }
            }
            if !path::related(pd, qd) {
                assert(pd.len() > 0) by {
                    if pd.len() == 0 {
                        assert(qd.take(0) =~= pd);
                    }
                }
            }
        }
    }
}

/// Lookup after a removal.
pub proof fn lemma_at_cut(n: Shape, q: Seq<Seq<char>>, p: Seq<Seq<char>>)
    ensures
        !path::related(p, q) ==> at(cut(n, q), p) == at(n, p),
        path::is_prefix(q, p) && q.len() > 0 ==> at(cut(n, q), p) is None,
        q.len() == 0 ==> at_or_null(cut(n, q), p) is Null,
        path::is_prefix(p, q) && p.len() < q.len() ==> at(cut(n, q), p) == (match at(n, p) {
            Some(m) => Some(cut(m, q.skip(p.len() as int))),
            None => None,
        }),
    decreases p.len(),
{
    if q.len() == 0 {
        assert(p.take(0) =~= q);
    } else if p.len() == 0 {
        assert(q.skip(0) =~= q);
        assert(q.take(0) =~= p);
    } else {
        lemma_related_step(p, q);
        let qd = q.drop_first();
        let pd = p.drop_first();
        if p[0] == q[0] && kids(n).contains_key(q[0]) {
            if q.len() == 1 {
                assert(pd.take(0) =~= qd);
            } else {
                lemma_at_cut(kids(n)[q[0]], qd, pd);
                if p.len() <= q.len() {
                    assert(qd.skip(pd.len() as int) =~= q.skip(p.len() as int));
                }
            }
        }
    }
}

/// Looking up a path in two stretches.
pub proof fn lemma_at_split(n: Shape, p: Seq<Seq<char>>, q: Seq<Seq<char>>)
    ensures
        at(n, p + q) == (match at(n, p) {
            Some(m) => at(m, q),
            None => None,
        }),
    decreases p.len(),
{
    if p.len() == 0 {
        assert(p + q =~= q);
    } else {
        assert((p + q).drop_first() =~= p.drop_first() + q);
        if kids(n).contains_key(p[0]) {
            lemma_at_split(kids(n)[p[0]], p.drop_first(), q);
        }
    }
}

/// Looking one segment further.
pub proof fn lemma_at_push(n: Shape, p: Seq<Seq<char>>, k: Seq<char>)
    ensures
        at(n, p.push(k)) == (match at(n, p) {
            Some(m) => if kids(m).contains_key(k) {
                Some(kids(m)[k])
            } else {
                None
            },
            None => None,
        }),
{
    assert(p.push(k) =~= p + seq![k]);
    lemma_at_split(n, p, seq![k]);
    assert(seq![k].drop_first() =~= Seq::<Seq<char>>::empty());
    reveal_with_fuel(at, 2);
}

/// A path one segment below one that leads elsewhere leads elsewhere too.
pub proof fn lemma_unrelated_push(p: Seq<Seq<char>>, q: Seq<Seq<char>>, k: Seq<char>)
    ensures
        !path::related(p, q) ==> !path::related(p.push(k), q),
        path::is_prefix(p, q) && p.len() < q.len() && q[p.len() as int] != k ==> !path::related(
            p.push(k),
            q,
        ),
{
    let r = p.push(k);
    if path::is_prefix(r, q) {
        assert(q.take(r.len() as int)[p.len() as int] == r[p.len() as int]);
        assert(q.take(p.len() as int) =~= q.take(r.len() as int).take(p.len() as int));
        assert(r.take(p.len() as int) =~= p);
    }
    if path::is_prefix(q, r) {
        if q.len() == r.len() {
            assert(r.take(q.len() as int) =~= r);
            assert(q.take(p.len() as int) =~= p);
        } else {
            assert(p.take(q.len() as int) =~= r.take(q.len() as int));
        }
    }
}

/// What a write leaves above the written path.
pub proof fn lemma_put_kind(n: Shape, q: Seq<Seq<char>>, leaf: Shape, lazy: bool)
    requires
        q.len() > 0,
    ensures
        n is Object ==> put(n, q, leaf, lazy) == Shape::Object(
            kids(n).insert(q[0], put(kid(n, q[0]), q.drop_first(), leaf, lazy)),
        ),
        n is Sentinel ==> put(n, q, leaf, lazy) is Sentinel,
        !(n is Object) && lazy ==> put(n, q, leaf, lazy) is Sentinel,
        !(n is Sentinel) && !lazy ==> put(n, q, leaf, lazy) is Object,
{
}

/// A lazy write into a partially loaded tree agrees with the same write into the full data.
pub proof fn law_write_agrees(t: Shape, full: Shape, q: Seq<Seq<char>>, leaf: Shape)
    requires
        agrees(t, full),
        fully_loaded(leaf),
        fully_loaded(full),
    ensures
        agrees(put(t, q, leaf, true), put(full, q, leaf, false)),
{
    let t2 = put(t, q, leaf, true);
    let full2 = put(full, q, leaf, false);
    assert forall|p: Seq<Seq<char>>| #[trigger] agrees_at(t2, full2, p) by {
        lemma_at_put(t, q, leaf, true, p);
        lemma_at_put(full, q, leaf, false, p);
        assert(agrees_at(t, full, p));
        if !path::related(p, q) {
            assert forall|k: Seq<char>| absent(full, #[trigger] p.push(k)) implies absent(
                full2,
                p.push(k),
            ) by {
                lemma_unrelated_push(p, q, k);
                lemma_at_put(full, q, leaf, false, p.push(k));
            }
        } else if path::is_prefix(q, p) {
            assert(at(t2, p) == at(full2, p));
            assert(at(leaf, p.skip(q.len() as int)) is Some ==> !(at(
                leaf,
                p.skip(q.len() as int),
            )->0 is Sentinel));
            assert forall|k: Seq<char>| true implies #[trigger] at(full2, p.push(k)) == (match at(
                full2,
                p,
            ) {
                Some(m) => if kids(m).contains_key(k) {
                    Some(kids(m)[k])
                } else {
                    None
                },
                None => None,
            }) by {
                lemma_at_push(full2, p, k);
            }
        } else {
            let rest = q.skip(p.len() as int);
            assert(p.len() < q.len()) by {
                if p.len() == q.len() {
                    assert(q.take(p.len() as int) =~= q);
                    assert(p.take(q.len() as int) =~= p);
                }
            }
            lemma_put_kind(at_or_null(t, p), rest, leaf, true);
            lemma_put_kind(at_or_null(full, p), rest, leaf, false);
            assert(at(full, p) is Some ==> !(at(full, p)->0 is Sentinel));
            assert(rest[0] == q[p.len() as int]);
            assert forall|k: Seq<char>|
                absent(full, #[trigger] p.push(k)) && k != rest[0] implies absent(
                full2,
                p.push(k),
            ) by {
                lemma_unrelated_push(p, q, k);
                lemma_at_put(full, q, leaf, false, p.push(k));
            }
        }
    }
}

/// A removal from a partially loaded tree agrees with the same removal from the full data.
pub proof fn law_remove_agrees(t: Shape, full: Shape, q: Seq<Seq<char>>)
    requires
        agrees(t, full),
    ensures
        agrees(cut(t, q), cut(full, q)),
{
    let t2 = cut(t, q);
    let full2 = cut(full, q);
    assert forall|p: Seq<Seq<char>>| #[trigger] agrees_at(t2, full2, p) by {
        lemma_at_cut(t, q, p);
        lemma_at_cut(full, q, p);
        assert(agrees_at(t, full, p));
        if !path::related(p, q) {
            assert forall|k: Seq<char>| absent(full, #[trigger] p.push(k)) implies absent(
                full2,
                p.push(k),
            ) by {
                lemma_unrelated_push(p, q, k);
                lemma_at_cut(full, q, p.push(k));
            }
        } else if path::is_prefix(q, p) {
            if q.len() == 0 {
                assert(at_or_null(t2, p) is Null);
            }
        } else {
            let rest = q.skip(p.len() as int);
            assert(p.len() < q.len()) by {
                if p.len() == q.len() {
                    assert(q.take(p.len() as int) =~= q);
                    assert(p.take(q.len() as int) =~= p);
                }
            }
            assert(rest[0] == q[p.len() as int]);
            if at(t, p) is Some && at(t, p)->0 is Object {
                let m = at(t, p)->0;
                let m2 = at(t2, p)->0;
                assert(m2 is Object);
                assert forall|k: Seq<char>| !kids(m2).contains_key(k) implies absent(
                    full2,
                    #[trigger] p.push(k),
                ) by {
                    lemma_at_cut(full, q, p.push(k));
                    if k != rest[0] {
                        lemma_unrelated_push(p, q, k);
                        assert(absent(full, p.push(k)));
                    } else {
                        if !kids(m).contains_key(k) {
                            assert(absent(full, p.push(k)));
                            lemma_at_push(full, p, k);
                            lemma_at_push(full2, p, k);
                            let fm = at(full, p)->0;
                            if rest.len() > 1 && kids(fm).contains_key(k) {
                                assert(kids(fm)[k] is Null);
                                assert(cut(kids(fm)[k], rest.drop_first()) is Null);
                            }
                        } else {
                            assert(rest.len() == 1);
                            assert(q =~= p.push(k));
                            assert(path::is_prefix(q, p.push(k))) by {
                                assert(p.push(k).take(q.len() as int) =~= q);
                            }
                        }
                    }
                }
                let fm = at(full, p)->0;
                assert(cut(fm, rest) is Object);
            } else if at(t, p) is Some && !(at(t, p)->0 is Sentinel) {
                let m = at(t, p)->0;
                assert(kids(m) =~= Map::empty());
                assert(at(t2, p) == Some(m));
                if !(m is Null) {
                    assert(at(full, p) == Some(m));
                } else if at(full, p) is Some {
                    assert(at(full, p)->0 is Null);
                }
            }
        }
    }
}

/// Forgetting a subtree keeps what is left true.
pub proof fn law_evict_agrees(t: Shape, full: Shape, q: Seq<Seq<char>>)
    requires
        agrees(t, full),
    ensures
        agrees(put(t, q, Shape::Sentinel(Map::empty()), true), full),
{
    let leaf = Shape::Sentinel(Map::empty());
    let t2 = put(t, q, leaf, true);
    assert forall|p: Seq<Seq<char>>| #[trigger] agrees_at(t2, full, p) by {
        lemma_at_put(t, q, leaf, true, p);
        assert(agrees_at(t, full, p));
        if path::is_prefix(q, p) {
        } else if path::is_prefix(p, q) {
            let rest = q.skip(p.len() as int);
            assert(p.len() < q.len()) by {
                if p.len() == q.len() {
                    assert(q.take(p.len() as int) =~= q);
                    assert(p.take(q.len() as int) =~= p);
                }
            }
            lemma_put_kind(at_or_null(t, p), rest, leaf, true);
        }
    }
}

/// Putting true knowledge of a subtree in place keeps the tree true.
pub proof fn law_promote_agrees(t: Shape, full: Shape, q: Seq<Seq<char>>, v: Shape)
    requires
        agrees(t, full),
        agrees(v, at_or_null(full, q)),
    ensures
        agrees(put(t, q, v, true), full),
{
    let t2 = put(t, q, v, true);
    let sub = at_or_null(full, q);
    assert forall|p: Seq<Seq<char>>| #[trigger] agrees_at(t2, full, p) by {
        lemma_at_put(t, q, v, true, p);
        assert(agrees_at(t, full, p));
        if path::is_prefix(q, p) {
            let s = p.skip(q.len() as int);
            assert(q + s =~= p);
            lemma_at_split(full, q, s);
            assert(agrees_at(v, sub, s));
            assert forall|k: Seq<char>| absent(sub, #[trigger] s.push(k)) implies absent(
                full,
                p.push(k),
            ) by {
                assert(q + s.push(k) =~= p.push(k));
                lemma_at_split(full, q, s.push(k));
            }
            assert(forall|k: Seq<char>| #[trigger] p.push(k) =~= q + s.push(k));
        } else if path::is_prefix(p, q) {
            let rest = q.skip(p.len() as int);
            assert(p.len() < q.len()) by {
                if p.len() == q.len() {
                    assert(q.take(p.len() as int) =~= q);
                    assert(p.take(q.len() as int) =~= p);
                }
            }
            lemma_put_kind(at_or_null(t, p), rest, v, true);
        }
    }
}

/// Full data agrees with itself.
pub proof fn lemma_agrees_self(n: Shape)
    ensures
        agrees(n, n),
{
    assert forall|p: Seq<Seq<char>>| #[trigger] agrees_at(n, n, p) by {
        assert forall|k: Seq<char>|
            at(n, p) is Some && !kids(at(n, p)->0).contains_key(k) implies absent(
            n,
            #[trigger] p.push(k),
        ) by {
            lemma_at_push(n, p, k);
        }
    }
}

/// Where the tree agrees with the full data and nothing at or below `p` is left
/// unloaded, a reader sees the full data at every path from `p` down.
pub proof fn law_loaded_reads_full(t: Shape, full: Shape, p: Seq<Seq<char>>, r: Seq<Seq<char>>)
    requires
        agrees(t, full),
        fully_loaded(full),
        at(t, p) is Some,
        forall|s: Seq<Seq<char>>| path::is_prefix(p, s) ==> !#[trigger] sentinel_at(t, s),
        path::is_prefix(p, r),
    ensures
        sight(t, r) == sight(full, r),
    decreases r.len(),
{
    assert(agrees_at(t, full, r));
    assert(!sentinel_at(t, r));
    if at(t, r) is None {
        assert(r.len() > p.len()) by {
            if r.len() == p.len() {
                assert(r.take(p.len() as int) =~= r);
            }
        }
        let up = r.drop_last();
        let k = r.last();
        assert(up.push(k) =~= r);
        assert(up.take(p.len() as int) =~= r.take(p.len() as int));
        law_loaded_reads_full(t, full, p, up);
        lemma_at_push(t, up, k);
        lemma_at_push(full, up, k);
        assert(agrees_at(t, full, up));
        assert(!sentinel_at(t, up));
        assert(at(full, up) is Some ==> !(at(full, up)->0 is Sentinel));
    } else {
        assert(at(full, r) is Some ==> !(at(full, r)->0 is Sentinel));
    }
}

} // verus!
