//! Tracking of the paths where sentinels stand.
use crate::database::Database;
use crate::node;
use crate::node::{find_child, Child, Node};
use crate::order;
use crate::order::comes_before;
use crate::path;
use crate::path::Path;
use crate::shape;
use crate::shape::Shape;
use crate::text;
use crate::text::list_once;
use crate::tree::Tree;
use vstd::prelude::*;

verus! {

/// A set of paths, listed in their order.
pub struct PathSet {
    pub paths: Vec<Path>,
}

/// The paths on a list.
pub open spec fn listed(v: Seq<Path>) -> Set<Seq<Seq<char>>> {
    Set::new(|p: Seq<Seq<char>>| exists|i: int| 0 <= i < v.len() && (#[trigger] v[i])@ == p)
}

impl View for PathSet {
    type V = Set<Seq<Seq<char>>>;

    open spec fn view(&self) -> Set<Seq<Seq<char>>> {
        listed(self.paths@)
    }
}

impl PathSet {
    /// Whether the paths are in order, which also means that none is held twice.
    pub open spec fn inv(&self) -> bool {
        forall|i: int, j: int|
            0 <= i < j < self.paths@.len() ==> order::before(
                (#[trigger] self.paths@[i])@,
                (#[trigger] self.paths@[j])@,
            )
    }
}

/// The paths on a list, in order.
pub open spec fn paths_of(v: Seq<Path>) -> Seq<Seq<Seq<char>>> {
    v.map_values(|p: Path| p@)
}

/// `s` without `p` and what lies below it.
pub open spec fn without_below(s: Set<Seq<Seq<char>>>, p: Seq<Seq<char>>) -> Set<Seq<Seq<char>>> {
    Set::new(|x: Seq<Seq<char>>| s.contains(x) && !path::is_prefix(p, x))
}

/// `s` without what lies strictly below `p`.
pub open spec fn without_strictly_below(
    s: Set<Seq<Seq<char>>>,
    p: Seq<Seq<char>>,
) -> Set<Seq<Seq<char>>> {
    Set::new(|x: Seq<Seq<char>>| s.contains(x) && (x == p || !path::is_prefix(p, x)))
}

/// The sentinels that stand above `p`, and the root if it is one.
pub open spec fn sentinels_above(t: Shape, p: Seq<Seq<char>>) -> Set<Seq<Seq<char>>> {
    Set::new(
        |x: Seq<Seq<char>>|
            shape::sentinel_at(t, x) && (x.len() == 0 || (path::is_prefix(x, p) && x.len()
                < p.len())),
    )
}

/// The paths of all sentinels in a node that stands at `p`.
pub open spec fn sentinels_in(n: Shape, p: Seq<Seq<char>>) -> Set<Seq<Seq<char>>> {
    Set::new(
        |x: Seq<Seq<char>>|
            path::is_prefix(p, x) && shape::sentinel_at(n, x.skip(p.len() as int)),
    )
}

/// Whether every sentinel of a tree is on the list.
pub open spec fn all_tracked(t: Shape, s: Set<Seq<Seq<char>>>) -> bool {
    forall|p: Seq<Seq<char>>| #[trigger] shape::sentinel_at(t, p) ==> s.contains(p)
}

/// Pushing a path onto a list puts it into the set.
pub proof fn lemma_listed_push(v: Seq<Path>, p: Path)
    ensures
        listed(v.push(p)) == listed(v).insert(p@),
{
    assert forall|x: Seq<Seq<char>>| listed(v.push(p)).contains(x) == listed(v).insert(
        p@,
    ).contains(x) by {
        if listed(v.push(p)).contains(x) {
            let i = choose|i: int| 0 <= i < v.push(p).len() && (#[trigger] v.push(p)[i])@ == x;
            if i < v.len() {
                assert(v[i]@ == x);
            }
        }
        if listed(v).contains(x) {
            let i = choose|i: int| 0 <= i < v.len() && (#[trigger] v[i])@ == x;
            assert(v.push(p)[i]@ == x);
        }
        if x == p@ {
            assert(v.push(p)[v.len() as int]@ == x);
        }
    }
    assert(listed(v.push(p)) =~= listed(v).insert(p@));
}

impl PathSet {
    /// The empty set.
    pub fn new() -> (r: PathSet)
        ensures
            r@ == Set::<Seq<Seq<char>>>::empty(),
            r.inv(),
    {
        let r = PathSet { paths: Vec::new() };
        assert(r@ =~= Set::<Seq<Seq<char>>>::empty());
        r
    }

    /// How many paths come before a path.
    fn place(&self, p: &Path) -> (r: usize)
        requires
            self.inv(),
        ensures
            r <= self.paths@.len(),
            forall|j: int| 0 <= j < r ==> order::before((#[trigger] self.paths@[j])@, p@),
            forall|j: int|
                r <= j < self.paths@.len() ==> !order::before((#[trigger] self.paths@[j])@, p@),
    {
        let mut lo: usize = 0;
        let mut hi: usize = self.paths.len();
        while lo < hi
            invariant
                lo <= hi <= self.paths@.len(),
                self.inv(),
                forall|j: int| 0 <= j < lo ==> order::before((#[trigger] self.paths@[j])@, p@),
                forall|j: int|
                    hi <= j < self.paths@.len() ==> !order::before((#[trigger] self.paths@[j])@, p@),
            decreases hi - lo,
        {
            let mid: usize = lo + (hi - lo) / 2;
            let ghost here = self.paths@[mid as int]@;
            if comes_before(&self.paths[mid], p) {
                proof {
                    assert forall|j: int| 0 <= j < mid + 1 implies order::before(
                        (#[trigger] self.paths@[j])@,
                        p@,
                    ) by {
                        if j < mid {
                            order::lemma_chain(self.paths@[j]@, here, p@);
                        }
                    }
                }
                lo = mid + 1;
            } else {
                proof {
                    assert forall|j: int| mid <= j < self.paths@.len() implies !order::before(
                        (#[trigger] self.paths@[j])@,
                        p@,
                    ) by {
                        if j > mid && order::before(self.paths@[j]@, p@) {
                            order::lemma_chain(here, self.paths@[j]@, p@);
                        }
                    }
                }
                hi = mid;
            }
        }
        lo
    }

    /// A path that is not at its place is not in the set.
    proof fn lemma_place(&self, p: Seq<Seq<char>>, r: int)
        requires
            self.inv(),
            0 <= r <= self.paths@.len(),
            forall|j: int| 0 <= j < r ==> order::before((#[trigger] self.paths@[j])@, p),
            forall|j: int|
                r <= j < self.paths@.len() ==> !order::before((#[trigger] self.paths@[j])@, p),
        ensures
            self@.contains(p) == (r < self.paths@.len() && self.paths@[r]@ == p),
    {
        order::lemma_order(p, p);
        if self@.contains(p) {
            let i = choose|i: int| 0 <= i < self.paths@.len() && (#[trigger] self.paths@[i])@ == p;
            if i > r {
                assert(order::before(self.paths@[r]@, self.paths@[i]@));
            }
        }
    }

    /// Whether a path is in the set.
    pub fn contains(&self, p: &Path) -> (r: bool)
        requires
            self.inv(),
        ensures
            r == self@.contains(p@),
    {
        let at = self.place(p);
        proof {
            self.lemma_place(p@, at as int);
        }
        at < self.paths.len() && self.paths[at].same(p)
    }

    /// Adds a path.
    pub fn insert(&mut self, p: &Path)
        requires
            old(self).inv(),
        ensures
            final(self).inv(),
            final(self)@ == old(self)@.insert(p@),
    {
        let at = self.place(p);
        proof {
            self.lemma_place(p@, at as int);
        }
        if at < self.paths.len() && self.paths[at].same(p) {
            assert(self@ =~= self@.insert(p@));
        } else {
            let ghost before = self.paths@;
            let copy = p.copy();
            self.paths.insert(at, copy);
            proof {
                let after = self.paths@;
                assert forall|i: int, j: int| 0 <= i < j < after.len() implies order::before(
                    (#[trigger] after[i])@,
                    (#[trigger] after[j])@,
                ) by {
                    let x = if i < at {
                        i
                    } else {
                        i - 1
                    };
                    let y = if j < at {
                        j
                    } else {
                        j - 1
                    };
                    if j == at {
                        assert(after[i] == before[i]);
                    } else if i == at {
                        assert(after[j] == before[y]);
                        order::lemma_order(before[y]@, p@);
                        if before[y]@ == p@ {
                            assert(old(self)@.contains(p@));
                        }
                    } else {
                        assert(after[i] == before[x] && after[j] == before[y]);
                    }
                }
                assert forall|x: Seq<Seq<char>>| #[trigger] self@.contains(x) == old(self)@.insert(
                    p@,
                ).contains(x) by {
                    if self@.contains(x) {
                        let i = choose|i: int| 0 <= i < after.len() && (#[trigger] after[i])@ == x;
                        if i < at {
                            assert(before[i]@ == x);
                        } else if i > at {
                            assert(before[i - 1]@ == x);
                        }
                    }
                    if old(self)@.contains(x) {
                        let i = choose|i: int| 0 <= i < before.len() && (#[trigger] before[i])@ == x;
                        if i < at {
                            assert(after[i]@ == x);
                        } else {
                            assert(after[i + 1]@ == x);
                        }
                    }
                    if x == p@ {
                        assert(after[at as int]@ == x);
                    }
                }
                assert(self@ =~= old(self)@.insert(p@));
            }
        }
    }

    /// The number of paths in the set.
    pub fn count(&self) -> (r: usize)
        requires
            self.inv(),
        ensures
            self@.finite(),
            r == self@.len(),
    {
        proof {
            let s = paths_of(self.paths@);
            assert forall|i: int, j: int| 0 <= i < s.len() && 0 <= j < s.len() && i
                != j implies s[i] != s[j] by {
                order::lemma_order(s[i], s[j]);
                if i < j {
                    assert(order::before(self.paths@[i]@, self.paths@[j]@));
                } else {
                    assert(order::before(self.paths@[j]@, self.paths@[i]@));
                }
            }
            s.unique_seq_to_set();
            assert forall|x: Seq<Seq<char>>| #[trigger] self@.contains(x) == s.to_set().contains(
                x,
            ) by {
                if self@.contains(x) {
                    let i = choose|i: int| 0 <= i < s.len() && (#[trigger] self.paths@[i])@ == x;
                    assert(s[i] == x);
                }
                if s.to_set().contains(x) {
                    let i = choose|i: int| 0 <= i < s.len() && s[i] == x;
                    assert(self.paths@[i]@ == x);
                }
            }
            assert(self@ =~= s.to_set());
            s.lemma_cardinality_of_set();
        }
        self.paths.len()
    }

    /// Whether some path of the set lies at or below `p`.
    pub fn has_at_or_below(&self, p: &Path) -> (r: bool)
        requires
            self.inv(),
        ensures
            r == exists|x: Seq<Seq<char>>| #[trigger] self@.contains(x) && path::is_prefix(p@, x),
    {
        let at = self.place(p);
        let r = at < self.paths.len() && p.leads_to(&self.paths[at]);
        proof {
            if r {
                assert(self@.contains(self.paths@[at as int]@));
            } else {
                assert forall|x: Seq<Seq<char>>| #[trigger] self@.contains(x) implies
                    !path::is_prefix(p@, x) by {
                    let i = choose|i: int|
                        0 <= i < self.paths@.len() && (#[trigger] self.paths@[i])@ == x;
                    self.lemma_stretch(p@, at as int, at as int, i);
                }
            }
        }
        r
    }

    /// What lies at or below a path stands in one stretch: in front of its place is none of
    /// it, and none comes after the first that is not.
    proof fn lemma_stretch(&self, p: Seq<Seq<char>>, at: int, end: int, i: int)
        requires
            self.inv(),
            0 <= at <= end <= self.paths@.len(),
            0 <= i < self.paths@.len(),
            forall|j: int| 0 <= j < at ==> order::before((#[trigger] self.paths@[j])@, p),
            forall|j: int|
                at <= j < self.paths@.len() ==> !order::before((#[trigger] self.paths@[j])@, p),
            end < self.paths@.len() ==> !path::is_prefix(p, self.paths@[end]@),
            i < at || end <= i,
        ensures
            !path::is_prefix(p, self.paths@[i]@),
    {
        let x = self.paths@[i]@;
        if path::is_prefix(p, x) {
            if i < at {
                if p != x {
                    order::lemma_prefix_first(p, x);
                }
                order::lemma_order(p, x);
            } else if i > end {
                assert(order::before(self.paths@[end]@, x));
                order::lemma_between(p, self.paths@[end]@, x);
            }
        }
    }

    /// Takes out every path at or below `p`; with `keep_top`, `p` itself stays.
    fn drop_below(&mut self, p: &Path, keep_top: bool)
        requires
            old(self).inv(),
        ensures
            final(self).inv(),
            final(self)@ == if keep_top {
                without_strictly_below(old(self)@, p@)
            } else {
                without_below(old(self)@, p@)
            },
    {
        let at = self.place(p);
        let ghost all = self.paths@;
        let mut end: usize = at;
        while end < self.paths.len() && p.leads_to(&self.paths[end])
            invariant
                at <= end <= all.len(),
                self.paths@ == all,
                forall|j: int| at <= j < end ==> path::is_prefix(p@, (#[trigger] all[j])@),
            decreases all.len() - end,
        {
            end = end + 1;
        }
        proof {
            self.lemma_place(p@, at as int);
        }
        let mut from: usize = at;
        if keep_top && at < end && self.paths[at].same(p) {
            from = at + 1;
        }
        let mut tail = self.paths.split_off(end);
        self.paths.truncate(from);
        self.paths.append(&mut tail);
        proof {
            let kept = self.paths@;
            assert(kept =~= all.take(from as int) + all.skip(end as int));
            assert forall|i: int, j: int| 0 <= i < j < kept.len() implies order::before(
                (#[trigger] kept[i])@,
                (#[trigger] kept[j])@,
            ) by {
                let x = if i < from {
                    i
                } else {
                    i - from + end
                };
                let y = if j < from {
                    j
                } else {
                    j - from + end
                };
                assert(kept[i] == all[x] && kept[j] == all[y]);
            }
            assert forall|x: Seq<Seq<char>>| #[trigger] self@.contains(x) == (old(
                self,
            )@.contains(x) && (!path::is_prefix(p@, x) || (keep_top && x == p@))) by {
                if self@.contains(x) {
                    let i = choose|i: int| 0 <= i < kept.len() && (#[trigger] kept[i])@ == x;
                    let k = if i < from {
                        i
                    } else {
                        i - from + end
                    };
                    assert(kept[i] == all[k]);
                    assert(all[k]@ == x);
                    if k < at || end <= k {
                        old(self).lemma_stretch(p@, at as int, end as int, k);
                    }
                }
                if old(self)@.contains(x) && (!path::is_prefix(p@, x) || (keep_top && x == p@)) {
                    let k = choose|k: int| 0 <= k < all.len() && (#[trigger] all[k])@ == x;
                    if x == p@ {
                        order::lemma_order(x, x);
                        assert(all[at as int]@ == p@);
                        assert(p@.take(p@.len() as int) =~= p@);
                        assert(kept[at as int]@ == x);
                    } else if k < from {
                        assert(kept[k]@ == x);
                    } else {
                        assert(kept[k - end + from]@ == x);
                    }
                }
            }
            if keep_top {
                assert(self@ =~= without_strictly_below(old(self)@, p@));
            } else {
                assert(self@ =~= without_below(old(self)@, p@));
            }
        }
    }

    /// Takes out `p` and every path below it.
    pub fn remove_below(&mut self, p: &Path)
        requires
            old(self).inv(),
        ensures
            final(self).inv(),
            final(self)@ == without_below(old(self)@, p@),
    {
        self.drop_below(p, false);
    }

    /// Takes out every path strictly below `p`.
    pub fn remove_strictly_below(&mut self, p: &Path)
        requires
            old(self).inv(),
        ensures
            final(self).inv(),
            final(self)@ == without_strictly_below(old(self)@, p@),
    {
        self.drop_below(p, true);
    }

    /// Takes one path out.
    pub fn remove(&mut self, p: &Path)
        requires
            old(self).inv(),
        ensures
            final(self).inv(),
            final(self)@ == old(self)@.remove(p@),
    {
        let at = self.place(p);
        let ghost all = self.paths@;
        proof {
            self.lemma_place(p@, at as int);
        }
        if at < self.paths.len() && self.paths[at].same(p) {
            self.paths.remove(at);
            proof {
                let kept = self.paths@;
                assert forall|i: int, j: int| 0 <= i < j < kept.len() implies order::before(
                    (#[trigger] kept[i])@,
                    (#[trigger] kept[j])@,
                ) by {
                    let x = if i < at {
                        i
                    } else {
                        i + 1
                    };
                    let y = if j < at {
                        j
                    } else {
                        j + 1
                    };
                    assert(kept[i] == all[x] && kept[j] == all[y]);
                }
                assert forall|x: Seq<Seq<char>>| #[trigger] self@.contains(x) == old(self)@.remove(
                    p@,
                ).contains(x) by {
                    if self@.contains(x) {
                        let i = choose|i: int| 0 <= i < kept.len() && (#[trigger] kept[i])@ == x;
                        let k = if i < at {
                            i
                        } else {
                            i + 1
                        };
                        assert(kept[i] == all[k]);
                        assert(all[k]@ == x);
                        order::lemma_order(x, x);
                        if k > at {
                            assert(order::before(all[at as int]@, all[k]@));
                        }
                    }
                    if old(self)@.contains(x) && x != p@ {
                        let k = choose|k: int| 0 <= k < all.len() && (#[trigger] all[k])@ == x;
                        if k < at {
                            assert(kept[k]@ == x);
                        } else {
                            assert(kept[k - 1]@ == x);
                        }
                    }
                }
            }
        }
        assert(self@ =~= old(self)@.remove(p@));
    }

    /// Adds the sentinels that a write at `p` can have left above it, and the root if
    /// it is one.
    pub fn track_above(&mut self, tree: &Tree, p: &Path)
        requires
            old(self).inv(),
        ensures
            final(self).inv(),
            final(self)@ == old(self)@.union(sentinels_above(tree@, p@)),
    {
        let ghost s0 = self@;
        let mut i: usize = 0;
        let n = p.segments.len();
        while i < n
            invariant
                i <= n == p@.len(),
                self.inv(),
                self@ == s0.union(
                    Set::new(
                        |x: Seq<Seq<char>>|
                            shape::sentinel_at(tree@, x) && path::is_prefix(x, p@) && x.len() < i,
                    ),
                ),
            decreases n - i,
        {
            let above = p.take(i);
            let ghost before = self@;
            if tree.sentinel_at(&above) {
                self.insert(&above);
            }
            proof {
                let grown = Set::new(
                    |x: Seq<Seq<char>>|
                        shape::sentinel_at(tree@, x) && path::is_prefix(x, p@) && x.len() < i + 1,
                );
                assert forall|x: Seq<Seq<char>>| self@.contains(x) == s0.union(grown).contains(
                    x,
                ) by {
                    if path::is_prefix(x, p@) && x.len() == i {
                        assert(x =~= above@);
                    }
                }
                assert(self@ =~= s0.union(grown));
            }
            i = i + 1;
        }
        let root = Path::root();
        if tree.sentinel_at(&root) {
            self.insert(&root);
        }
        proof {
            assert forall|x: Seq<Seq<char>>| self@.contains(x) == s0.union(
                sentinels_above(tree@, p@),
            ).contains(x) by {
                if x.len() == 0 {
                    assert(x =~= root@);
                }
            }
            assert(self@ =~= s0.union(sentinels_above(tree@, p@)));
        }
    }

    /// Adds the paths of all sentinels of a node that stands at `p`.
    pub fn collect(&mut self, n: &Node, p: &Path)
        requires
            old(self).inv(),
        ensures
            final(self).inv(),
            final(self)@ == old(self)@.union(sentinels_in(n@, p@)),
        decreases n,
    {
        let ghost s0 = self@;
        match n {
            Node::Sentinel(children) => {
                assert(decreases_to!(*n => n->Sentinel_0));
                self.insert(p);
                self.collect_children(children, p);
            },
            Node::Object(children) => {
                assert(decreases_to!(*n => n->Object_0));
                self.collect_children(children, p);
            },
            _ => {},
        }
        proof {
            assert forall|x: Seq<Seq<char>>| self@.contains(x) == s0.union(
                sentinels_in(n@, p@),
            ).contains(x) by {
                let s = x.skip(p@.len() as int);
                assert(p@.take(p@.len() as int) =~= p@);
                assert(p@.skip(p@.len() as int) =~= Seq::<Seq<char>>::empty());
                if path::is_prefix(p@, x) {
                    if x.len() == p@.len() {
                        assert(x.take(p@.len() as int) =~= x);
                        assert(s =~= Seq::<Seq<char>>::empty());
                    } else {
                        let k = x[p@.len() as int];
                        assert(s[0] == k);
                        assert(s.drop_first() =~= x.skip(p@.len() as int + 1));
                        assert(path::is_prefix(p@.push(k), x)) by {
                            assert(x.take(p@.len() as int + 1) =~= p@.push(k));
                        }
                    }
                }
            }
            assert(self@ =~= s0.union(sentinels_in(n@, p@)));
        }
    }

    /// Adds the paths of all sentinels below `p` in a list of children.
    fn collect_children(&mut self, children: &Vec<Child>, p: &Path)
        requires
            old(self).inv(),
        ensures
            final(self).inv(),
            forall|x: Seq<Seq<char>>| #[trigger]
                final(self)@.contains(x) <==> old(self)@.contains(x) || (path::is_prefix(p@, x)
                    && x.len() > p@.len() && node::children_map(children@).contains_key(
                    x[p@.len() as int],
                ) && shape::sentinel_at(
                    node::children_map(children@)[x[p@.len() as int]],
                    x.skip(p@.len() as int + 1),
                )),
        decreases children,
    {
        let ghost s0 = self@;
        let mut i: usize = 0;
        while i < children.len()
            invariant
                i <= children@.len(),
                s0 == old(self)@,
                self.inv(),
                forall|x: Seq<Seq<char>>| #[trigger]
                    self@.contains(x) <==> s0.contains(x) || in_first(children@, i as int, p@, x),
            decreases children@.len() - i,
        {
            let ghost before = self@;
            let key = children[i].key.as_str();
            let found = find_child(children, key);
            let counts = match found {
                Some(j) => j == i,
                None => false,
            };
            proof {
                if node::last_for_key(children@, key@, i as int) {
                    node::lemma_last_for_key(children@, key@, i as int);
                    let j = found->0;
                    assert(children@[j as int].key@ == key@);
                    assert(children@[i as int].key@ == key@);
                }
            }
            assert(counts == node::last_for_key(children@, key@, i as int));
            if counts {
                let below = p.child(key);
                self.collect(&children[i].node, &below);
            }
            proof {
                assert forall|x: Seq<Seq<char>>| #[trigger] self@.contains(x) <==> s0.contains(x)
                    || in_first(children@, i + 1, p@, x) by {
                    lemma_in_first_step(children@, i as int, p@, x);
                    if counts {
                        if path::is_prefix(p@.push(key@), x) {
                            assert(x.take(p@.len() as int + 1)[p@.len() as int] == key@);
                        }
                    }
                }
            }
            i = i + 1;
        }
        proof {
            assert forall|x: Seq<Seq<char>>| #[trigger] self@.contains(x) <==> s0.contains(x) || (
            path::is_prefix(p@, x) && x.len() > p@.len() && node::children_map(
                children@,
            ).contains_key(x[p@.len() as int]) && shape::sentinel_at(
                node::children_map(children@)[x[p@.len() as int]],
                x.skip(p@.len() as int + 1),
            )) by {
                lemma_in_first_all(children@, p@, x);
            }
        }
    }
}

/// Whether `x` is a sentinel below `p` in a counting entry among the first `n` children.
pub open spec fn in_first(s: Seq<Child>, n: int, p: Seq<Seq<char>>, x: Seq<Seq<char>>) -> bool {
    exists|j: int|
        0 <= j < n && #[trigger] node::last_for_key(s, s[j].key@, j) && path::is_prefix(
            p.push(s[j].key@),
            x,
        ) && shape::sentinel_at(s[j].node@, x.skip(p.len() as int + 1))
}

/// One more child.
pub proof fn lemma_in_first_step(s: Seq<Child>, n: int, p: Seq<Seq<char>>, x: Seq<Seq<char>>)
    requires
        0 <= n < s.len(),
    ensures
        in_first(s, n + 1, p, x) <==> in_first(s, n, p, x) || (node::last_for_key(
            s,
            s[n].key@,
            n,
        ) && path::is_prefix(p.push(s[n].key@), x) && shape::sentinel_at(
            s[n].node@,
            x.skip(p.len() as int + 1),
        )),
{
    if in_first(s, n, p, x) {
        let j = choose|j: int|
            0 <= j < n && #[trigger] node::last_for_key(s, s[j].key@, j) && path::is_prefix(
                p.push(s[j].key@),
                x,
            ) && shape::sentinel_at(s[j].node@, x.skip(p.len() as int + 1));
        assert(node::last_for_key(s, s[j].key@, j));
    }
    if in_first(s, n + 1, p, x) {
        let j = choose|j: int|
            0 <= j < n + 1 && #[trigger] node::last_for_key(s, s[j].key@, j) && path::is_prefix(
                p.push(s[j].key@),
                x,
            ) && shape::sentinel_at(s[j].node@, x.skip(p.len() as int + 1));
        if j < n {
            assert(node::last_for_key(s, s[j].key@, j));
        }
    }
}

/// All children.
pub proof fn lemma_in_first_all(s: Seq<Child>, p: Seq<Seq<char>>, x: Seq<Seq<char>>)
    ensures
        in_first(s, s.len() as int, p, x) <==> path::is_prefix(p, x) && x.len() > p.len()
            && node::children_map(s).contains_key(x[p.len() as int]) && shape::sentinel_at(
            node::children_map(s)[x[p.len() as int]],
            x.skip(p.len() as int + 1),
        ),
{
    if in_first(s, s.len() as int, p, x) {
        let j = choose|j: int|
            0 <= j < s.len() && #[trigger] node::last_for_key(s, s[j].key@, j) && path::is_prefix(
                p.push(s[j].key@),
                x,
            ) && shape::sentinel_at(s[j].node@, x.skip(p.len() as int + 1));
        let k = s[j].key@;
        node::lemma_last_for_key(s, k, j);
        assert(x.take(p.len() as int + 1)[p.len() as int] == k);
        assert(x.take(p.len() as int) =~= x.take(p.len() as int + 1).take(p.len() as int));
        assert(p.push(k).take(p.len() as int) =~= p);
    }
    if path::is_prefix(p, x) && x.len() > p.len() && node::children_map(s).contains_key(
        x[p.len() as int],
    ) && shape::sentinel_at(
        node::children_map(s)[x[p.len() as int]],
        x.skip(p.len() as int + 1),
    ) {
        let k = x[p.len() as int];
        node::lemma_key_present(s, k);
        let j = choose|j: int| node::last_for_key(s, k, j);
        node::lemma_last_for_key(s, k, j);
        assert(x.take(p.len() as int + 1) =~= p.push(k));
        assert(node::last_for_key(s, s[j].key@, j));
    }
}

/// The sentinels of a tree that are missing from a set of known paths.
pub fn untracked(tree: &Tree, known: &PathSet) -> (r: Vec<Path>)
    requires
        known.inv(),
    ensures
        forall|p: Seq<Seq<char>>| #[trigger]
            listed(r@).contains(p) <==> shape::sentinel_at(tree@, p) && !known@.contains(p),
{
    let mut all = PathSet::new();
    let root = Path::root();
    all.collect(&tree.root, &root);
    proof {
        assert forall|x: Seq<Seq<char>>| #[trigger] all@.contains(x) <==> shape::sentinel_at(
            tree@,
            x,
        ) by {
            assert(x.take(0) =~= root@);
            assert(x.skip(0) =~= x);
        }
    }
    let mut out: Vec<Path> = Vec::new();
    let mut i: usize = 0;
    while i < all.paths.len()
        invariant
            i <= all.paths@.len(),
            known.inv(),
            forall|x: Seq<Seq<char>>| #[trigger]
                listed(out@).contains(x) <==> listed(all.paths@.take(i as int)).contains(x)
                    && !known@.contains(x),
        decreases all.paths@.len() - i,
    {
        proof {
            assert(all.paths@.take(i + 1) =~= all.paths@.take(i as int).push(
                all.paths@[i as int],
            ));
            lemma_listed_push(all.paths@.take(i as int), all.paths@[i as int]);
        }
        if !known.contains(&all.paths[i]) {
            let copy = all.paths[i].copy();
            proof {
                lemma_listed_push(out@, copy);
            }
            out.push(copy);
        }
        i = i + 1;
    }
    assert(all.paths@.take(i as int) =~= all.paths@);
    out
}

impl Database {
    /// The paths of the sentinels in the tree that are not on record, as texts, each once.
    /// There are none while the invariant of the database holds.
    pub fn find_sentinel_tracking_violations(&self) -> (r: Vec<String>)
        requires
            self.store.sentinel_paths.inv(),
        ensures
            forall|t: Seq<char>| #[trigger]
                text::texts(r@).contains(t) <==> exists|p: Seq<Seq<char>>|
                    #![trigger path::path_text(p)]
                    path::path_text(p) == t && shape::sentinel_at(self.store.tree@, p)
                        && !self.store.sentinel_paths@.contains(p),
            text::texts(r@).no_duplicates(),
            (r@.len() == 0) == all_tracked(self.store.tree@, self.store.sentinel_paths@),
            self.inv() ==> r@.len() == 0,
    {
        let missing = untracked(&self.store.tree, &self.store.sentinel_paths);
        let mut out: Vec<String> = Vec::new();
        let mut i: usize = 0;
        while i < missing.len()
            invariant
                i <= missing@.len(),
                text::texts(out@).no_duplicates(),
                forall|t: Seq<char>| #[trigger]
                    text::texts(out@).contains(t) <==> exists|j: int|
                        0 <= j < i && path::path_text((#[trigger] missing@[j])@) == t,
            decreases missing@.len() - i,
        {
            let ghost before = text::texts(out@);
            list_once(&mut out, missing[i].to_text());
            proof {
                assert forall|t: Seq<char>| #[trigger]
                    text::texts(out@).contains(t) <==> exists|j: int|
                        0 <= j < i + 1 && path::path_text((#[trigger] missing@[j])@) == t by {
                    if before.contains(t) {
                        let j = choose|j: int|
                            0 <= j < i && path::path_text((#[trigger] missing@[j])@) == t;
                        assert(path::path_text(missing@[j]@) == t);
                    }
                    if t == path::path_text(missing@[i as int]@) {
                        assert(path::path_text(missing@[i as int]@) == t);
                    }
                }
            }
            i = i + 1;
        }
        proof {
            let ts = text::texts(out@);
            assert forall|t: Seq<char>| #[trigger] ts.contains(t) implies exists|p: Seq<Seq<char>>|
                #![trigger path::path_text(p)]
                path::path_text(p) == t && shape::sentinel_at(self.store.tree@, p)
                    && !self.store.sentinel_paths@.contains(p) by {
                let j = choose|j: int|
                    0 <= j < missing@.len() && path::path_text((#[trigger] missing@[j])@) == t;
                let p = missing@[j]@;
                assert(listed(missing@).contains(p));
                assert(path::path_text(p) == t);
            }
            assert forall|p: Seq<Seq<char>>|
                shape::sentinel_at(self.store.tree@, p) && !self.store.sentinel_paths@.contains(
                    p,
                ) implies ts.contains(#[trigger] path::path_text(p)) by {
                assert(listed(missing@).contains(p));
                let j = choose|j: int| 0 <= j < missing@.len() && (#[trigger] missing@[j])@ == p;
                assert(path::path_text(missing@[j]@) == path::path_text(p));
            }
            if out@.len() > 0 {
                assert(ts.contains(ts[0]));
            } else {
                assert forall|p: Seq<Seq<char>>| #[trigger] shape::sentinel_at(
                    self.store.tree@,
                    p,
                ) implies self.store.sentinel_paths@.contains(p) by {
                    if !self.store.sentinel_paths@.contains(p) {
                        assert(ts.contains(path::path_text(p)));
                    }
                }
            }
        }
        out
    }
}

} // verus!
