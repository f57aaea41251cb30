//! How large a tree node is, roughly, in bytes.
use crate::node;
use crate::node::{find_child, Child, Node};
use crate::path::bytes_in;
use crate::shape::Shape;
use crate::text;
use crate::value;
use crate::value::estimate_value_bytes;
use vstd::prelude::*;

verus! {

broadcast use vstd::string::group_string_axioms;

/// The sum of the sizes of children and the sizes of their keys.
pub open spec fn sum_sizes(sizes: Map<Seq<char>, nat>) -> nat {
    sizes.dom().fold(0nat, size_step(sizes))
}

/// Adds the size of a child and its key.
pub open spec fn size_step(sizes: Map<Seq<char>, nat>) -> spec_fn(nat, Seq<char>) -> nat {
    |acc: nat, k: Seq<char>| (acc + text::byte_len(k) + sizes[k]) as nat
}

/// What the size of a node is made of: a number, or the sizes of its children.
pub ghost enum Extent {
    Leaf(nat),
    Kids(Map<Seq<char>, nat>),
}

/// The size that something is made up to.
pub open spec fn total(e: Extent) -> nat {
    match e {
        Extent::Leaf(n) => n,
        Extent::Kids(sizes) => 8 + sum_sizes(sizes),
    }
}

/// What the size of a node is made of.
pub open spec fn extent(n: Shape) -> Extent
    decreases n,
{
    match n {
        Shape::Null => Extent::Leaf(4),
        Shape::Bool(_) => Extent::Leaf(4),
        Shape::Number(_) => Extent::Leaf(8),
        Shape::String(s) => Extent::Leaf(text::byte_len(s)),
        Shape::Array(items) => Extent::Leaf(
            8 + value::items_weight(items, items.len() as int),
        ),
        Shape::Object(m) => Extent::Kids(
            Map::new(
                |k: Seq<char>| m.contains_key(k),
                |k: Seq<char>|
                    if m.contains_key(k) {
                        total(extent(m[k]))
                    } else {
                        0
                    },
            ),
        ),
        Shape::Sentinel(m) => Extent::Kids(
            Map::new(
                |k: Seq<char>| m.contains_key(k),
                |k: Seq<char>|
                    if m.contains_key(k) {
                        total(extent(m[k]))
                    } else {
                        0
                    },
            ),
        ),
    }
}

/// A rough size of a node: that of its leaves and keys.
pub open spec fn shape_size(n: Shape) -> nat {
    total(extent(n))
}

/// The sizes of children.
pub open spec fn kid_sizes(m: Map<Seq<char>, Shape>) -> Map<Seq<char>, nat> {
    Map::new(|k: Seq<char>| m.contains_key(k), |k: Seq<char>| shape_size(m[k]))
}

/// A container is as large as its children and their keys.
pub proof fn lemma_container_size(m: Map<Seq<char>, Shape>)
    ensures
        shape_size(Shape::Object(m)) == 8 + sum_sizes(kid_sizes(m)),
        shape_size(Shape::Sentinel(m)) == 8 + sum_sizes(kid_sizes(m)),
{
    assert(extent(Shape::Object(m))->Kids_0 =~= kid_sizes(m));
    assert(extent(Shape::Sentinel(m))->Kids_0 =~= kid_sizes(m));
}

/// The keys whose counting entry is among the first `n`.
pub open spec fn keys_up_to(s: Seq<Child>, n: int) -> Set<Seq<char>> {
    Set::new(|k: Seq<char>| exists|j: int| j < n && #[trigger] node::last_for_key(s, k, j))
}

/// One more entry adds its key if it counts.
pub proof fn lemma_keys_step(s: Seq<Child>, n: int)
    requires
        0 <= n < s.len(),
    ensures
        keys_up_to(s, n + 1) == if node::last_for_key(s, s[n].key@, n) {
            keys_up_to(s, n).insert(s[n].key@)
        } else {
            keys_up_to(s, n)
        },
        !keys_up_to(s, n).contains(s[n].key@),
{
    let k0 = s[n].key@;
    if keys_up_to(s, n).contains(k0) {
        let j = choose|j: int| j < n && #[trigger] node::last_for_key(s, k0, j);
        assert(s[n].key@ != k0);
    }
    let grown = keys_up_to(s, n + 1);
    let wanted = if node::last_for_key(s, k0, n) {
        keys_up_to(s, n).insert(k0)
    } else {
        keys_up_to(s, n)
    };
    assert forall|k: Seq<char>| grown.contains(k) == wanted.contains(k) by {
        if grown.contains(k) {
            let j = choose|j: int| j < n + 1 && #[trigger] node::last_for_key(s, k, j);
            if j == n {
                assert(k == k0);
            } else {
                assert(keys_up_to(s, n).contains(k));
            }
        }
        if wanted.contains(k) && k == k0 && node::last_for_key(s, k0, n) {
            assert(node::last_for_key(s, k, n));
        }
        if keys_up_to(s, n).contains(k) {
            let j = choose|j: int| j < n && #[trigger] node::last_for_key(s, k, j);
            assert(j < n + 1 && node::last_for_key(s, k, j));
        }
    }
    assert(grown =~= wanted);
}

/// All entries together list the keys of the children.
pub proof fn lemma_keys_all(s: Seq<Child>)
    ensures
        keys_up_to(s, s.len() as int) == node::children_map(s).dom(),
{
    let m = node::children_map(s);
    assert forall|k: Seq<char>| keys_up_to(s, s.len() as int).contains(k) == m.dom().contains(
        k,
    ) by {
        if keys_up_to(s, s.len() as int).contains(k) {
            let j = choose|j: int| j < s.len() && #[trigger] node::last_for_key(s, k, j);
            node::lemma_last_for_key(s, k, j);
        }
        if m.dom().contains(k) {
            node::lemma_key_present(s, k);
            let j = choose|j: int| #[trigger] node::last_for_key(s, k, j);
            assert(j < s.len());
        }
    }
    assert(keys_up_to(s, s.len() as int) =~= m.dom());
}

/// A rough size of a node in bytes.
pub fn estimate_node_bytes(n: &Node) -> (r: usize)
    ensures
        r == value::held(shape_size(n@)),
    decreases n,
{
    match n {
        Node::Null => 4,
        Node::Bool(_) => 4,
        Node::Number(_) => 8,
        Node::String(s) => bytes_in(s.as_str()),
        Node::Array(items) => {
            let mut sum: usize = 0;
            let mut i: usize = 0;
            let ghost js = value::items_json(items@);
            while i < items.len()
                invariant
                    i <= items@.len(),
                    js == value::items_json(items@),
                    sum == value::held(value::items_weight(js, i as int)),
                decreases items@.len() - i,
            {
                assert(js[i as int] == items@[i as int]@);
                sum = sum.saturating_add(estimate_value_bytes(&items[i]));
                i = i + 1;
            }
            sum.saturating_add(8)
        },
        Node::Object(children) => {
            assert(decreases_to!(*n => n->Object_0));
            proof {
                lemma_container_size(node::children_map(children@));
            }
            children_bytes(children).saturating_add(8)
        },
        Node::Sentinel(children) => {
            assert(decreases_to!(*n => n->Sentinel_0));
            proof {
                lemma_container_size(node::children_map(children@));
            }
            children_bytes(children).saturating_add(8)
        },
    }
}

/// A rough size of the children of a container and their keys.
fn children_bytes(children: &Vec<Child>) -> (r: usize)
    ensures
        ({
            let m = node::children_map(children@);
            r == value::held(sum_sizes(kid_sizes(m)))
        }),
    decreases children,
{
    let ghost s = children@;
    let ghost m = node::children_map(s);
    let ghost sizes = kid_sizes(m);
    let ghost f = size_step(sizes);
    let mut sum: usize = 0;
    let mut i: usize = 0;
    proof {
        assert(keys_up_to(s, 0) =~= Set::empty()) by {
            assert forall|k: Seq<char>| !keys_up_to(s, 0).contains(k) by {
                if keys_up_to(s, 0).contains(k) {
                    let j = choose|j: int| j < 0 && #[trigger] node::last_for_key(s, k, j);
                }
            }
        }
        vstd::set::fold::lemma_fold_empty::<Seq<char>, nat>(0nat, f);
    }
    while i < children.len()
        invariant
            i <= children@.len(),
            s == children@,
            m == node::children_map(s),
            sizes == kid_sizes(m),
            f == size_step(sizes),
            keys_up_to(s, i as int).finite(),
            sum == value::held(keys_up_to(s, i as int).fold(0nat, f)),
            decreases_to!(*children => s),
        decreases children@.len() - i,
    {
        let ghost before = keys_up_to(s, i as int);
        let ghost k = s[i as int].key@;
        proof {
            lemma_keys_step(s, i as int);
        }
        let counts = match find_child(children, children[i].key.as_str()) {
            Some(j) => j == i,
            None => false,
        };
        if counts {
            proof {
                node::lemma_last_for_key(s, k, i as int);
                assert(vstd::set::fold::is_fun_commutative(f));
                vstd::set::fold::lemma_fold_insert(before, 0nat, f, k);
                assert(decreases_to!(s => s[i as int]));
                assert(decreases_to!(s[i as int] => s[i as int].node));
            }
            let size = estimate_node_bytes(&children[i].node);
            let with_key = bytes_in(children[i].key.as_str()).saturating_add(size);
            sum = sum.saturating_add(with_key);
        } else {
            proof {
                if node::last_for_key(s, k, i as int) {
                    node::lemma_last_for_key(s, k, i as int);
                    let j = choose|j: int| node::last_for_key(s, k, j) && j != i;
                    assert(s[i as int].key@ == k && s[j].key@ == k);
                }
            }
        }
        i = i + 1;
    }
    proof {
        lemma_keys_all(s);
        assert(sizes.dom() =~= m.dom());
    }
    sum
}

/// Sums over keys whose sizes are the same are the same.
proof fn lemma_sums_agree(s: Set<Seq<char>>, a: Map<Seq<char>, nat>, b: Map<Seq<char>, nat>)
    requires
        s.finite(),
        forall|k: Seq<char>| #[trigger] s.contains(k) ==> a[k] == b[k],
    ensures
        s.fold(0nat, size_step(a)) == s.fold(0nat, size_step(b)),
    decreases s.len(),
{
    let f = size_step(a);
    let g = size_step(b);
    if s.len() == 0 {
        assert(s =~= Set::empty());
        vstd::set::fold::lemma_fold_empty::<Seq<char>, nat>(0nat, f);
        vstd::set::fold::lemma_fold_empty::<Seq<char>, nat>(0nat, g);
    } else {
        let k = s.choose();
        let rest = s.remove(k);
        lemma_sums_agree(rest, a, b);
        assert(rest.insert(k) =~= s);
        assert(vstd::set::fold::is_fun_commutative(f));
        assert(vstd::set::fold::is_fun_commutative(g));
        vstd::set::fold::lemma_fold_insert(rest, 0nat, f, k);
        vstd::set::fold::lemma_fold_insert(rest, 0nat, g, k);
        assert(s.contains(k));
    }
}

/// What a leaf takes: nothing and a boolean 4 bytes, a number 8, a text its length in UTF-8,
/// an array as much as the value; and an empty container 8.
pub proof fn law_size_of_leaves(n: Shape)
    ensures
        n is Null || n is Bool ==> shape_size(n) == 4,
        n is Number ==> shape_size(n) == 8,
        n matches Shape::String(s) ==> shape_size(n) == vstd::utf8::encode_utf8(s).len(),
        n matches Shape::Array(items) ==> shape_size(n) == value::weight(
            value::Json::Array(items),
        ),
        shape_size(Shape::Object(Map::empty())) == 8,
        shape_size(Shape::Sentinel(Map::empty())) == 8,
{
    let none = Map::<Seq<char>, Shape>::empty();
    lemma_container_size(none);
    let sizes = kid_sizes(none);
    assert(sizes.dom() =~= Set::empty());
    vstd::set::fold::lemma_fold_empty::<Seq<char>, nat>(0nat, size_step(sizes));
}

/// Every child adds its own size and that of its key to a container, loaded in full or not.
pub proof fn law_size_adds_up(m: Map<Seq<char>, Shape>, k: Seq<char>, c: Shape)
    requires
        m.dom().finite(),
        !m.contains_key(k),
    ensures
        shape_size(Shape::Object(m.insert(k, c))) == shape_size(Shape::Object(m))
            + vstd::utf8::encode_utf8(k).len() + shape_size(c),
        shape_size(Shape::Sentinel(m)) == shape_size(Shape::Object(m)),
{
    let more = m.insert(k, c);
    lemma_container_size(m);
    lemma_container_size(more);
    let a = kid_sizes(m);
    let b = kid_sizes(more);
    assert(a.dom() =~= m.dom());
    assert(b.dom() =~= m.dom().insert(k));
    assert forall|x: Seq<char>| #[trigger] m.dom().contains(x) implies a[x] == b[x] by {
        assert(m.contains_key(x));
        assert(more[x] == m[x]);
    }
    lemma_sums_agree(m.dom(), a, b);
    assert(vstd::set::fold::is_fun_commutative(size_step(b)));
    vstd::set::fold::lemma_fold_insert(m.dom(), 0nat, size_step(b), k);
}

} // verus!
