//! Tree nodes: the executable side of the tree model.
use crate::path::Path;
use crate::shape;
use crate::shape::Shape;
use crate::text::same_text;
use crate::value;
use crate::value::{JsonValue, Member};
use vstd::prelude::*;

verus! {

broadcast use vstd::string::group_string_axioms;

/// A node of the data tree.
pub enum Node {
    Null,
    Bool(bool),
    Number(serde_json::Number),
    String(String),
    Array(Vec<JsonValue>),
    /// A container whose children are all listed.
    Object(Vec<Child>),
    /// A container of which only the listed children are known.
    Sentinel(Vec<Child>),
}

/// A keyed child of a container. Where a key is listed twice, the later entry counts.
pub struct Child {
    pub key: String,
    pub node: Node,
}

/// The children that a list of entries stands for.
pub open spec fn children_map(s: Seq<Child>) -> Map<Seq<char>, Shape>
    decreases s,
{
    if s.len() == 0 {
        Map::empty()
    } else {
        children_map(s.drop_last()).insert(s.last().key@, s.last().node.shape())
    }
}

impl Node {
    /// The meaning of this node.
    pub open spec fn shape(self) -> Shape
        decreases self,
    {
        match self {
            Node::Null => Shape::Null,
            Node::Bool(b) => Shape::Bool(b),
            Node::Number(n) => Shape::Number(n),
            Node::String(s) => Shape::String(s@),
            Node::Array(items) => Shape::Array(value::items_json(items@)),
            Node::Object(c) => Shape::Object(children_map(c@)),
            Node::Sentinel(c) => Shape::Sentinel(children_map(c@)),
        }
    }
}

impl View for Node {
    type V = Shape;

    open spec fn view(&self) -> Shape {
        self.shape()
    }
}

/// Whether entry `i` is the one that counts for its key.
pub open spec fn last_for_key(s: Seq<Child>, k: Seq<char>, i: int) -> bool {
    0 <= i < s.len() && s[i].key@ == k && forall|j: int| i < j < s.len() ==> #[trigger] s[j].key@ != k
}

/// The entry that counts for a key holds the child under that key.
pub proof fn lemma_last_for_key(s: Seq<Child>, k: Seq<char>, i: int)
    requires
        last_for_key(s, k, i),
    ensures
        children_map(s).contains_key(k),
        children_map(s)[k] == s[i].node.shape(),
    decreases s.len(),
{
    if i < s.len() - 1 {
        assert(s.last().key@ != k);
        assert(last_for_key(s.drop_last(), k, i));
        lemma_last_for_key(s.drop_last(), k, i);
    }
}

/// A key that no entry has is no child.
pub proof fn lemma_key_missing(s: Seq<Child>, k: Seq<char>)
    requires
        forall|j: int| 0 <= j < s.len() ==> #[trigger] s[j].key@ != k,
    ensures
        !children_map(s).contains_key(k),
    decreases s.len(),
{
    if s.len() > 0 {
        assert(s.last().key@ != k);
        assert forall|j: int| 0 <= j < s.drop_last().len() implies #[trigger] s.drop_last()[j].key@
            != k by {
            assert(s[j].key@ != k);
        }
        lemma_key_missing(s.drop_last(), k);
    }
}

/// A child has an entry.
pub proof fn lemma_key_present(s: Seq<Child>, k: Seq<char>)
    requires
        children_map(s).contains_key(k),
    ensures
        exists|i: int| #[trigger] last_for_key(s, k, i),
    decreases s.len(),
{
    if s.len() > 0 {
        if s.last().key@ == k {
            assert(last_for_key(s, k, s.len() - 1));
        } else {
            lemma_key_present(s.drop_last(), k);
            let i = choose|i: int| last_for_key(s.drop_last(), k, i);
            assert forall|j: int| i < j < s.len() implies #[trigger] s[j].key@ != k by {
                if j < s.len() - 1 {
                    assert(s.drop_last()[j].key@ != k);
                }
            }
            assert(last_for_key(s, k, i));
        }
    }
}

/// Taking an entry out changes nothing about other keys.
pub proof fn lemma_remove_entry(s: Seq<Child>, i: int)
    requires
        0 <= i < s.len(),
    ensures
        children_map(s.remove(i)).remove(s[i].key@) == children_map(s).remove(s[i].key@),
    decreases s.len(),
{
    let k = s[i].key@;
    if i == s.len() - 1 {
        assert(s.remove(i) =~= s.drop_last());
    } else {
        lemma_remove_entry(s.drop_last(), i);
        assert(s.remove(i).drop_last() =~= s.drop_last().remove(i));
        assert(s.remove(i).last() == s.last());
        assert(s.drop_last()[i] == s[i]);
        let a = children_map(s.drop_last().remove(i));
        let b = children_map(s.drop_last());
        let key = s.last().key@;
        let node = s.last().node.shape();
        assert(s.remove(i).len() > 0);
        assert(children_map(s.remove(i)) == a.insert(key, node));
        assert(children_map(s) == b.insert(key, node));
        if key == k {
            assert(a.insert(key, node).remove(k) =~= a.remove(k));
            assert(b.insert(key, node).remove(k) =~= b.remove(k));
        } else {
            assert(a.insert(key, node).remove(k) =~= a.remove(k).insert(key, node));
            assert(b.insert(key, node).remove(k) =~= b.remove(k).insert(key, node));
        }
    }
}

/// Position of the entry that counts for a key.
pub fn find_child(children: &Vec<Child>, key: &str) -> (r: Option<usize>)
    ensures
        match r {
            Some(i) => last_for_key(children@, key@, i as int) && children_map(
                children@,
            ).contains_key(key@) && children_map(children@)[key@] == children@[i as int].node@,
            None => !children_map(children@).contains_key(key@),
        },
{
    let mut i: usize = children.len();
    while i > 0
        invariant
            i <= children@.len(),
            forall|j: int| i <= j < children@.len() ==> #[trigger] children@[j].key@ != key@,
        decreases i,
    {
        i = i - 1;
        if same_text(children[i].key.as_str(), key) {
            proof {
                lemma_last_for_key(children@, key@, i as int);
            }
            return Some(i);
        }
    }
    proof {
        lemma_key_missing(children@, key@);
    }
    None
}

/// Puts a child under a key, in place of any that was there.
pub fn insert_child(children: Vec<Child>, key: &str, node: Node) -> (r: Vec<Child>)
    ensures
        children_map(r@) == children_map(children@).insert(key@, node@),
{
    let mut out = children;
    let ghost s0 = out@;
    match find_child(&out, key) {
        Some(i) => {
            let _ = out.remove(i);
            proof {
                lemma_remove_entry(s0, i as int);
            }
        },
        None => {},
    }
    let ghost s1 = out@;
    out.push(Child { key: key.to_owned(), node });
    proof {
        assert(out@.drop_last() =~= s1);
        assert(children_map(s1).remove(key@) =~= children_map(s0).remove(key@));
        assert(children_map(out@) =~= children_map(s0).insert(key@, node@)) by {
            assert(children_map(s1).insert(key@, node@) =~= children_map(s1).remove(key@).insert(
                key@,
                node@,
            ));
            assert(children_map(s0).insert(key@, node@) =~= children_map(s0).remove(key@).insert(
                key@,
                node@,
            ));
        }
    }
    out
}

/// Takes the child under a key away.
pub fn remove_child(children: Vec<Child>, key: &str) -> (r: Vec<Child>)
    ensures
        children_map(r@) == children_map(children@).remove(key@),
{
    let mut out = children;
    let ghost m0 = children_map(out@);
    let mut found = find_child(&out, key);
    while found.is_some()
        invariant
            children_map(out@).remove(key@) == m0.remove(key@),
            match found {
                Some(i) => last_for_key(out@, key@, i as int),
                None => !children_map(out@).contains_key(key@),
            },
        decreases out@.len(),
    {
        let ghost before = out@;
        match found {
            Some(i) => {
                let _ = out.remove(i);
                proof {
                    lemma_remove_entry(before, i as int);
                }
            },
            None => {},
        }
        found = find_child(&out, key);
    }
    assert(children_map(out@) =~= children_map(out@).remove(key@));
    out
}

impl Node {
    /// An empty container of which nothing is known.
    pub fn empty_sentinel() -> (r: Node)
        ensures
            r@ == Shape::Sentinel(Map::empty()),
    {
        Node::Sentinel(Vec::new())
    }

    /// Whether this is a container that is not fully known.
    pub fn is_sentinel(&self) -> (r: bool)
        ensures
            r == (self@ is Sentinel),
    {
        matches!(self, Node::Sentinel(_))
    }

    /// Whether this is a fully known container.
    pub fn is_object(&self) -> (r: bool)
        ensures
            r == (self@ is Object),
    {
        matches!(self, Node::Object(_))
    }

    /// Whether this is null.
    pub fn is_null(&self) -> (r: bool)
        ensures
            r == (self@ is Null),
    {
        matches!(self, Node::Null)
    }

    /// The node at the segments `path[from..]` below this one.
    pub fn get(&self, path: &Path, from: usize) -> (r: Option<&Node>)
        requires
            from <= path@.len(),
        ensures
            match r {
                Some(n) => shape::at(self@, path@.skip(from as int)) == Some(n@),
                None => shape::at(self@, path@.skip(from as int)) is None,
            },
        decreases path@.len() - from,
    {
        let ghost rest = path@.skip(from as int);
        if from == path.segments.len() {
            return Some(self);
        }
        let key = path.segments[from].as_str();
        assert(rest[0] == key@);
        assert(rest.drop_first() =~= path@.skip(from + 1));
        match self {
            Node::Object(children) => match find_child(children, key) {
                Some(i) => children[i].node.get(path, from + 1),
                None => None,
            },
            Node::Sentinel(children) => match find_child(children, key) {
                Some(i) => children[i].node.get(path, from + 1),
                None => None,
            },
            _ => None,
        }
    }

    /// This node with `leaf` at the segments `path[from..]`.
    pub fn put(self, path: &Path, from: usize, leaf: Node, lazy: bool) -> (r: Node)
        requires
            from <= path@.len(),
        ensures
            r@ == shape::put(self@, path@.skip(from as int), leaf@, lazy),
        decreases path@.len() - from,
    {
        let ghost rest = path@.skip(from as int);
        if from == path.segments.len() {
            return leaf;
        }
        let key = path.segments[from].as_str();
        assert(rest[0] == key@);
        assert(rest.drop_first() =~= path@.skip(from + 1));
        match self {
            Node::Object(children) => {
                Node::Object(put_in_children(children, path, from, leaf, lazy))
            },
            Node::Sentinel(children) => {
                Node::Sentinel(put_in_children(children, path, from, leaf, lazy))
            },
            _ => {
                let children = put_in_children(Vec::new(), path, from, leaf, lazy);
                if lazy {
                    Node::Sentinel(children)
                } else {
                    Node::Object(children)
                }
            },
        }
    }

    /// This node without anything at the segments `path[from..]`.
    pub fn cut(self, path: &Path, from: usize) -> (r: Node)
        requires
            from <= path@.len(),
        ensures
            r@ == shape::cut(self@, path@.skip(from as int)),
        decreases path@.len() - from,
    {
        let ghost rest = path@.skip(from as int);
        if from == path.segments.len() {
            return Node::Null;
        }
        assert(rest[0] == path@[from as int]);
        assert(rest.drop_first() =~= path@.skip(from + 1));
        match self {
            Node::Object(children) => Node::Object(cut_in_children(children, path, from)),
            Node::Sentinel(children) => Node::Sentinel(cut_in_children(children, path, from)),
            other => other,
        }
    }

    /// A copy of this node.
    pub fn copy(&self) -> (r: Node)
        ensures
            r@ == self@,
        decreases self,
    {
        match self {
            Node::Null => Node::Null,
            Node::Bool(b) => Node::Bool(*b),
            Node::Number(n) => Node::Number(n.clone()),
            Node::String(s) => Node::String(s.clone()),
            Node::Array(items) => Node::Array(value::copy_items(items)),
            Node::Object(children) => {
                assert(decreases_to!(*self => self->Object_0));
                Node::Object(copy_children(children))
            },
            Node::Sentinel(children) => {
                assert(decreases_to!(*self => self->Sentinel_0));
                Node::Sentinel(copy_children(children))
            },
        }
    }
}

/// The write step of `Node::put` inside a list of children.
fn put_in_children(
    children: Vec<Child>,
    path: &Path,
    from: usize,
    leaf: Node,
    lazy: bool,
) -> (r: Vec<Child>)
    requires
        from < path@.len(),
    ensures
        ({
            let m = children_map(children@);
            let key = path@[from as int];
            let old_kid = if m.contains_key(key) {
                m[key]
            } else {
                Shape::Null
            };
            children_map(r@) == m.insert(
                key,
                shape::put(old_kid, path@.skip(from + 1), leaf@, lazy),
            )
        }),
    decreases path@.len() - from, 0int,
{
    let depth = path.segments.len();
    assert(from < depth);
    let key = path.segments[from].as_str();
    let ghost m = children_map(children@);
    let mut list = children;
    match find_child(&list, key) {
        Some(i) => {
            let ghost before = list@;
            let entry = list.remove(i);
            let node = entry.node.put(path, from + 1, leaf, lazy);
            let ghost put_shape = node@;
            let out = insert_child(list, key, node);
            proof {
                lemma_remove_entry(before, i as int);
                assert(children_map(before.remove(i as int)).remove(key@) == m.remove(key@));
                assert(children_map(out@) =~= m.insert(key@, put_shape)) by {
                    assert(m.insert(key@, put_shape) =~= m.remove(key@).insert(key@, put_shape));
                    assert(children_map(before.remove(i as int)).insert(key@, put_shape)
                        =~= children_map(before.remove(i as int)).remove(key@).insert(
                        key@,
                        put_shape,
                    ));
                }
            }
            out
        },
        None => {
            let node = Node::Null.put(path, from + 1, leaf, lazy);
            insert_child(list, key, node)
        },
    }
}

/// The removal step of `Node::cut` inside a list of children.
fn cut_in_children(children: Vec<Child>, path: &Path, from: usize) -> (r: Vec<Child>)
    requires
        from < path@.len(),
    ensures
        ({
            let m = children_map(children@);
            let key = path@[from as int];
            children_map(r@) == if !m.contains_key(key) {
                m
            } else if from + 1 == path@.len() {
                m.remove(key)
            } else {
                m.insert(key, shape::cut(m[key], path@.skip(from + 1)))
            }
        }),
    decreases path@.len() - from, 0int,
{
    let depth = path.segments.len();
    assert(from < depth);
    let key = path.segments[from].as_str();
    let ghost m = children_map(children@);
    let mut list = children;
    match find_child(&list, key) {
        Some(i) => {
            if from + 1 == path.segments.len() {
                return remove_child(list, key);
            }
            let ghost before = list@;
            let entry = list.remove(i);
            let node = entry.node.cut(path, from + 1);
            let ghost cut_shape = node@;
            let out = insert_child(list, key, node);
            proof {
                lemma_remove_entry(before, i as int);
                assert(children_map(out@) =~= m.insert(key@, cut_shape)) by {
                    assert(m.insert(key@, cut_shape) =~= m.remove(key@).insert(key@, cut_shape));
                    assert(children_map(before.remove(i as int)).insert(key@, cut_shape)
                        =~= children_map(before.remove(i as int)).remove(key@).insert(
                        key@,
                        cut_shape,
                    ));
                }
            }
            out
        },
        None => list,
    }
}

/// A copy of a list of children.
pub fn copy_children(children: &Vec<Child>) -> (r: Vec<Child>)
    ensures
        children_map(r@) == children_map(children@),
    decreases children,
{
    let mut out: Vec<Child> = Vec::new();
    let mut i: usize = 0;
    while i < children.len()
        invariant
            i <= children@.len(),
            children_map(out@) == children_map(children@.take(i as int)),
        decreases children@.len() - i,
    {
        let ghost before = out@;
        let node = children[i].node.copy();
        out.push(Child { key: children[i].key.clone(), node });
        assert(out@.drop_last() =~= before);
        assert(children@.take(i + 1).drop_last() =~= children@.take(i as int));
        assert(children@.take(i + 1).last() == children@[i as int]);
        i = i + 1;
    }
    assert(children@.take(i as int) =~= children@);
    out
}

/// The node that a written value stands for; null members are left out.
pub fn cleaned_node(v: &JsonValue) -> (r: Node)
    ensures
        r@ == value::cleaned(v@),
    decreases v,
{
    match v {
        JsonValue::Null => Node::Null,
        JsonValue::Bool(b) => Node::Bool(*b),
        JsonValue::Number(n) => Node::Number(n.clone()),
        JsonValue::String(s) => Node::String(s.clone()),
        JsonValue::Array(items) => Node::Array(value::copy_items(items)),
        JsonValue::Object(members) => {
            assert(decreases_to!(*v => v->Object_0));
            Node::Object(cleaned_children(members))
        },
    }
}

/// The children that the members of a written object stand for.
fn cleaned_children(members: &Vec<Member>) -> (r: Vec<Child>)
    ensures
        children_map(r@) == value::cleaned_members(
            value::members_json(members@),
            members@.len() as int,
        ),
    decreases members,
{
    let mut out: Vec<Child> = Vec::new();
    let ghost ms = value::members_json(members@);
    let mut i: usize = 0;
    while i < members.len()
        invariant
            i <= members@.len(),
            ms == value::members_json(members@),
            children_map(out@) == value::cleaned_members(ms, i as int),
        decreases members@.len() - i,
    {
        let ghost before = out@;
        let node = cleaned_node(&members[i].value);
        assert(ms[i as int].0 == members@[i as int].key@);
        if !node.is_null() {
            out.push(Child { key: members[i].key.clone(), node });
            assert(out@.drop_last() =~= before);
        }
        i = i + 1;
    }
    out
}

} // verus!
