//! The tree as the security rules look at it.
use crate::node::find_child;
use crate::node::Node;
use crate::path;
use crate::path::Path;
use crate::plain;
use crate::plain::node_value;
use crate::promotion;
use crate::shape;
use crate::shape::Shape;
use crate::tree::Tree;
use crate::value::JsonValue;
use vstd::prelude::*;

verus! {

/// A look at the tree.
pub struct TreeAccessor<'a> {
    pub tree: &'a Tree,
    pub blob_backed: bool,
}

/// Whether there is data in a node: null and what is not loaded count as none.
pub open spec fn is_data(n: Option<Shape>) -> bool {
    n is Some && !(n->0 is Null) && !(n->0 is Sentinel)
}

impl<'a> TreeAccessor<'a> {
    /// A look at a tree.
    pub fn new(tree: &'a Tree, blob_backed: bool) -> (r: TreeAccessor<'a>)
        ensures
            r.tree == tree,
            r.blob_backed == blob_backed,
    {
        TreeAccessor { tree, blob_backed }
    }

    /// What stands at a path.
    pub fn get_value(&self, path: &str) -> (r: Option<JsonValue>)
        ensures
            match shape::at(self.tree@, path::segments(path@)) {
                Some(n) => r is Some && plain::plain(r->0@) == plain::seen(n),
                None => r is None,
            },
    {
        let p = Path::parse(path);
        match self.tree.get(&p) {
            Some(n) => Some(node_value(n)),
            None => None,
        }
    }

    /// Whether there is data at a path.
    pub fn node_exists(&self, path: &str) -> (r: bool)
        ensures
            r == is_data(shape::at(self.tree@, path::segments(path@))),
    {
        let p = Path::parse(path);
        match self.tree.get(&p) {
            Some(n) => !n.is_null() && !n.is_sentinel(),
            None => false,
        }
    }

    /// Whether there is data in a child of a path.
    pub fn node_has_child(&self, path: &str, child_name: &str) -> (r: bool)
        ensures
            r == is_data(shape::at(self.tree@, path::segments(path@).push(child_name@))),
    {
        let p = Path::parse(path);
        proof {
            shape::lemma_at_push(self.tree@, p@, child_name@);
        }
        let children = match self.tree.get(&p) {
            Some(Node::Object(c)) => c,
            Some(Node::Sentinel(c)) => c,
            Some(n) => {
                assert(shape::kids(n@) =~= Map::empty());
                return false;
            },
            None => {
                return false;
            },
        };
        match find_child(children, child_name) {
            Some(i) => !children[i].node.is_null() && !children[i].node.is_sentinel(),
            None => false,
        }
    }

    /// Whether the tree tells what stands at a path without asking the blob.
    pub fn node_is_loaded(&self, path: &str) -> (r: bool)
        ensures
            r == !(promotion::standing(self.tree@, path::segments(path@)) is Unknown),
    {
        let p = Path::parse(path);
        match self.tree.get(&p) {
            Some(n) => !n.is_sentinel(),
            None => {
                match p.parent() {
                    Some(up) => match self.tree.get(&up) {
                        Some(n) => !n.is_sentinel(),
                        None => false,
                    },
                    None => {
                        assert(shape::at(self.tree@, p@) is Some);
                        true
                    },
                }
            },
        }
    }

    /// Whether the data lies in a blob.
    pub fn is_blob_backed(&self) -> (r: bool)
        ensures
            r == self.blob_backed,
    {
        self.blob_backed
    }
}

/// To the rules there is data at a place exactly if a reader sees something there.
pub proof fn law_existing_is_being_seen(n: Option<Shape>)
    ensures
        is_data(n) <==> plain::seen_opt(n) != plain::Plain::Null,
{
}

} // verus!
