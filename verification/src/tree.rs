//! The in-memory data tree.
use crate::node::{cleaned_node, Node};
use crate::path::Path;
use crate::replay;
use crate::replay::WalOp;
use crate::shape;
use crate::shape::Shape;
use crate::value;
use crate::value::{JsonValue, Member};
use crate::wal::WalEntry;
use vstd::prelude::*;

verus! {

/// A tree of nodes.
pub struct Tree {
    pub root: Node,
}

impl View for Tree {
    type V = Shape;

    open spec fn view(&self) -> Shape {
        self.root@
    }
}

impl Tree {
    /// A tree without data.
    pub fn new() -> (r: Tree)
        ensures
            r@ == Shape::Null,
    {
        Tree { root: Node::Null }
    }

    /// A tree of which nothing is known yet.
    pub fn new_sentinel() -> (r: Tree)
        ensures
            r@ == Shape::Sentinel(Map::empty()),
    {
        Tree { root: Node::empty_sentinel() }
    }

    /// A copy.
    pub fn copy(&self) -> (r: Tree)
        ensures
            r@ == self@,
    {
        Tree { root: self.root.copy() }
    }

    /// The node at a path.
    pub fn get(&self, path: &Path) -> (r: Option<&Node>)
        ensures
            match r {
                Some(n) => shape::at(self@, path@) == Some(n@),
                None => shape::at(self@, path@) is None,
            },
    {
        assert(path@.skip(0) =~= path@);
        self.root.get(path, 0)
    }

    /// A copy of the node at a path, null where there is none.
    pub fn get_or_null(&self, path: &Path) -> (r: Node)
        ensures
            r@ == shape::at_or_null(self@, path@),
    {
        match self.get(path) {
            Some(n) => n.copy(),
            None => Node::Null,
        }
    }

    /// Whether a sentinel stands at a path.
    pub fn sentinel_at(&self, path: &Path) -> (r: bool)
        ensures
            r == shape::sentinel_at(self@, path@),
    {
        match self.get(path) {
            Some(n) => n.is_sentinel(),
            None => false,
        }
    }

    /// Puts a node at a path as it is. What is missing on the way is filled in with
    /// sentinels when `lazy`, with objects otherwise.
    pub fn set_node(&mut self, path: &Path, node: Node, lazy: bool)
        ensures
            final(self)@ == shape::put(old(self)@, path@, node@, lazy),
    {
        let mut root = Node::Null;
        std::mem::swap(&mut root, &mut self.root);
        assert(path@.skip(0) =~= path@);
        self.root = root.put(path, 0, node, lazy);
    }

    /// Takes away what stands at a path.
    pub fn remove(&mut self, path: &Path)
        ensures
            final(self)@ == shape::cut(old(self)@, path@),
    {
        let mut root = Node::Null;
        std::mem::swap(&mut root, &mut self.root);
        assert(path@.skip(0) =~= path@);
        self.root = root.cut(path, 0);
    }

    /// Writes a value at a path; null removes.
    pub fn write(&mut self, path: &Path, value: &JsonValue, lazy: bool)
        ensures
            final(self)@ == replay::write(old(self)@, path@, value::cleaned(value@), lazy),
    {
        let node = cleaned_node(value);
        if node.is_null() {
            self.remove(path);
        } else {
            self.set_node(path, node, lazy);
        }
    }

    /// Writes a value at a path, filling in missing containers as objects.
    pub fn set(&mut self, path: &Path, value: &JsonValue)
        ensures
            final(self)@ == replay::write(old(self)@, path@, value::cleaned(value@), false),
    {
        self.write(path, value, false);
    }

    /// Writes a value at a path, filling in missing containers as sentinels.
    pub fn set_lazy(&mut self, path: &Path, value: &JsonValue)
        ensures
            final(self)@ == replay::write(old(self)@, path@, value::cleaned(value@), true),
    {
        self.write(path, value, true);
    }

    /// Merges members at a path; each key is a path below it.
    pub fn update(&mut self, path: &Path, members: &Vec<Member>, lazy: bool)
        ensures
            final(self)@ == replay::write_all(
                old(self)@,
                replay::merge_edits(path@, value::members_json(members@)),
                lazy,
            ),
    {
        let ghost start = self@;
        let ghost edits = replay::merge_edits(path@, value::members_json(members@));
        let mut i: usize = 0;
        assert(edits.take(0) =~= Seq::<replay::Edit>::empty());
        while i < members.len()
            invariant
                i <= members@.len(),
                edits == replay::merge_edits(path@, value::members_json(members@)),
                self@ == replay::write_all(start, edits.take(i as int), lazy),
            decreases members@.len() - i,
        {
            let rel = Path::parse(members[i].key.as_str());
            let target = path.join(&rel);
            self.write(&target, &members[i].value, lazy);
            assert(edits.take(i + 1).drop_last() =~= edits.take(i as int));
            assert(edits.take(i + 1).last() == edits[i as int]);
            i = i + 1;
        }
        assert(edits.take(i as int) =~= edits);
    }

    /// Applies a logged write.
    pub fn apply(&mut self, entry: &WalEntry, lazy: bool)
        ensures
            final(self)@ == replay::write_all(old(self)@, replay::entry_edits(entry@.write), lazy),
    {
        let path = Path::parse(entry.path.as_str());
        let ghost start = self@;
        let ghost edits = replay::entry_edits(entry@.write);
        match entry.op {
            WalOp::Assign => {
                match &entry.value {
                    Some(v) => {
                        self.write(&path, v, lazy);
                    },
                    None => {
                        self.remove(&path);
                    },
                }
                assert(edits.drop_last() =~= Seq::<replay::Edit>::empty());
                reveal_with_fuel(replay::write_all, 2);
            },
            WalOp::Update => {
                match &entry.value {
                    Some(JsonValue::Object(members)) => {
                        self.update(&path, members, lazy);
                    },
                    _ => {},
                }
            },
            WalOp::Delete => {
                self.remove(&path);
                assert(edits.drop_last() =~= Seq::<replay::Edit>::empty());
                reveal_with_fuel(replay::write_all, 2);
            },
        }
    }
}

} // verus!
