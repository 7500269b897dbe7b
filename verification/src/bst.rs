//! A standalone unbalanced binary search tree over unsigned keys: insertion,
//! membership and size, each proved against the set of values the tree holds.

use vstd::prelude::*;

verus! {

/// A node of the search tree: one value and two subtrees.
#[derive(Debug, PartialEq, Eq)]
pub struct Node {
    pub value: u64,
    pub left: Subtree,
    pub right: Subtree,
}

/// A possibly empty subtree.
#[derive(Debug, PartialEq, Eq)]
pub struct Subtree(pub Option<Box<Node>>);

/// A search tree rooted at one node.
#[derive(Debug, PartialEq, Eq)]
pub struct BinaryTree {
    root: Subtree,
}

impl Node {
    /// The values held at this node and below.
    pub open spec fn values(self) -> Set<u64>
        decreases self,
    {
        self.left.values().union(self.right.values()).insert(self.value)
    }

    /// How many nodes stand at this node and below.
    pub open spec fn size(self) -> nat
        decreases self,
    {
        1 + self.left.size() + self.right.size()
    }

    /// The search order: every value to the left is smaller than the node's,
    /// every value to the right larger.
    pub open spec fn inv(self) -> bool
        decreases self,
    {
        &&& forall|v: u64| self.left.values().contains(v) ==> v < self.value
        &&& forall|v: u64| self.right.values().contains(v) ==> v > self.value
        &&& self.left.inv()
        &&& self.right.inv()
    }
}

impl Subtree {
    pub open spec fn values(self) -> Set<u64>
        decreases self,
    {
        match self.0 {
            None => Set::empty(),
            Some(n) => n.values(),
        }
    }

    pub open spec fn size(self) -> nat
        decreases self,
    {
        match self.0 {
            None => 0,
            Some(n) => n.size(),
        }
    }

    pub open spec fn inv(self) -> bool
        decreases self,
    {
        match self.0 {
            None => true,
            Some(n) => n.inv(),
        }
    }
}

impl Node {
    /// A fresh node holding `value` alone.
    pub fn new(value: u64) -> (r: Self)
        ensures
            r == (Node { value, left: Subtree(None), right: Subtree(None) }),
    {
        Node { value, left: Subtree::new(), right: Subtree::new() }
    }
}

impl Subtree {
    /// The empty subtree.
    pub fn new() -> (r: Self)
        ensures
            r == Subtree(None),
    {
        Subtree(None)
    }

    fn insert_owned(self, value: u64) -> (r: Self)
        requires
            self.inv(),
        ensures
            r.inv(),
            r.values() == self.values().insert(value),
            r.size() == self.size() + if self.values().contains(value) {
                0int
            } else {
                1int
            },
        decreases self,
    {
        match self.0 {
            None => {
                let r = Subtree(Some(Box::new(Node::new(value))));
                proof {
                    assert(r.values() =~= self.values().insert(value));
                }
                r
            },
            Some(n) => {
                let node = *n;
                let ghost old_node = node;
                if value < node.value {
                    let Node { value: nv, left, right } = node;
                    let new_left = left.insert_owned(value);
                    let r = Subtree(Some(Box::new(Node { value: nv, left: new_left, right })));
                    proof {
                        assert(r.values() =~= self.values().insert(value));
                        assert(!right.values().contains(value));
                        assert(self.values().contains(value) == left.values().contains(value));
                    }
                    r
                } else if value == node.value {
                    let r = Subtree(Some(Box::new(node)));
                    proof {
                        assert(self.values().contains(value));
                        assert(r.values() =~= self.values().insert(value));
                    }
                    r
                } else {
                    let Node { value: nv, left, right } = node;
                    let new_right = right.insert_owned(value);
                    let r = Subtree(Some(Box::new(Node { value: nv, left, right: new_right })));
                    proof {
                        assert(r.values() =~= self.values().insert(value));
                        assert(!left.values().contains(value));
                        assert(self.values().contains(value) == right.values().contains(value));
                    }
                    r
                }
            },
        }
    }

    /// Insert `value`, keeping the search order; a value already present is
    /// left alone and the size does not change.
    pub fn insert(&mut self, value: u64)
        requires
            old(self).inv(),
        ensures
            final (self).inv(),
            final (self).values() == old(self).values().insert(value),
            final (self).size() == old(self).size() + if old(self).values().contains(value) {
                0int
            } else {
                1int
            },
    {
        let mut tmp = Subtree(None);
        core::mem::swap(self, &mut tmp);
        let inserted = tmp.insert_owned(value);
        *self = inserted;
    }

    /// Whether `value` is held anywhere in the subtree.
    pub fn has(&self, value: u64) -> (r: bool)
        requires
            self.inv(),
        ensures
            r == self.values().contains(value),
        decreases self,
    {
        match &self.0 {
            None => false,
            Some(n) => {
                if value < n.value {
                    proof {
                        assert(!n.right.values().contains(value));
                    }
                    n.left.has(value)
                } else if value == n.value {
                    true
                } else {
                    proof {
                        assert(!n.left.values().contains(value));
                    }
                    n.right.has(value)
                }
            },
        }
    }

    /// How many nodes the subtree holds.
    pub fn len(&self) -> (r: usize)
        requires
            self.size() <= usize::MAX,
        ensures
            r as nat == self.size(),
        decreases self,
    {
        match &self.0 {
            None => 0,
            Some(n) => {
                let a = n.left.len();
                let b = n.right.len();
                1 + a + b
            },
        }
    }
}

impl BinaryTree {
    /// The values the tree holds.
    pub closed spec fn values(self) -> Set<u64> {
        self.root.values()
    }

    /// How many nodes the tree holds.
    pub closed spec fn size(self) -> nat {
        self.root.size()
    }

    /// The search order holds throughout the tree.
    pub closed spec fn inv(self) -> bool {
        self.root.inv()
    }

    /// A tree whose root is the given node.
    pub fn new(node: Node) -> (r: Self)
        ensures
            r.values() == node.values(),
            r.size() == node.size(),
            r.inv() == node.inv(),
    {
        Self { root: Subtree(Some(Box::new(node))) }
    }

    /// Insert `value`, keeping the search order; a value already present is
    /// left alone and the size does not change.
    pub fn insert(&mut self, value: u64)
        requires
            old(self).inv(),
        ensures
            final (self).inv(),
            final (self).values() == old(self).values().insert(value),
            final (self).size() == old(self).size() + if old(self).values().contains(value) {
                0int
            } else {
                1int
            },
    {
        self.root.insert(value);
    }

    /// Whether `value` is held anywhere in the tree.
    pub fn has(&self, value: u64) -> (r: bool)
        requires
            self.inv(),
        ensures
            r == self.values().contains(value),
    {
        self.root.has(value)
    }

    /// How many nodes the tree holds.
    pub fn len(&self) -> (r: usize)
        requires
            self.size() <= usize::MAX,
        ensures
            r as nat == self.size(),
    {
        self.root.len()
    }
}

} // verus!
