//! The Huffman tree: nodes carrying a weight and a tie-break symbol, the
//! spec-level reading of a tree (its leaf symbols, the code of each symbol,
//! the code table), and the executable walks that label edges and read the
//! code table off a finished tree.

use vstd::prelude::*;

verus! {

/// The payload of a tree node.
#[derive(Debug, Clone, Copy, PartialEq, Eq)]
pub struct Symbol {
    /// For a leaf: the symbol itself. For an internal node: the smallest
    /// symbol reachable in its subtree, used as the deterministic tie-break key.
    pub value: char,
    /// The weight: a leaf's occurrence count; an internal node's sum of its
    /// children's weights.
    pub count: u64,
    /// The bit label of the edge above this node: 0 on a left edge, 1 on a
    /// right edge, -1 while unassigned (and on the root).
    pub label: i32,
}

/// A node of the Huffman tree. A leaf has two empty subtrees; an internal
/// node has exactly two children.
#[derive(Debug, PartialEq, Eq)]
pub struct Node {
    pub value: Symbol,
    pub left: Subtree,
    pub right: Subtree,
}

/// A possibly empty subtree.
#[derive(Debug, PartialEq, Eq)]
pub struct Subtree(pub Option<Box<Node>>);

impl Node {
    /// A leaf: a node with no children.
    pub open spec fn is_leaf(self) -> bool {
        self.left.0 is None && self.right.0 is None
    }

    /// Well-formed: every node is either a leaf or has exactly two children.
    pub open spec fn wf(self) -> bool
        decreases self,
    {
        match (self.left.0, self.right.0) {
            (None, None) => true,
            (Some(l), Some(r)) => l.wf() && r.wf(),
            _ => false,
        }
    }

    /// The symbols at the leaves, left to right.
    pub open spec fn syms(self) -> Seq<char>
        decreases self,
    {
        match (self.left.0, self.right.0) {
            (Some(l), Some(r)) => l.syms() + r.syms(),
            _ => seq![self.value.value],
        }
    }

    /// The height of the tree: 0 for a leaf.
    pub open spec fn height(self) -> nat
        decreases self,
    {
        match (self.left.0, self.right.0) {
            (Some(l), Some(r)) => 1 + if l.height() > r.height() {
                l.height()
            } else {
                r.height()
            },
            _ => 0,
        }
    }

    /// The path from the root to the leftmost leaf holding `c`:
    /// `false` for each left edge taken, `true` for each right edge.
    pub open spec fn code_of(self, c: char) -> Seq<bool>
        decreases self,
    {
        match (self.left.0, self.right.0) {
            (Some(l), Some(r)) => if l.syms().contains(c) {
                seq![false] + l.code_of(c)
            } else {
                seq![true] + r.code_of(c)
            },
            _ => Seq::empty(),
        }
    }

    /// The code a symbol is encoded with. A tree that is a single leaf cannot
    /// yield a usable code from its paths (the path is empty), so its one
    /// symbol gets the one-bit code `0`.
    pub open spec fn code_for(self, c: char) -> Seq<bool> {
        if self.is_leaf() {
            seq![false]
        } else {
            self.code_of(c)
        }
    }

    /// The code table read off the tree: one entry per leaf, left to right,
    /// pairing the leaf's symbol with the accumulated path from the root,
    /// starting from the prefix `pre`.
    pub open spec fn table_of(self, pre: Seq<bool>) -> Seq<(char, Seq<bool>)>
        decreases self,
    {
        match (self.left.0, self.right.0) {
            (Some(l), Some(r)) => l.table_of(pre.push(false)) + r.table_of(pre.push(true)),
            _ => seq![(self.value.value, pre)],
        }
    }

    /// Edge labels are assigned: every left child carries label 0 and every
    /// right child label 1, all the way down.
    pub open spec fn labels_ok(self) -> bool
        decreases self,
    {
        match (self.left.0, self.right.0) {
            (Some(l), Some(r)) => l.value.label == 0 && r.value.label == 1 && l.labels_ok()
                && r.labels_ok(),
            _ => true,
        }
    }

    /// `self` is `orig` with edge labels assigned: `self`'s own label is
    /// `lab`, left children are labelled 0 and right children 1, and every
    /// symbol, weight and the whole shape are unchanged.
    pub open spec fn labels_from(self, orig: Node, lab: i32) -> bool
        decreases orig,
    {
        &&& self.value.value == orig.value.value
        &&& self.value.count == orig.value.count
        &&& self.value.label == lab
        &&& match (self.left.0, orig.left.0) {
            (None, None) => true,
            (Some(a), Some(b)) => a.labels_from(*b, 0),
            _ => false,
        }
        &&& match (self.right.0, orig.right.0) {
            (None, None) => true,
            (Some(a), Some(b)) => a.labels_from(*b, 1),
            _ => false,
        }
    }
}

/// Assigning edge labels changes neither the shape of a tree, its symbols,
/// nor the code of any symbol.
pub proof fn lemma_labels_from_shape(a: Node, b: Node, lab: i32)
    requires
        a.labels_from(b, lab),
    ensures
        a.wf() <==> b.wf(),
        a.is_leaf() <==> b.is_leaf(),
        a.syms() == b.syms(),
        a.labels_ok(),
        forall|c: char| #[trigger] a.code_of(c) == b.code_of(c),
        forall|c: char| #[trigger] a.code_for(c) == b.code_for(c),
    decreases b,
{
    match (a.left.0, b.left.0) {
        (Some(x), Some(y)) => {
            lemma_labels_from_shape(*x, *y, 0);
            assert(x.value.label == 0);
        },
        _ => {},
    }
    match (a.right.0, b.right.0) {
        (Some(x), Some(y)) => {
            lemma_labels_from_shape(*x, *y, 1);
            assert(x.labels_from(*y, 1));
            assert(x.value.label == 1);
        },
        _ => {},
    }
    assert(a.labels_ok());
    assert forall|c: char| #[trigger] a.code_of(c) == b.code_of(c) by {
        match (a.left.0, a.right.0, b.left.0, b.right.0) {
            (Some(al), Some(ar), Some(bl), Some(br)) => {
                assert(al.syms() == bl.syms());
                assert(al.code_of(c) == bl.code_of(c));
                assert(ar.code_of(c) == br.code_of(c));
                if bl.syms().contains(c) {
                    assert(a.code_of(c) == seq![false] + al.code_of(c));
                    assert(b.code_of(c) == seq![false] + bl.code_of(c));
                } else {
                    assert(a.code_of(c) == seq![true] + ar.code_of(c));
                    assert(b.code_of(c) == seq![true] + br.code_of(c));
                }
            },
            _ => {},
        }
    }
    assert forall|c: char| #[trigger] a.code_for(c) == b.code_for(c) by {
        assert(a.code_of(c) == b.code_of(c));
    }
}

/// The leaf node holding `value`.
pub open spec fn leaf_node(value: Symbol) -> Node {
    Node { value, left: Subtree(None), right: Subtree(None) }
}

/// The code table entries as mathematical pairs: each entry's bit vector
/// replaced by the bit sequence it holds.
pub open spec fn table_view(t: Seq<(char, Vec<bool>)>) -> Seq<(char, Seq<bool>)> {
    t.map_values(|p: (char, Vec<bool>)| (p.0, p.1@))
}

impl Subtree {
    /// The empty subtree.
    pub fn new() -> (r: Self)
        ensures
            r.0 is None,
    {
        Subtree(None)
    }
}

impl Node {
    /// A fresh leaf holding `value`.
    pub fn new(value: Symbol) -> (r: Self)
        ensures
            r == leaf_node(value),
    {
        Node { value, left: Subtree::new(), right: Subtree::new() }
    }

    /// Whether every node of the tree is a leaf or has exactly two children.
    pub fn check_wf(&self) -> (r: bool)
        ensures
            r == self.wf(),
        decreases self,
    {
        match (&self.left.0, &self.right.0) {
            (None, None) => true,
            (Some(l), Some(r)) => l.check_wf() && r.check_wf(),
            _ => false,
        }
    }

    /// Rebuild the tree with its edge labels assigned, the node's own label
    /// set to `lab`.
    fn label_with(self, lab: i32) -> (r: Node)
        ensures
            r.labels_from(self, lab),
        decreases self,
    {
        let Node { value, left, right } = self;
        let new_left = match left.0 {
            None => Subtree(None),
            Some(l) => Subtree(Some(Box::new((*l).label_with(0)))),
        };
        let new_right = match right.0 {
            None => Subtree(None),
            Some(r) => Subtree(Some(Box::new((*r).label_with(1)))),
        };
        Node {
            value: Symbol { value: value.value, count: value.count, label: lab },
            left: new_left,
            right: new_right,
        }
    }

    /// Assign edge labels in place: every left child is labelled 0 and every
    /// right child 1; the node's own label is kept. `generate_codes` reads
    /// these labels when building the code table.
    pub fn assign_labels(&mut self)
        ensures
            final (self).labels_from(*old(self), old(self).value.label),
    {
        let lab = self.value.label;
        let mut tmp = Node::new(Symbol { value: ' ', count: 0, label: 0 });
        core::mem::swap(self, &mut tmp);
        let relabeled = tmp.label_with(lab);
        *self = relabeled;
    }

    /// The table `generate_codes` yields from a node and an accumulated
    /// path: one entry per leaf with its path from here, except that a bare
    /// leaf with no accumulated path gets the one-bit code `0` — an empty
    /// code could not be decoded in a stream of more than one symbol.
    pub open spec fn gen_table(self, pre: Seq<bool>) -> Seq<(char, Seq<bool>)> {
        if self.is_leaf() && pre.len() == 0 {
            seq![(self.value.value, seq![false])]
        } else {
            self.table_of(pre)
        }
    }

    /// Append to `codes` one entry per leaf below `self`, left to right, each
    /// pairing the leaf's symbol with the bit path accumulated from
    /// `current_code`, extended at each step by the child's edge label. A
    /// tree that is a single leaf has no path to walk: its one symbol gets
    /// the one-bit code `0` instead of the empty string.
    pub fn generate_codes(&self, current_code: Vec<bool>, codes: &mut Vec<(char, Vec<bool>)>)
        requires
            self.wf(),
            self.labels_ok(),
        ensures
            table_view(final (codes)@) == table_view(old(codes)@) + self.gen_table(current_code@),
        decreases self,
    {
        match (&self.left.0, &self.right.0) {
            (Some(l), Some(r)) => {
                let mut left_code = clone_bits(&current_code);
                left_code.push(l.value.label == 1);
                proof {
                    assert(l.gen_table(left_code@) == l.table_of(left_code@));
                }
                l.generate_codes(left_code, codes);
                let mut right_code = current_code;
                right_code.push(r.value.label == 1);
                proof {
                    assert(r.gen_table(right_code@) == r.table_of(right_code@));
                }
                r.generate_codes(right_code, codes);
                proof {
                    assert(table_view(codes@) =~= table_view(old(codes)@) + self.gen_table(
                        current_code@,
                    ));
                }
            },
            _ => {
                if current_code.len() == 0 {
                    let mut bit: Vec<bool> = Vec::new();
                    bit.push(false);
                    codes.push((self.value.value, bit));
                } else {
                    codes.push((self.value.value, current_code));
                }
                proof {
                    assert(table_view(codes@) =~= table_view(old(codes)@) + self.gen_table(
                        current_code@,
                    ));
                }
            },
        }
    }
}

/// A copy of a bit vector.
pub fn clone_bits(v: &Vec<bool>) -> (r: Vec<bool>)
    ensures
        r@ == v@,
{
    let mut r: Vec<bool> = Vec::new();
    let mut i: usize = 0;
    while i < v.len()
        invariant
            i <= v@.len(),
            r@ == v@.take(i as int),
        decreases v@.len() - i,
    {
        r.push(v[i]);
        proof {
            assert(v@.take(i as int + 1) =~= v@.take(i as int).push(v@[i as int]));
        }
        i = i + 1;
    }
    proof {
        assert(v@.take(v@.len() as int) =~= v@);
    }
    r
}

} // verus!
