//! The tree type and its mathematical model: the measures of a tree, its
//! labels, its subtrees, and the full trees.

use vstd::arithmetic::power2::{
    lemma2_to64, lemma2_to64_rest, lemma_pow2_pos, lemma_pow2_strictly_increases,
    lemma_pow2_unfold, pow2,
};
use vstd::prelude::*;

verus! {

/// A binary tree in which every node carries a label and every inner node
/// has exactly two children.
#[derive(Debug, PartialEq, Eq)]
pub enum BinTree {
    Branch(i64, Box<BinTree>, Box<BinTree>),
    Leaf(i64),
}

/// The one way in which building a tree can fail.
#[derive(Debug, Clone, Copy, PartialEq, Eq)]
pub enum TreeError {
    /// A depth below zero was asked for.
    InvalidArgument,
}

impl BinTree {
    /// The label of the root.
    pub open spec fn label(self) -> i64 {
        match self {
            BinTree::Branch(x, _, _) => x,
            BinTree::Leaf(x) => x,
        }
    }

    /// The number of nodes.
    pub open spec fn node_count(self) -> nat
        decreases self,
    {
        match self {
            BinTree::Branch(_, l, r) => 1 + l.node_count() + r.node_count(),
            BinTree::Leaf(_) => 1,
        }
    }

    /// The number of levels below the root.
    pub open spec fn height(self) -> nat
        decreases self,
    {
        match self {
            BinTree::Branch(_, l, r) => if l.height() >= r.height() {
                1 + l.height()
            } else {
                1 + r.height()
            },
            BinTree::Leaf(_) => 0,
        }
    }

    /// Whether the labels, in pre-order, count up from `first` one by one.
    pub open spec fn counts_up_from(self, first: int) -> bool {
        forall|i: int| 0 <= i < self.labels().len() ==> #[trigger] self.labels()[i] == first + i
    }

    /// Whether the tree is full with `depth` levels below its root: every
    /// leaf lies exactly `depth` levels down.
    pub open spec fn is_full(self, depth: nat) -> bool
        decreases self,
    {
        match self {
            BinTree::Branch(_, l, r) => depth > 0 && l.is_full((depth - 1) as nat) && r.is_full(
                (depth - 1) as nat,
            ),
            BinTree::Leaf(_) => depth == 0,
        }
    }

    /// Whether `other` is the tree itself or the subtree under one of its
    /// nodes.
    pub open spec fn has_subtree(self, other: BinTree) -> bool
        decreases self,
    {
        self == other || match self {
            BinTree::Branch(_, l, r) => l.has_subtree(other) || r.has_subtree(other),
            BinTree::Leaf(_) => false,
        }
    }

    /// Whether some node carries `label`.
    pub open spec fn has_label(self, label: i64) -> bool
        decreases self,
    {
        match self {
            BinTree::Branch(x, l, r) => x == label || l.has_label(label) || r.has_label(label),
            BinTree::Leaf(x) => x == label,
        }
    }

    /// The labels in pre-order: a node, then its left subtree, then its right
    /// subtree.
    pub open spec fn labels(self) -> Seq<i64>
        decreases self,
    {
        match self {
            BinTree::Branch(x, l, r) => seq![x] + l.labels() + r.labels(),
            BinTree::Leaf(x) => seq![x],
        }
    }
}

/// The number of nodes of a full tree with `depth` levels below its root:
/// `2^(depth + 1) - 1`.
pub open spec fn full_count(depth: nat) -> nat {
    (pow2(depth + 1) - 1) as nat
}

/// A full tree has one node, or one more than twice the nodes of the full
/// tree one level lower.
pub proof fn lemma_full_count_step(depth: nat)
    ensures
        full_count(0) == 1,
        depth > 0 ==> full_count(depth) == 2 * full_count((depth - 1) as nat) + 1,
        full_count(depth) >= 1,
{
    lemma2_to64();
    lemma_pow2_pos(depth);
    lemma_pow2_unfold(depth + 1);
}

/// A deeper full tree has more nodes.
pub proof fn lemma_full_count_increases(lower: nat, higher: nat)
    requires
        lower < higher,
    ensures
        full_count(lower) < full_count(higher),
{
    lemma_pow2_pos(lower + 1);
    lemma_pow2_strictly_increases(lower + 1, higher + 1);
}

/// The full trees whose node count fits in `i64` are those of depth 62 and
/// less; in `u32`, those of depth 31 and less.
pub proof fn lemma_full_count_fits(depth: nat)
    ensures
        depth <= 62 <==> full_count(depth) <= i64::MAX,
        depth <= 31 <==> full_count(depth) <= u32::MAX,
{
    lemma2_to64();
    lemma2_to64_rest();
    lemma_pow2_pos(depth + 1);
    if depth < 62 {
        lemma_pow2_strictly_increases(depth + 1, 63);
    }
    if depth > 62 {
        lemma_pow2_strictly_increases(63, depth + 1);
    }
    if depth < 31 {
        lemma_pow2_strictly_increases(depth + 1, 32);
    }
    if depth > 31 {
        lemma_pow2_strictly_increases(32, depth + 1);
    }
}

impl BinTree {
    /// There are as many labels as nodes, and at least one.
    pub proof fn lemma_labels_len(self)
        ensures
            self.labels().len() == self.node_count(),
            self.node_count() >= 1,
            self.labels()[0] == self.label(),
        decreases self,
    {
        match self {
            BinTree::Branch(_, l, r) => {
                l.lemma_labels_len();
                r.lemma_labels_len();
            },
            BinTree::Leaf(_) => {},
        }
    }

    /// A branch counts up from its own label where its left subtree counts up
    /// from the next number and its right subtree from the number after the
    /// last of the left one.
    pub proof fn lemma_counts_up_branch(self, first: int)
        requires
            self is Branch,
            self.label() == first,
            self->Branch_1.counts_up_from(first + 1),
            self->Branch_2.counts_up_from(first + 1 + self->Branch_1.node_count()),
        ensures
            self.counts_up_from(first),
    {
        let left = self->Branch_1.labels();
        let right = self->Branch_2.labels();
        self->Branch_1.lemma_labels_len();
        assert forall|i: int| 0 <= i < self.labels().len() implies #[trigger] self.labels()[i]
            == first + i by {
            if 0 < i < 1 + left.len() {
                assert(self.labels()[i] == left[i - 1]);
            } else if i > 0 {
                assert(self.labels()[i] == right[i - 1 - left.len()]);
            }
        }
    }

    /// A full tree of `depth` levels has `2^(depth + 1) - 1` nodes and the
    /// height `depth`.
    pub proof fn lemma_full_measures(self, depth: nat)
        requires
            self.is_full(depth),
        ensures
            self.node_count() == full_count(depth),
            self.height() == depth,
        decreases self,
    {
        lemma_full_count_step(depth);
        match self {
            BinTree::Branch(_, l, r) => {
                l.lemma_full_measures((depth - 1) as nat);
                r.lemma_full_measures((depth - 1) as nat);
            },
            BinTree::Leaf(_) => {},
        }
    }

    /// A subtree has no more nodes and no more levels than the tree, and
    /// holds none but the tree's labels.
    pub proof fn lemma_subtree_is_smaller(self, other: BinTree)
        requires
            self.has_subtree(other),
        ensures
            other.node_count() <= self.node_count(),
            other.height() <= self.height(),
            forall|label: i64| other.has_label(label) ==> self.has_label(label),
        decreases self,
    {
        if self != other {
            match self {
                BinTree::Branch(_, l, r) => {
                    if l.has_subtree(other) {
                        l.lemma_subtree_is_smaller(other);
                    } else {
                        r.lemma_subtree_is_smaller(other);
                    }
                },
                BinTree::Leaf(_) => {},
            }
        }
    }

    /// A label is found in the tree exactly where it occurs among the labels
    /// of its nodes.
    pub proof fn lemma_has_label_iff_listed(self, label: i64)
        ensures
            self.has_label(label) <==> self.labels().contains(label),
        decreases self,
    {
        match self {
            BinTree::Branch(x, l, r) => {
                l.lemma_has_label_iff_listed(label);
                r.lemma_has_label_iff_listed(label);
                let all = self.labels();
                if self.has_label(label) {
                    if x == label {
                        assert(all[0] == label);
                    } else if l.has_label(label) {
                        let i = choose|i: int| 0 <= i < l.labels().len() && l.labels()[i] == label;
                        assert(all[1 + i] == label);
                    } else {
                        let i = choose|i: int| 0 <= i < r.labels().len() && r.labels()[i] == label;
                        assert(all[1 + l.labels().len() + i] == label);
                    }
                }
            },
            BinTree::Leaf(x) => {
                if !self.labels().contains(label) {
                    assert(self.labels()[0] == x);
                }
            },
        }
    }

    /// Whether the tree has at most `limit` levels below its root.
    pub fn height_at_most(&self, limit: u32) -> (within: bool)
        ensures
            within == (self.height() <= limit),
        decreases self,
    {
        match self {
            BinTree::Branch(_, l, r) => limit > 0 && l.height_at_most(limit - 1) && r.height_at_most(
                limit - 1,
            ),
            BinTree::Leaf(_) => true,
        }
    }
}

impl Clone for BinTree {
    /// A deep copy: the clone equals the tree.
    fn clone(&self) -> (copy: Self)
        ensures
            copy == *self,
        decreases self,
    {
        match self {
            BinTree::Branch(x, l, r) => {
                let left = (&**l).clone();
                let right = (&**r).clone();
                BinTree::Branch(*x, Box::new(left), Box::new(right))
            },
            BinTree::Leaf(x) => BinTree::Leaf(*x),
        }
    }
}

} // verus!
