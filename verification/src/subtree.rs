//! The search for the largest complete subtree.
//!
//! Every node has a *complete size*: one for a leaf, and for a branch twice
//! the smaller of its children's complete sizes, plus one. The search walks
//! the tree once from the leaves up and keeps, for each node, the node itself
//! with its complete size and the best candidates found in either child's
//! span.

use crate::reshape::{
    is_complete_size, lemma_complete_size_is_full_count, lemma_full_count_is_complete,
    pruning_depth,
};
use crate::tree::{
    full_count, lemma_full_count_fits, lemma_full_count_increases, lemma_full_count_step, BinTree,
};
use vstd::prelude::*;

verus! {

/// The candidate to keep of two found side by side: the first only where it
/// is strictly larger.
pub open spec fn better_of(first: (BinTree, nat), second: (BinTree, nat)) -> (BinTree, nat) {
    if first.1 > second.1 {
        first
    } else {
        second
    }
}

/// Whether a candidate as the code holds it is the candidate `model`.
pub open spec fn is_candidate(found: (BinTree, u32), model: (BinTree, nat)) -> bool {
    found.0 == model.0 && found.1 == model.1
}

impl BinTree {
    /// The complete size of the root: 1 for a leaf, and for a branch twice
    /// the smaller of the children's complete sizes, plus 1.
    pub open spec fn complete_size(self) -> nat
        decreases self,
    {
        match self {
            BinTree::Branch(_, l, r) => if l.complete_size() <= r.complete_size() {
                2 * l.complete_size() + 1
            } else {
                2 * r.complete_size() + 1
            },
            BinTree::Leaf(_) => 1,
        }
    }

    /// The number of levels from the root down to the nearest leaf.
    pub open spec fn nearest_leaf(self) -> nat
        decreases self,
    {
        match self {
            BinTree::Branch(_, l, r) => if l.nearest_leaf() <= r.nearest_leaf() {
                1 + l.nearest_leaf()
            } else {
                1 + r.nearest_leaf()
            },
            BinTree::Leaf(_) => 0,
        }
    }

    /// The root as a candidate: the tree itself with its complete size.
    pub open spec fn own_candidate(self) -> (BinTree, nat) {
        (self, self.complete_size())
    }

    /// The best candidate found in the left child's span. A leaf has no child
    /// and reports itself with size 0.
    pub open spec fn best_left(self) -> (BinTree, nat)
        decreases self, 0nat,
    {
        match self {
            BinTree::Branch(_, l, _) => l.best_within(),
            BinTree::Leaf(_) => (self, 0),
        }
    }

    /// The best candidate found in the right child's span. A leaf has no
    /// child and reports itself with size 0.
    pub open spec fn best_right(self) -> (BinTree, nat)
        decreases self, 0nat,
    {
        match self {
            BinTree::Branch(_, _, r) => r.best_within(),
            BinTree::Leaf(_) => (self, 0),
        }
    }

    /// The best candidate found anywhere in the tree, the root included: the
    /// root itself unless one of the children's spans holds a strictly larger
    /// one.
    pub open spec fn best_within(self) -> (BinTree, nat)
        decreases self, 1nat,
    {
        let inner = better_of(self.best_left(), self.best_right());
        if self.complete_size() >= inner.1 {
            self.own_candidate()
        } else {
            inner
        }
    }

    /// The largest complete size that any node of the tree has.
    pub open spec fn largest_complete_size(self) -> nat {
        self.best_within().1
    }

    /// The candidate that the search settles on: the root, unless the left
    /// child's span holds a strictly larger one or the right child's span
    /// does. Between the two spans the right one wins only where it is
    /// strictly larger than the left one.
    pub open spec fn winner(self) -> (BinTree, nat) {
        let own = self.own_candidate();
        let left = self.best_left();
        let right = self.best_right();
        if own.1 < left.1 {
            if left.1 < right.1 {
                right
            } else {
                left
            }
        } else {
            if own.1 < right.1 {
                right
            } else {
                own
            }
        }
    }

    /// The largest complete subtree and its size: the winning candidate,
    /// pruned to the size it claims. For a leaf this is the leaf with size 1.
    pub open spec fn largest_complete_subtree(self) -> (BinTree, nat) {
        (self.winner().0.pruned(self.winner().1), self.winner().1)
    }

    /// The complete size of every node is at most the largest one.
    pub proof fn lemma_largest_bounds_children(self)
        ensures
            self.complete_size() <= self.largest_complete_size(),
            self matches BinTree::Branch(_, l, r) ==> l.largest_complete_size()
                <= self.largest_complete_size() && r.largest_complete_size()
                <= self.largest_complete_size(),
    {
    }

    /// The complete size of a tree is the node count of the full tree that
    /// reaches down to its nearest leaf: that full tree lies within it, root
    /// on root. So it is a complete size, and no more than the tree's node
    /// count.
    pub proof fn lemma_complete_size_is_full_count(self)
        ensures
            self.complete_size() == full_count(self.nearest_leaf()),
            is_complete_size(self.complete_size()),
            pruning_depth(self.complete_size()) == self.nearest_leaf(),
            self.complete_size() <= self.node_count(),
            self.nearest_leaf() <= self.height(),
        decreases self,
    {
        lemma_full_count_step(self.nearest_leaf());
        lemma_full_count_is_complete(self.nearest_leaf());
        match self {
            BinTree::Branch(_, l, r) => {
                l.lemma_complete_size_is_full_count();
                r.lemma_complete_size_is_full_count();
                if l.nearest_leaf() < r.nearest_leaf() {
                    lemma_full_count_increases(l.nearest_leaf(), r.nearest_leaf());
                }
                if r.nearest_leaf() < l.nearest_leaf() {
                    lemma_full_count_increases(r.nearest_leaf(), l.nearest_leaf());
                }
            },
            BinTree::Leaf(_) => {},
        }
    }

    /// A full tree of `depth` levels has the complete size
    /// `2^(depth + 1) - 1`, and nothing in it is larger: it is its own best
    /// candidate.
    pub proof fn lemma_full_is_own_best(self, depth: nat)
        requires
            self.is_full(depth),
        ensures
            self.nearest_leaf() == depth,
            self.complete_size() == full_count(depth),
            self.best_within() == self.own_candidate(),
            self.winner() == self.own_candidate(),
        decreases self,
    {
        lemma_full_count_step(depth);
        match self {
            BinTree::Branch(_, l, r) => {
                l.lemma_full_is_own_best((depth - 1) as nat);
                r.lemma_full_is_own_best((depth - 1) as nat);
            },
            BinTree::Leaf(_) => {},
        }
    }

    /// The best candidate within a tree is one of its subtrees with that
    /// subtree's complete size, and no subtree has a larger complete size.
    pub proof fn lemma_best_within_is_largest(self)
        ensures
            self.has_subtree(self.best_within().0),
            self.best_within().0.complete_size() == self.best_within().1,
            forall|other: BinTree| #[trigger]
                self.has_subtree(other) ==> other.complete_size() <= self.best_within().1,
        decreases self,
    {
        match self {
            BinTree::Branch(_, l, r) => {
                l.lemma_best_within_is_largest();
                r.lemma_best_within_is_largest();
                assert forall|other: BinTree| #[trigger] self.has_subtree(other) implies
                    other.complete_size() <= self.best_within().1 by {
                    if other != self && !l.has_subtree(other) {
                        assert(r.has_subtree(other));
                    }
                }
            },
            BinTree::Leaf(_) => {},
        }
    }

    /// The candidate that the search settles on is one of the subtrees with
    /// its complete size, which is the largest that any subtree has.
    pub proof fn lemma_winner_is_largest(self)
        ensures
            self.has_subtree(self.winner().0),
            self.winner().0.complete_size() == self.winner().1,
            self.winner().1 == self.largest_complete_size(),
            forall|other: BinTree| #[trigger]
                self.has_subtree(other) ==> other.complete_size() <= self.winner().1,
    {
        self.lemma_best_within_is_largest();
        match self {
            BinTree::Branch(_, l, r) => {
                l.lemma_best_within_is_largest();
                r.lemma_best_within_is_largest();
            },
            BinTree::Leaf(_) => {},
        }
    }

    /// Pruned to a complete size that is no more than its own, a tree is the
    /// full tree with exactly that many nodes.
    pub proof fn lemma_pruned_to_complete_size_is_full(self, size: nat)
        requires
            is_complete_size(size),
            size <= self.complete_size(),
        ensures
            self.pruned(size).is_full(pruning_depth(size)),
            self.pruned(size).node_count() == size,
        decreases self,
    {
        match self {
            BinTree::Branch(_, l, r) => {
                if size > 1 {
                    l.lemma_pruned_to_complete_size_is_full(size / 2);
                    r.lemma_pruned_to_complete_size_is_full(size / 2);
                }
            },
            BinTree::Leaf(_) => {},
        }
    }

    /// What the search returns is a full tree with as many nodes as the size
    /// it returns, and that size is the largest complete size that any
    /// subtree has. The tree carries the root label of such a subtree, and
    /// none but the labels of the tree that was searched.
    pub proof fn lemma_result_is_full(self)
        ensures
            self.largest_complete_subtree().1 == self.largest_complete_size(),
            is_complete_size(self.largest_complete_subtree().1),
            self.largest_complete_subtree().0.is_full(
                pruning_depth(self.largest_complete_subtree().1),
            ),
            self.largest_complete_subtree().0.node_count() == self.largest_complete_subtree().1,
            self.largest_complete_subtree().0.label() == self.winner().0.label(),
            forall|label: i64| #[trigger]
                self.largest_complete_subtree().0.has_label(label) ==> self.has_label(label),
    {
        let (tree, size) = self.winner();
        self.lemma_winner_is_largest();
        tree.lemma_complete_size_is_full_count();
        tree.lemma_pruned_to_complete_size_is_full(size);
        tree.lemma_pruned_never_grows(size);
        self.lemma_subtree_is_smaller(tree);
        assert forall|label: i64| #[trigger]
            tree.pruned(size).has_label(label) implies self.has_label(label) by {
            tree.lemma_pruned_keeps_labels(size, label);
        }
    }

    /// Searching what the search returned returns it again, tree and size.
    pub proof fn lemma_search_is_idempotent(self)
        ensures
            self.largest_complete_subtree().0.largest_complete_subtree()
                == self.largest_complete_subtree(),
    {
        let (tree, size) = self.largest_complete_subtree();
        let depth = pruning_depth(size);
        self.lemma_result_is_full();
        lemma_complete_size_is_full_count(size);
        tree.lemma_full_is_own_best(depth);
        tree.lemma_pruned_full_is_unchanged(depth, size);
    }

    /// No complete size in a tree exceeds the node count of the full tree of
    /// the same height, nor the tree's own node count. In a tree of height 31
    /// or less every complete size fits in `u32`.
    pub proof fn lemma_largest_complete_size_bound(self)
        ensures
            self.largest_complete_size() <= full_count(self.height()),
            self.largest_complete_size() <= self.node_count(),
            self.height() <= 31 ==> self.largest_complete_size() <= u32::MAX,
    {
        let tree = self.best_within().0;
        self.lemma_best_within_is_largest();
        self.lemma_subtree_is_smaller(tree);
        tree.lemma_complete_size_is_full_count();
        if tree.nearest_leaf() < self.height() {
            lemma_full_count_increases(tree.nearest_leaf(), self.height());
        }
        lemma_full_count_fits(self.height());
    }

    /// The complete size of the root where every complete size in the tree
    /// fits in `u32`, and `None` where one of them does not.
    fn fitting_complete_size(&self) -> (size: Option<u32>)
        ensures
            size is Some <==> self.largest_complete_size() <= u32::MAX,
            size matches Some(fitting) ==> fitting == self.complete_size(),
        decreases self,
    {
        match self {
            BinTree::Leaf(_) => Some(1),
            BinTree::Branch(_, left, right) => {
                let left_size = match left.fitting_complete_size() {
                    Some(fitting) => fitting,
                    None => {
                        return None;
                    },
                };
                let right_size = match right.fitting_complete_size() {
                    Some(fitting) => fitting,
                    None => {
                        return None;
                    },
                };
                let smaller: u32 = if left_size <= right_size {
                    left_size
                } else {
                    right_size
                };
                if smaller > (u32::MAX - 1) / 2 {
                    None
                } else {
                    Some(2 * smaller + 1)
                }
            },
        }
    }

    /// Whether every complete size in the tree fits in `u32`, so that the
    /// tree can be searched.
    pub fn complete_sizes_fit(&self) -> (fit: bool)
        ensures
            fit == (self.largest_complete_size() <= u32::MAX),
    {
        self.fitting_complete_size().is_some()
    }

    /// One pass from the leaves up. Returns the root as a candidate, the best
    /// candidate of the left child's span and the best of the right child's.
    pub fn find_largest_complete_subtree_recursive_aux(&self) -> (found: (
        (Self, u32),
        (Self, u32),
        (Self, u32),
    ))
        requires
            self.largest_complete_size() <= u32::MAX,
        ensures
            is_candidate(found.0, self.own_candidate()),
            is_candidate(found.1, self.best_left()),
            is_candidate(found.2, self.best_right()),
        decreases self,
    {
        match self {
            BinTree::Leaf(x) => (
                (BinTree::Leaf(*x), 1),
                (BinTree::Leaf(*x), 0),
                (BinTree::Leaf(*x), 0),
            ),
            BinTree::Branch(x, left, right) => {
                proof {
                    self.lemma_largest_bounds_children();
                    left.lemma_largest_bounds_children();
                    right.lemma_largest_bounds_children();
                }
                let (
                    (left_own, left_own_size),
                    (left_of_left, left_of_left_size),
                    (right_of_left, right_of_left_size),
                ) = left.find_largest_complete_subtree_recursive_aux();
                let (
                    (right_own, right_own_size),
                    (left_of_right, left_of_right_size),
                    (right_of_right, right_of_right_size),
                ) = right.find_largest_complete_subtree_recursive_aux();
                let smaller: u32 = if left_own_size <= right_own_size {
                    left_own_size
                } else {
                    right_own_size
                };
                let own = BinTree::Branch(
                    *x,
                    Box::new(left_own.clone()),
                    Box::new(right_own.clone()),
                );
                let own_size: u32 = 2 * smaller + 1;
                let (below_left, below_left_size) = if left_of_left_size > right_of_left_size {
                    (left_of_left, left_of_left_size)
                } else {
                    (right_of_left, right_of_left_size)
                };
                let (below_right, below_right_size) = if left_of_right_size
                    > right_of_right_size {
                    (left_of_right, left_of_right_size)
                } else {
                    (right_of_right, right_of_right_size)
                };
                let (best_left, best_left_size) = if left_own_size >= below_left_size {
                    (left_own, left_own_size)
                } else {
                    (below_left, below_left_size)
                };
                let (best_right, best_right_size) = if right_own_size >= below_right_size {
                    (right_own, right_own_size)
                } else {
                    (below_right, below_right_size)
                };
                ((own, own_size), (best_left, best_left_size), (best_right, best_right_size))
            },
        }
    }

    /// The largest complete subtree of the tree, reshaped to its size, and
    /// that size.
    pub fn find_largest_complete_subtree_recursive(&self) -> (found: (Self, u32))
        requires
            self.largest_complete_size() <= u32::MAX,
        ensures
            is_candidate(found, self.largest_complete_subtree()),
            found.1 == self.largest_complete_size(),
            found.0.is_full(pruning_depth(found.1 as nat)),
            found.0.node_count() == found.1,
    {
        proof {
            self.lemma_result_is_full();
        }
        match self {
            BinTree::Leaf(x) => (BinTree::Leaf(*x), 1),
            BinTree::Branch(_, _, _) => {
                let ((own, own_size), (best_left, best_left_size), (best_right, best_right_size)) =
                    self.find_largest_complete_subtree_recursive_aux();
                let (unpruned, size) = if own_size < best_left_size {
                    if best_left_size < best_right_size {
                        (best_right, best_right_size)
                    } else {
                        (best_left, best_left_size)
                    }
                } else {
                    if own_size < best_right_size {
                        (best_right, best_right_size)
                    } else {
                        (own, own_size)
                    }
                };
                (unpruned.prune_tree(size), size)
            },
        }
    }
}

} // verus!
