//! Reshaping a tree to a budget of nodes.
//!
//! Pruning walks down from the root with a budget that halves at every
//! level, and turns a branch into a leaf where the budget is down to one. So
//! it cuts the tree off below as many levels as the budget can be halved.
//! The result has no more nodes than the budget where the budget is the node
//! count of a full tree, one less than a power of two: only then does each
//! halving leave exactly the budget of one child.

use crate::tree::{full_count, lemma_full_count_step, BinTree};
use vstd::prelude::*;

verus! {

/// Whether `size` is the node count of a full tree: 1, or an odd number from
/// 3 on whose half, rounded down, is such a count again.
pub open spec fn is_complete_size(size: nat) -> bool
    decreases size,
{
    size == 1 || (size >= 3 && size % 2 == 1 && is_complete_size(size / 2))
}

/// The number of levels that pruning to the budget `size` leaves below the
/// root at most: how often `size` can be halved before it is down to one.
pub open spec fn pruning_depth(size: nat) -> nat
    decreases size,
{
    if size <= 1 {
        0
    } else {
        1 + pruning_depth(size / 2)
    }
}

/// The node count of every full tree is a complete size, and pruning to it
/// leaves as many levels as that tree has.
pub proof fn lemma_full_count_is_complete(depth: nat)
    ensures
        is_complete_size(full_count(depth)),
        pruning_depth(full_count(depth)) == depth,
    decreases depth,
{
    lemma_full_count_step(depth);
    if depth > 0 {
        lemma_full_count_is_complete((depth - 1) as nat);
    }
}

/// A complete size is the node count of the full tree with as many levels as
/// pruning to that size leaves.
pub proof fn lemma_complete_size_is_full_count(size: nat)
    requires
        is_complete_size(size),
    ensures
        size == full_count(pruning_depth(size)),
    decreases size,
{
    lemma_full_count_step(pruning_depth(size));
    if size != 1 {
        lemma_complete_size_is_full_count(size / 2);
    }
}

/// A budget, halved as often as it can be, never exceeds the node count of
/// the full tree with that many levels, and reaches it exactly where it is a
/// complete size.
pub proof fn lemma_budget_below_full_count(size: nat)
    ensures
        size <= full_count(pruning_depth(size)),
        size == full_count(pruning_depth(size)) <==> is_complete_size(size),
    decreases size,
{
    lemma_full_count_step(pruning_depth(size));
    if size > 1 {
        lemma_budget_below_full_count(size / 2);
    }
}

impl BinTree {
    /// The tree pruned to the budget `size`: a leaf stays, a branch becomes a
    /// leaf with its own label where `size <= 1`, and otherwise keeps its
    /// label over its two children pruned to `size / 2`.
    pub open spec fn pruned(self, size: nat) -> BinTree
        decreases self,
    {
        match self {
            BinTree::Branch(x, l, r) => if size <= 1 {
                BinTree::Leaf(x)
            } else {
                BinTree::Branch(x, Box::new(l.pruned(size / 2)), Box::new(r.pruned(size / 2)))
            },
            BinTree::Leaf(x) => BinTree::Leaf(x),
        }
    }

    /// The tree cut off below `depth` levels: a branch that lies `depth`
    /// levels down becomes a leaf with its own label.
    pub open spec fn truncated(self, depth: nat) -> BinTree
        decreases self,
    {
        match self {
            BinTree::Branch(x, l, r) => if depth == 0 {
                BinTree::Leaf(x)
            } else {
                BinTree::Branch(
                    x,
                    Box::new(l.truncated((depth - 1) as nat)),
                    Box::new(r.truncated((depth - 1) as nat)),
                )
            },
            BinTree::Leaf(x) => BinTree::Leaf(x),
        }
    }

    /// Pruning to a budget cuts the tree off below as many levels as the
    /// budget can be halved, so budgets that can be halved equally often
    /// give the same tree.
    pub proof fn lemma_pruned_is_truncated(self, size: nat)
        ensures
            self.pruned(size) == self.truncated(pruning_depth(size)),
        decreases self,
    {
        match self {
            BinTree::Branch(_, l, r) => {
                if size > 1 {
                    l.lemma_pruned_is_truncated(size / 2);
                    r.lemma_pruned_is_truncated(size / 2);
                }
            },
            BinTree::Leaf(_) => {},
        }
    }

    /// A tree cut off below `depth` levels has at most `depth` levels, and no
    /// more nodes than the full tree of that depth or than it had before.
    pub proof fn lemma_truncated_count(self, depth: nat)
        ensures
            self.truncated(depth).node_count() <= full_count(depth),
            self.truncated(depth).node_count() <= self.node_count(),
            self.truncated(depth).height() <= depth,
        decreases self,
    {
        lemma_full_count_step(depth);
        match self {
            BinTree::Branch(_, l, r) => {
                if depth > 0 {
                    l.lemma_truncated_count((depth - 1) as nat);
                    r.lemma_truncated_count((depth - 1) as nat);
                }
            },
            BinTree::Leaf(_) => {},
        }
    }

    /// Cutting a full tree off below its own depth, or further down, leaves
    /// it as it is.
    pub proof fn lemma_truncated_full_is_unchanged(self, depth: nat, below: nat)
        requires
            self.is_full(depth),
            below >= depth,
        ensures
            self.truncated(below) == self,
        decreases self,
    {
        match self {
            BinTree::Branch(_, l, r) => {
                l.lemma_truncated_full_is_unchanged((depth - 1) as nat, (below - 1) as nat);
                r.lemma_truncated_full_is_unchanged((depth - 1) as nat, (below - 1) as nat);
            },
            BinTree::Leaf(_) => {},
        }
    }

    /// Pruning keeps the root's label, adds no node and no level, and leaves
    /// at most as many levels as the budget can be halved.
    pub proof fn lemma_pruned_never_grows(self, size: nat)
        ensures
            self.pruned(size).label() == self.label(),
            self.pruned(size).node_count() <= self.node_count(),
            self.pruned(size).height() <= self.height(),
            self.pruned(size).height() <= pruning_depth(size),
        decreases self,
    {
        match self {
            BinTree::Branch(_, l, r) => {
                if size > 1 {
                    l.lemma_pruned_never_grows(size / 2);
                    r.lemma_pruned_never_grows(size / 2);
                }
            },
            BinTree::Leaf(_) => {},
        }
    }

    /// Every label of the pruned tree is a label of the tree.
    pub proof fn lemma_pruned_keeps_labels(self, size: nat, label: i64)
        requires
            self.pruned(size).has_label(label),
        ensures
            self.has_label(label),
        decreases self,
    {
        match self {
            BinTree::Branch(x, l, r) => {
                if size > 1 && x != label {
                    if l.pruned(size / 2).has_label(label) {
                        l.lemma_pruned_keeps_labels(size / 2, label);
                    } else {
                        r.lemma_pruned_keeps_labels(size / 2, label);
                    }
                }
            },
            BinTree::Leaf(_) => {},
        }
    }

    /// Pruned to a budget of one or less, every tree is the single leaf with
    /// its root's label.
    pub proof fn lemma_pruned_to_leaf(self, size: nat)
        requires
            size <= 1,
        ensures
            self.pruned(size) == BinTree::Leaf(self.label()),
    {
    }

    /// The pruned tree has at most `size` nodes where `size` is a complete
    /// size, and where the tree had no more than `size` nodes to begin with.
    /// For other budgets it can have more: a branch over two leaves, pruned
    /// to 2, keeps its three nodes, and no tree has 0 nodes.
    pub proof fn lemma_pruned_within_budget(self, size: nat)
        requires
            is_complete_size(size) || self.node_count() <= size,
        ensures
            self.pruned(size).node_count() <= size,
        decreases self,
    {
        self.lemma_pruned_never_grows(size);
        if is_complete_size(size) {
            match self {
                BinTree::Branch(_, l, r) => {
                    if size > 1 {
                        l.lemma_pruned_within_budget(size / 2);
                        r.lemma_pruned_within_budget(size / 2);
                    }
                },
                BinTree::Leaf(_) => {},
            }
        }
    }

    /// Under every budget that is no complete size some tree keeps more nodes
    /// than the budget: the full tree with as many levels as the budget can
    /// be halved is left as it is, and has more.
    pub proof fn lemma_pruned_beyond_budget(self, size: nat)
        requires
            !is_complete_size(size),
            self.is_full(pruning_depth(size)),
        ensures
            self.pruned(size) == self,
            self.pruned(size).node_count() > size,
    {
        lemma_budget_below_full_count(size);
        self.lemma_pruned_is_truncated(size);
        self.lemma_truncated_full_is_unchanged(pruning_depth(size), pruning_depth(size));
        self.lemma_full_measures(pruning_depth(size));
    }

    /// A full tree pruned to its own node count, or to any larger budget,
    /// stays as it is.
    pub proof fn lemma_pruned_full_is_unchanged(self, depth: nat, size: nat)
        requires
            self.is_full(depth),
            size >= full_count(depth),
        ensures
            self.pruned(size) == self,
        decreases self,
    {
        lemma_full_count_step(depth);
        match self {
            BinTree::Branch(_, l, r) => {
                l.lemma_pruned_full_is_unchanged((depth - 1) as nat, size / 2);
                r.lemma_pruned_full_is_unchanged((depth - 1) as nat, size / 2);
            },
            BinTree::Leaf(_) => {},
        }
    }

    /// A new tree, pruned to the budget `size`.
    pub fn prune_tree(&self, size: u32) -> (out: Self)
        ensures
            out == self.pruned(size as nat),
            size <= 1 ==> out == BinTree::Leaf(self.label()),
            is_complete_size(size as nat) ==> out.node_count() <= size,
            out.node_count() <= self.node_count(),
        decreases self,
    {
        proof {
            self.lemma_pruned_never_grows(size as nat);
            if is_complete_size(size as nat) {
                self.lemma_pruned_within_budget(size as nat);
            }
        }
        match self {
            BinTree::Leaf(x) => BinTree::Leaf(*x),
            BinTree::Branch(x, lt, rt) => {
                if size <= 1 {
                    BinTree::Leaf(*x)
                } else {
                    let new_lt = lt.prune_tree(size / 2);
                    let new_rt = rt.prune_tree(size / 2);
                    BinTree::Branch(*x, Box::new(new_lt), Box::new(new_rt))
                }
            },
        }
    }
}

} // verus!
