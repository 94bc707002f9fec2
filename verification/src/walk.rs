//! Depth-first walks: the records by which a tree is printed, and the search
//! for a label.
//!
//! A tree is printed left subtree first, then the node, then the right
//! subtree, one record per node. The walk exists in two forms, one recursive
//! and one with an explicit stack; both give the same records.

use crate::tree::BinTree;
use vstd::prelude::*;

verus! {

/// What is printed of one node: its label, how many levels it lies below the
/// root of the walk, and whether it is a leaf.
#[derive(Debug, Clone, Copy, PartialEq, Eq)]
pub struct PrintRecord {
    pub label: i64,
    pub depth: u32,
    pub is_leaf: bool,
}

/// The record of a leaf.
pub open spec fn leaf_record(label: i64, depth: u32) -> PrintRecord {
    PrintRecord { label, depth, is_leaf: true }
}

/// The record of a branch.
pub open spec fn branch_record(label: i64, depth: u32) -> PrintRecord {
    PrintRecord { label, depth, is_leaf: false }
}

/// The number of nodes in all the trees on a stack.
spec fn stack_weight(stack: Seq<(&BinTree, u32)>) -> nat
    decreases stack.len(),
{
    if stack.len() == 0 {
        0
    } else {
        stack.last().0.node_count() + stack_weight(stack.drop_last())
    }
}

/// What a walk has yet to give out when `stack` holds the subtrees still to
/// visit, the next one on top, and `pending` the branches whose left subtree
/// is under way, the innermost on top: the records of the top subtree, then
/// the innermost pending branch, then the same of what lies below.
spec fn walk_output(stack: Seq<(&BinTree, u32)>, pending: Seq<(i64, u32)>) -> Seq<
    PrintRecord,
>
    decreases stack.len(),
{
    if stack.len() == 0 {
        Seq::empty()
    } else if pending.len() == 0 {
        stack.last().0.records(stack.last().1) + walk_output(stack.drop_last(), pending)
    } else {
        stack.last().0.records(stack.last().1) + seq![
            branch_record(pending.last().0, pending.last().1),
        ] + walk_output(stack.drop_last(), pending.drop_last())
    }
}

/// The number of nodes in all the trees on a search stack.
spec fn forest_size(stack: Seq<&BinTree>) -> nat
    decreases stack.len(),
{
    if stack.len() == 0 {
        0
    } else {
        stack.last().node_count() + forest_size(stack.drop_last())
    }
}

/// Whether some tree on a search stack holds `label`.
spec fn forest_has_label(stack: Seq<&BinTree>, label: i64) -> bool
    decreases stack.len(),
{
    stack.len() > 0 && (stack.last().has_label(label) || forest_has_label(
        stack.drop_last(),
        label,
    ))
}

/// What one more tree on top adds to a search stack.
proof fn lemma_forest_push(stack: Seq<&BinTree>, top: &BinTree, label: i64)
    ensures
        forest_size(stack.push(top)) == forest_size(stack) + top.node_count(),
        forest_has_label(stack.push(top), label) == (top.has_label(label) || forest_has_label(
            stack,
            label,
        )),
{
    assert(stack.push(top).drop_last() =~= stack);
}

/// Whether every subtree on the stack can be walked from its level without
/// the depth leaving `u32`.
spec fn levels_fit(stack: Seq<(&BinTree, u32)>) -> bool {
    forall|i: int| 0 <= i < stack.len() ==> (#[trigger] stack[i]).0.height() + stack[i].1 <= u32::MAX
}

/// What one more tree on top adds to the weight of a stack.
proof fn lemma_weight_push(stack: Seq<(&BinTree, u32)>, top: (&BinTree, u32))
    ensures
        stack_weight(stack.push(top)) == stack_weight(stack) + top.0.node_count(),
{
    assert(stack.push(top).drop_last() =~= stack);
}

/// Replacing a branch on top of the stack by its two children, the left one
/// on top, and putting the branch itself on the pending stack leaves the
/// output of the walk unchanged.
proof fn lemma_walk_branch(
    below: Seq<(&BinTree, u32)>,
    pending: Seq<(i64, u32)>,
    tree: &BinTree,
    level: u32,
)
    requires
        tree is Branch,
        level < u32::MAX,
    ensures
        walk_output(below.push((tree, level)), pending) == walk_output(
            below.push((&*tree->Branch_2, (level + 1) as u32)).push(
                (&*tree->Branch_1, (level + 1) as u32),
            ),
            pending.push((tree->Branch_0, level)),
        ),
{
    let next: u32 = (level + 1) as u32;
    let left: &BinTree = &*tree->Branch_1;
    let right: &BinTree = &*tree->Branch_2;
    let with_right = below.push((right, next));
    let with_both = with_right.push((left, next));
    let more = pending.push((tree->Branch_0, level));
    assert(below.push((tree, level)).drop_last() =~= below);
    assert(with_both.drop_last() =~= with_right);
    assert(with_right.drop_last() =~= below);
    assert(more.drop_last() =~= pending);
    assert(walk_output(with_both, more) == left.records(next) + seq![
        branch_record(tree->Branch_0, level),
    ] + walk_output(with_right, pending));
}

impl BinTree {
    /// The records of the tree when its root lies at `level`: those of the
    /// left subtree, the root's own, those of the right subtree.
    pub open spec fn records(self, level: u32) -> Seq<PrintRecord>
        decreases self,
    {
        match self {
            BinTree::Branch(x, l, r) => l.records((level + 1) as u32) + seq![
                branch_record(x, level),
            ] + r.records((level + 1) as u32),
            BinTree::Leaf(x) => seq![leaf_record(x, level)],
        }
    }

    /// There is one record for every node, and each lies between `level` and
    /// the tree's height below it.
    pub proof fn lemma_records_cover_tree(self, level: u32)
        requires
            self.height() + level <= u32::MAX,
        ensures
            self.records(level).len() == self.node_count(),
            forall|i: int|
                0 <= i < self.records(level).len() ==> level <= (#[trigger] self.records(
                    level,
                )[i]).depth <= level + self.height(),
        decreases self,
    {
        match self {
            BinTree::Branch(_, l, r) => {
                let next = (level + 1) as u32;
                let left = l.records(next);
                let right = r.records(next);
                l.lemma_records_cover_tree(next);
                r.lemma_records_cover_tree(next);
                assert forall|i: int| 0 <= i < self.records(level).len() implies level <= (
                #[trigger] self.records(level)[i]).depth <= level + self.height() by {
                    if i < left.len() {
                        assert(self.records(level)[i] == left[i]);
                    } else if i > left.len() {
                        assert(self.records(level)[i] == right[i - left.len() - 1]);
                    }
                }
            },
            BinTree::Leaf(_) => {},
        }
    }

    /// The records of the tree, found with an explicit stack of the subtrees
    /// still to visit and a second stack of the branches whose record is
    /// still owed.
    pub fn print_tree_nonrec(&self) -> (out: Vec<PrintRecord>)
        requires
            self.height() <= u32::MAX,
        ensures
            out@ == self.records(0),
    {
        let mut stack: Vec<(&BinTree, u32)> = Vec::new();
        stack.push((self, 0));
        let mut print_stack: Vec<(i64, u32)> = Vec::new();
        let mut out: Vec<PrintRecord> = Vec::new();
        assert(out@ + walk_output(stack@, print_stack@) =~= self.records(0)) by {
            assert(walk_output(stack@.drop_last(), print_stack@) =~= Seq::empty());
        }
        while stack.len() > 0
            invariant
                levels_fit(stack@),
                out@ + walk_output(stack@, print_stack@) == self.records(0),
            decreases stack_weight(stack@),
        {
            let ghost before = stack@;
            let ghost owed = print_stack@;
            let ghost given = out@;
            let (bin_tree, level) = stack.pop().unwrap();
            assert(before =~= stack@.push((bin_tree, level)));
            proof {
                lemma_weight_push(stack@, (bin_tree, level));
            }
            match bin_tree {
                BinTree::Branch(item, left_tree, right_tree) => {
                    proof {
                        lemma_walk_branch(stack@, owed, bin_tree, level);
                        lemma_weight_push(stack@, (&**right_tree, (level + 1) as u32));
                        lemma_weight_push(
                            stack@.push((&**right_tree, (level + 1) as u32)),
                            (&**left_tree, (level + 1) as u32),
                        );
                    }
                    print_stack.push((*item, level));
                    stack.push((&**right_tree, level + 1));
                    stack.push((&**left_tree, level + 1));
                },
                BinTree::Leaf(item) => {
                    out.push(PrintRecord { label: *item, depth: level, is_leaf: true });
                    match print_stack.pop() {
                        Some((item, level)) => {
                            out.push(PrintRecord { label: item, depth: level, is_leaf: false });
                            assert(out@ + walk_output(stack@, print_stack@) =~= given
                                + walk_output(before, owed));
                        },
                        None => {
                            assert(out@ + walk_output(stack@, print_stack@) =~= given
                                + walk_output(before, owed));
                        },
                    }
                },
            }
        }
        out
    }

    /// Appends the records of the tree, its root lying at `level`, to `out`.
    pub fn print_tree_level_recursive(&self, level: u32, out: &mut Vec<PrintRecord>)
        requires
            self.height() + level <= u32::MAX,
        ensures
            final(out)@ == old(out)@ + self.records(level),
        decreases self,
    {
        match self {
            BinTree::Branch(item, left_tree, right_tree) => {
                left_tree.print_tree_level_recursive(level + 1, out);
                out.push(PrintRecord { label: *item, depth: level, is_leaf: false });
                right_tree.print_tree_level_recursive(level + 1, out);
            },
            BinTree::Leaf(item) => {
                out.push(PrintRecord { label: *item, depth: level, is_leaf: true });
            },
        }
    }

    /// The records of the tree, found by recursion.
    pub fn print_tree(&self) -> (out: Vec<PrintRecord>)
        requires
            self.height() <= u32::MAX,
        ensures
            out@ == self.records(0),
    {
        let mut out: Vec<PrintRecord> = Vec::new();
        self.print_tree_level_recursive(0, &mut out);
        out
    }

    /// Whether some node of the tree carries `item_to_search`. The search
    /// keeps the subtrees still to visit on an explicit stack and stops at
    /// the first node that matches.
    pub fn deep_search_tree_nonrec(&self, item_to_search: i64) -> (found: bool)
        ensures
            found == self.has_label(item_to_search),
            found == self.labels().contains(item_to_search),
    {
        let mut stack: Vec<&BinTree> = Vec::new();
        stack.push(self);
        proof {
            self.lemma_has_label_iff_listed(item_to_search);
            lemma_forest_push(Seq::empty(), self, item_to_search);
        }
        while stack.len() > 0
            invariant
                self.has_label(item_to_search) == self.labels().contains(item_to_search),
                self.has_label(item_to_search) == forest_has_label(stack@, item_to_search),
            decreases forest_size(stack@),
        {
            let bin_tree = stack.pop().unwrap();
            proof {
                lemma_forest_push(stack@, bin_tree, item_to_search);
            }
            match bin_tree {
                BinTree::Branch(item, left_tree, right_tree) => {
                    if *item == item_to_search {
                        return true;
                    }
                    proof {
                        lemma_forest_push(stack@, &**right_tree, item_to_search);
                        lemma_forest_push(stack@.push(&**right_tree), &**left_tree, item_to_search);
                    }
                    stack.push(&**right_tree);
                    stack.push(&**left_tree);
                },
                BinTree::Leaf(item) => {
                    if *item == item_to_search {
                        return true;
                    }
                },
            }
        }
        false
    }
}

} // verus!
