//! Building trees.
//!
//! Both generators number the nodes as they create them, a node before its
//! children and the left subtree before the right one, so that the labels
//! read 1, 2, 3, ... in pre-order. The full generator branches at every node
//! until the depth is used up. The random generator takes one draw from the
//! unit interval at every node and stops with a leaf where the draw is at
//! most one half.
//!
//! A draw is held as the bit pattern of a single-precision number. The
//! source of the draws is handed in: either a function that gives the next
//! draw whenever it is called, or a script of draws, of which the `k`-th
//! decides the node that gets the label `k`.

use crate::tree::{full_count, lemma_full_count_fits, lemma_full_count_step, BinTree, TreeError};
use vstd::arithmetic::power2::{lemma_pow2_pos, pow2};
use vstd::prelude::*;

verus! {

/// The bit pattern of one half.
pub const HALF_BITS: u32 = 0x3F00_0000;

/// The bit pattern of negative zero, the smallest pattern with the sign set.
pub const NEGATIVE_ZERO_BITS: u32 = 0x8000_0000;

/// The bit pattern of negative infinity, above which the patterns with the
/// sign set are no numbers.
pub const NEGATIVE_INFINITY_BITS: u32 = 0xFF80_0000;

/// Whether the single-precision number with the bit pattern `bits` is at most
/// one half. Among the patterns without sign the numbers are ordered as their
/// patterns are; with the sign set every number, negative zero included, is
/// at most one half; what is not a number is not at most anything.
pub open spec fn at_most_half(bits: u32) -> bool {
    bits <= HALF_BITS || NEGATIVE_ZERO_BITS <= bits <= NEGATIVE_INFINITY_BITS
}

/// Whether a draw ends the growth at its node: the draw is at most one half.
pub fn draw_ends_growth(bits: u32) -> (ends: bool)
    ensures
        ends == at_most_half(bits),
{
    bits <= HALF_BITS || (NEGATIVE_ZERO_BITS <= bits && bits <= NEGATIVE_INFINITY_BITS)
}

/// The full tree with `depth` levels below its root whose labels, in
/// pre-order, count up from `first`.
pub open spec fn full_tree(depth: nat, first: int) -> BinTree
    decreases depth,
{
    if depth == 0 {
        BinTree::Leaf(first as i64)
    } else {
        BinTree::Branch(
            first as i64,
            Box::new(full_tree((depth - 1) as nat, first + 1)),
            Box::new(full_tree((depth - 1) as nat, first + 1 + full_count((depth - 1) as nat))),
        )
    }
}

/// The tree that grows from the draw at position `at` of `draws` on, with at
/// most `depth` levels below its root: its root gets the label `at + 1` and
/// is a leaf where no depth is left or the draw is at most one half, and
/// otherwise a branch over a left subtree grown from the next draw on and a
/// right subtree grown from the draw after those that the left one took.
/// `None` where the draws run out before the tree is done.
pub open spec fn grown(depth: nat, at: nat, draws: Seq<u32>) -> Option<BinTree>
    decreases depth,
{
    if at >= draws.len() {
        None
    } else if depth == 0 || at_most_half(draws[at as int]) {
        Some(BinTree::Leaf((at + 1) as i64))
    } else {
        match grown((depth - 1) as nat, at + 1, draws) {
            None => None,
            Some(left) => match grown((depth - 1) as nat, at + 1 + left.node_count(), draws) {
                None => None,
                Some(right) => Some(
                    BinTree::Branch((at + 1) as i64, Box::new(left), Box::new(right)),
                ),
            },
        }
    }
}

/// Whether every one of `draws` is a value that the source `draw` can give.
pub open spec fn may_give<F: Fn() -> u32>(draw: F, draws: Seq<u32>) -> bool {
    forall|i: int| 0 <= i < draws.len() ==> call_ensures(draw, (), #[trigger] draws[i])
}

/// Whether `tree` grows to at most `depth` levels from draws that the source
/// `draw` can give, one draw for each node and none left over.
pub open spec fn grows_from<F: Fn() -> u32>(draw: F, depth: nat, tree: BinTree) -> bool {
    exists|draws: Seq<u32>|
        may_give(draw, draws) && draws.len() == tree.node_count() && #[trigger] grown(
            depth,
            0,
            draws,
        ) == Some(tree)
}

/// The full tree is full: it has `2^(depth + 1) - 1` nodes and the height
/// `depth`, and its labels count up from `first` where they fit in `i64`.
pub proof fn lemma_full_tree_is_full(depth: nat, first: int)
    ensures
        full_tree(depth, first).is_full(depth),
        full_tree(depth, first).node_count() == full_count(depth),
        full_tree(depth, first).height() == depth,
        i64::MIN <= first && first + full_count(depth) - 1 <= i64::MAX ==> full_tree(
            depth,
            first,
        ).counts_up_from(first),
    decreases depth,
{
    let tree = full_tree(depth, first);
    lemma_full_count_step(depth);
    if depth > 0 {
        let lower = (depth - 1) as nat;
        lemma_full_tree_is_full(lower, first + 1);
        lemma_full_tree_is_full(lower, first + 1 + full_count(lower));
        tree.lemma_full_measures(depth);
        if i64::MIN <= first && first + full_count(depth) - 1 <= i64::MAX {
            tree.lemma_counts_up_branch(first);
        }
    }
}

/// Whatever the draws, a tree that grows from them has at most `depth`
/// levels and no more nodes than the full tree of that depth, takes one draw
/// for each of its nodes, and has labels that count up from one more than the
/// position of its first draw, where they fit in `i64`.
pub proof fn lemma_grown_is_bounded(depth: nat, at: nat, draws: Seq<u32>)
    requires
        grown(depth, at, draws) is Some,
    ensures
        grown(depth, at, draws).unwrap().height() <= depth,
        grown(depth, at, draws).unwrap().node_count() <= full_count(depth),
        at + grown(depth, at, draws).unwrap().node_count() <= draws.len(),
        at + grown(depth, at, draws).unwrap().node_count() <= i64::MAX ==> grown(
            depth,
            at,
            draws,
        ).unwrap().counts_up_from(at as int + 1),
    decreases depth,
{
    let tree = grown(depth, at, draws).unwrap();
    lemma_full_count_step(depth);
    if !(depth == 0 || at_most_half(draws[at as int])) {
        let lower = (depth - 1) as nat;
        let left = grown(lower, at + 1, draws).unwrap();
        lemma_grown_is_bounded(lower, at + 1, draws);
        lemma_grown_is_bounded(lower, at + 1 + left.node_count(), draws);
        if at + tree.node_count() <= i64::MAX {
            tree.lemma_counts_up_branch(at as int + 1);
        }
    }
}

/// A script with a draw for every node of the full tree is long enough,
/// whatever it holds.
pub proof fn lemma_grown_with_enough_draws(depth: nat, at: nat, draws: Seq<u32>)
    requires
        at + full_count(depth) <= draws.len(),
    ensures
        grown(depth, at, draws) is Some,
    decreases depth,
{
    lemma_full_count_step(depth);
    if depth > 0 && !at_most_half(draws[at as int]) {
        let lower = (depth - 1) as nat;
        lemma_grown_with_enough_draws(lower, at + 1, draws);
        lemma_grown_is_bounded(lower, at + 1, draws);
        let left = grown(lower, at + 1, draws).unwrap();
        lemma_grown_with_enough_draws(lower, at + 1 + left.node_count(), draws);
    }
}

/// Where every draw that the tree takes is above one half, the tree is the
/// full tree.
pub proof fn lemma_grown_from_high_draws_is_full(depth: nat, at: nat, draws: Seq<u32>)
    requires
        grown(depth, at, draws) is Some,
        forall|i: int|
            at <= i < at + grown(depth, at, draws).unwrap().node_count() ==> !at_most_half(
                #[trigger] draws[i],
            ),
    ensures
        grown(depth, at, draws) == Some(full_tree(depth, at as int + 1)),
    decreases depth,
{
    if depth > 0 {
        let lower = (depth - 1) as nat;
        lemma_grown_is_bounded(depth, at, draws);
        let left = grown(lower, at + 1, draws).unwrap();
        lemma_grown_from_high_draws_is_full(lower, at + 1, draws);
        lemma_full_tree_is_full(lower, at as int + 2);
        lemma_grown_from_high_draws_is_full(lower, at + 1 + left.node_count(), draws);
    }
}

/// What grew from a script grows from every longer script that begins with
/// it: draws beyond those that the tree took change nothing.
pub proof fn lemma_grown_ignores_later_draws(depth: nat, at: nat, draws: Seq<u32>, more: Seq<u32>)
    requires
        grown(depth, at, draws) is Some,
    ensures
        grown(depth, at, draws + more) == grown(depth, at, draws),
    decreases depth,
{
    if !(depth == 0 || at_most_half(draws[at as int])) {
        let lower = (depth - 1) as nat;
        let left = grown(lower, at + 1, draws).unwrap();
        lemma_grown_ignores_later_draws(lower, at + 1, draws, more);
        lemma_grown_ignores_later_draws(lower, at + 1 + left.node_count(), draws, more);
    }
}

impl BinTree {
    /// The full tree of `depth` levels whose labels count up from one more
    /// than `index`, which is left at the last label given.
    pub fn generate_tree_recursive(depth: i64, index: &mut i64) -> (out: Self)
        requires
            depth >= 0,
            *old(index) + full_count(depth as nat) <= i64::MAX,
        ensures
            out == full_tree(depth as nat, *old(index) + 1),
            *final(index) == *old(index) + full_count(depth as nat),
        decreases depth,
    {
        proof {
            lemma_full_count_step(depth as nat);
        }
        if depth == 0 {
            *index += 1;
            BinTree::Leaf(*index)
        } else {
            *index += 1;
            let item = *index;
            let left = Self::generate_tree_recursive(depth - 1, index);
            let right = Self::generate_tree_recursive(depth - 1, index);
            BinTree::Branch(item, Box::new(left), Box::new(right))
        }
    }

    /// The full tree of `depth` levels with the labels 1, 2, 3, ... in
    /// pre-order. A depth below zero is an error. Beyond the depth 62 the
    /// labels would not fit in `i64`.
    pub fn generate_tree(depth: i64) -> (out: Result<Self, TreeError>)
        requires
            depth <= 62,
        ensures
            depth < 0 ==> out == Err::<Self, TreeError>(TreeError::InvalidArgument),
            depth >= 0 ==> out == Ok::<Self, TreeError>(full_tree(depth as nat, 1)),
            out matches Ok(tree) ==> tree.is_full(depth as nat) && tree.node_count() == pow2(
                (depth + 1) as nat,
            ) - 1 && tree.height() == depth && tree.counts_up_from(1),
    {
        if depth < 0 {
            return Err(TreeError::InvalidArgument);
        }
        proof {
            lemma_full_count_fits(depth as nat);
            lemma_full_tree_is_full(depth as nat, 1);
            lemma_pow2_pos((depth + 1) as nat);
        }
        let mut index: i64 = 0;
        Ok(Self::generate_tree_recursive(depth, &mut index))
    }

    /// The tree that grows from the draws that `draw` gives, one for each
    /// node as the node is made. `index` counts the nodes made so far and
    /// `taken` holds the draws taken for them; the draws taken in all are
    /// handed back with the tree.
    fn generate_random_tree_recursive<F: Fn() -> u32>(
        depth: i64,
        index: &mut i64,
        draw: &F,
        Ghost(taken): Ghost<Seq<u32>>,
    ) -> (out: (Self, Ghost<Seq<u32>>))
        requires
            depth >= 0,
            *old(index) >= 0,
            *old(index) + full_count(depth as nat) <= i64::MAX,
            taken.len() == *old(index),
            call_requires(*draw, ()),
        ensures
            grown(depth as nat, *old(index) as nat, out.1@) == Some(out.0),
            *final(index) == *old(index) + out.0.node_count(),
            out.0.node_count() <= full_count(depth as nat),
            out.1@.len() == *final(index),
            forall|i: int| 0 <= i < taken.len() ==> out.1@[i] == taken[i],
            forall|i: int|
                taken.len() <= i < out.1@.len() ==> call_ensures(*draw, (), #[trigger] out.1@[i]),
        decreases depth,
    {
        proof {
            lemma_full_count_step(depth as nat);
        }
        let rnd_number: u32 = draw();
        let ghost with_own = taken.push(rnd_number);
        if depth == 0 || draw_ends_growth(rnd_number) {
            *index += 1;
            (BinTree::Leaf(*index), Ghost(with_own))
        } else {
            *index += 1;
            let item = *index;
            let (left, Ghost(with_left)) = Self::generate_random_tree_recursive(
                depth - 1,
                index,
                draw,
                Ghost(with_own),
            );
            let (right, Ghost(with_right)) = Self::generate_random_tree_recursive(
                depth - 1,
                index,
                draw,
                Ghost(with_left),
            );
            proof {
                let later = with_right.subrange(with_left.len() as int, with_right.len() as int);
                assert(with_right =~= with_left + later);
                lemma_grown_ignores_later_draws((depth - 1) as nat, item as nat, with_left, later);
                assert(with_right[item - 1] == with_own[item - 1]);
                assert forall|i: int| 0 <= i < taken.len() implies with_right[i] == taken[i] by {
                    assert(with_left[i] == with_own[i]);
                }
            }
            (BinTree::Branch(item, Box::new(left), Box::new(right)), Ghost(with_right))
        }
    }

    /// A tree of at most `depth` levels, grown from the draws that `draw`
    /// gives: `draw` is called once for every node, in the order of the
    /// labels. A depth below zero is an error. Beyond the depth 62 the labels
    /// might not fit in `i64`.
    pub fn generate_random_tree<F: Fn() -> u32>(depth: i64, draw: F) -> (out: Result<
        Self,
        TreeError,
    >)
        requires
            depth <= 62,
            call_requires(draw, ()),
        ensures
            depth < 0 ==> out == Err::<Self, TreeError>(TreeError::InvalidArgument),
            depth >= 0 ==> out is Ok,
            out matches Ok(tree) ==> grows_from(draw, depth as nat, tree),
            out matches Ok(tree) ==> tree.height() <= depth && tree.node_count() <= pow2(
                (depth + 1) as nat,
            ) - 1 && tree.counts_up_from(1),
            depth >= 0 && (forall|bits: u32| call_ensures(draw, (), bits) ==> !at_most_half(bits))
                ==> out == Ok::<Self, TreeError>(full_tree(depth as nat, 1)),
    {
        if depth < 0 {
            return Err(TreeError::InvalidArgument);
        }
        proof {
            lemma_full_count_fits(depth as nat);
            lemma_pow2_pos((depth + 1) as nat);
        }
        let mut index: i64 = 0;
        let (tree, Ghost(draws)) = Self::generate_random_tree_recursive(
            depth,
            &mut index,
            &draw,
            Ghost(Seq::empty()),
        );
        proof {
            lemma_grown_is_bounded(depth as nat, 0, draws);
            if forall|bits: u32| call_ensures(draw, (), bits) ==> !at_most_half(bits) {
                lemma_grown_from_high_draws_is_full(depth as nat, 0, draws);
            }
        }
        Ok(tree)
    }

    /// The tree that grows from the draw at position `index` of the script
    /// on, or `None` where the script runs out. `index` counts the draws
    /// taken and the labels given alike.
    pub fn generate_scripted_tree_recursive(depth: i64, index: &mut i64, draws: &Vec<u32>) -> (out:
        Option<Self>)
        requires
            depth >= 0,
            *old(index) >= 0,
            draws.len() <= i64::MAX,
        ensures
            out == grown(depth as nat, *old(index) as nat, draws@),
            out matches Some(tree) ==> *final(index) == *old(index) + tree.node_count()
                && *final(index) <= draws.len(),
        decreases depth,
    {
        if *index as u64 >= draws.len() as u64 {
            return None;
        }
        let rnd_number: u32 = draws[*index as usize];
        if depth == 0 || draw_ends_growth(rnd_number) {
            *index += 1;
            Some(BinTree::Leaf(*index))
        } else {
            *index += 1;
            let item = *index;
            let left = match Self::generate_scripted_tree_recursive(depth - 1, index, draws) {
                Some(tree) => tree,
                None => {
                    return None;
                },
            };
            let right = match Self::generate_scripted_tree_recursive(depth - 1, index, draws) {
                Some(tree) => tree,
                None => {
                    return None;
                },
            };
            Some(BinTree::Branch(item, Box::new(left), Box::new(right)))
        }
    }

    /// The tree of at most `depth` levels that grows from the script `draws`,
    /// or `None` where the script is too short for it: the tree that the
    /// random generator gives when its source gives these draws. A depth
    /// below zero is an error.
    pub fn generate_scripted_tree(depth: i64, draws: &Vec<u32>) -> (out: Result<
        Option<Self>,
        TreeError,
    >)
        requires
            draws.len() <= i64::MAX,
        ensures
            depth < 0 ==> out == Err::<Option<Self>, TreeError>(TreeError::InvalidArgument),
            depth >= 0 ==> out == Ok::<Option<Self>, TreeError>(grown(depth as nat, 0, draws@)),
            depth >= 0 && draws.len() >= pow2((depth + 1) as nat) - 1 ==> out matches Ok(Some(_)),
            out matches Ok(Some(tree)) ==> tree.height() <= depth && tree.node_count()
                <= draws.len() && tree.counts_up_from(1),
    {
        if depth < 0 {
            return Err(TreeError::InvalidArgument);
        }
        proof {
            lemma_pow2_pos((depth + 1) as nat);
            if draws.len() >= full_count(depth as nat) {
                lemma_grown_with_enough_draws(depth as nat, 0, draws@);
            }
            if grown(depth as nat, 0, draws@) is Some {
                lemma_grown_is_bounded(depth as nat, 0, draws@);
            }
        }
        let mut index: i64 = 0;
        Ok(Self::generate_scripted_tree_recursive(depth, &mut index, draws))
    }
}

} // verus!
