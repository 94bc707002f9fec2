use std::cell::Cell;
use tree_lib::generate::{draw_ends_growth, HALF_BITS};
use tree_lib::tree::{BinTree, TreeError};

fn leaf(x: i64) -> BinTree {
    BinTree::Leaf(x)
}

fn branch(x: i64, l: BinTree, r: BinTree) -> BinTree {
    BinTree::Branch(x, Box::new(l), Box::new(r))
}

fn count(tree: &BinTree) -> u64 {
    match tree {
        BinTree::Leaf(_) => 1,
        BinTree::Branch(_, l, r) => 1 + count(l) + count(r),
    }
}

fn height(tree: &BinTree) -> u64 {
    match tree {
        BinTree::Leaf(_) => 0,
        BinTree::Branch(_, l, r) => 1 + height(l).max(height(r)),
    }
}

fn preorder(tree: &BinTree, out: &mut Vec<i64>) {
    match tree {
        BinTree::Leaf(x) => out.push(*x),
        BinTree::Branch(x, l, r) => {
            out.push(*x);
            preorder(l, out);
            preorder(r, out);
        }
    }
}

fn high() -> u32 {
    0.75f32.to_bits()
}

fn low() -> u32 {
    0.25f32.to_bits()
}

/// A fixed sequence of draws from the unit interval, as bit patterns.
fn scripted_draws(seed: u64, len: usize) -> Vec<u32> {
    let mut state = seed;
    let mut draws = Vec::new();
    for _ in 0..len {
        state = state
            .wrapping_mul(6364136223846793005)
            .wrapping_add(1442695040888963407);
        let top = (state >> 40) as u32;
        let draw = top as f32 / 16777216.0f32;
        assert!(draw >= 0.0 && draw < 1.0);
        draws.push(draw.to_bits());
    }
    draws
}

#[test]
fn full_tree_of_depth_zero_is_one_leaf() {
    assert_eq!(BinTree::generate_tree(0), Ok(leaf(1)));
}

#[test]
fn full_tree_of_depth_one() {
    assert_eq!(BinTree::generate_tree(1), Ok(branch(1, leaf(2), leaf(3))));
}

#[test]
fn full_tree_of_depth_two_is_numbered_in_preorder() {
    let expected = branch(
        1,
        branch(2, leaf(3), leaf(4)),
        branch(5, leaf(6), leaf(7)),
    );
    assert_eq!(BinTree::generate_tree(2), Ok(expected));
}

#[test]
fn full_tree_has_two_to_the_depth_plus_one_minus_one_nodes() {
    for depth in 0..=12i64 {
        let tree = BinTree::generate_tree(depth).unwrap();
        let nodes = (1u64 << (depth + 1)) - 1;
        assert_eq!(count(&tree), nodes);
        assert_eq!(height(&tree), depth as u64);
        let mut labels = Vec::new();
        preorder(&tree, &mut labels);
        let expected: Vec<i64> = (1..=nodes as i64).collect();
        assert_eq!(labels, expected);
    }
}

#[test]
fn full_tree_of_depth_twelve_has_8191_nodes() {
    let tree = BinTree::generate_tree(12).unwrap();
    assert_eq!(count(&tree), 8191);
}

#[test]
fn negative_depth_is_an_invalid_argument() {
    assert_eq!(BinTree::generate_tree(-1), Err(TreeError::InvalidArgument));
    assert_eq!(
        BinTree::generate_tree(i64::MIN),
        Err(TreeError::InvalidArgument)
    );
    assert_eq!(
        BinTree::generate_scripted_tree(-1, &vec![high(), low(), low()]),
        Err(TreeError::InvalidArgument)
    );
    assert_eq!(
        BinTree::generate_scripted_tree(-7, &Vec::new()),
        Err(TreeError::InvalidArgument)
    );
    let calls = Cell::new(0);
    let source = || {
        calls.set(calls.get() + 1);
        high()
    };
    assert_eq!(
        BinTree::generate_random_tree(-1, source),
        Err(TreeError::InvalidArgument)
    );
    assert_eq!(calls.get(), 0);
}

#[test]
fn full_tree_continues_a_running_count() {
    let mut index = 10;
    let tree = BinTree::generate_tree_recursive(1, &mut index);
    assert_eq!(tree, branch(11, leaf(12), leaf(13)));
    assert_eq!(index, 13);
    let next = BinTree::generate_tree_recursive(0, &mut index);
    assert_eq!(next, leaf(14));
    assert_eq!(index, 14);
}

#[test]
fn draw_at_most_one_half_ends_growth() {
    for draw in [
        0.0f32,
        0.25,
        0.49999997,
        0.5,
        0.50000006,
        0.75,
        0.99999994,
        1.0,
        2.5,
        f32::MIN_POSITIVE,
        f32::MAX,
        f32::INFINITY,
        -0.0,
        -0.25,
        -1.0,
        f32::MIN,
        f32::NEG_INFINITY,
        f32::NAN,
        -f32::NAN,
    ] {
        assert_eq!(draw_ends_growth(draw.to_bits()), draw <= 0.5, "{}", draw);
    }
    assert_eq!(HALF_BITS, 0.5f32.to_bits());
    assert!(draw_ends_growth(HALF_BITS));
    assert!(!draw_ends_growth(HALF_BITS + 1));
    assert!(!draw_ends_growth(0x7FC0_0000));
    assert!(!draw_ends_growth(0xFFFF_FFFF));
    assert!(draw_ends_growth(0x8000_0000));
    assert!(draw_ends_growth(0xFF80_0000));
    assert!(!draw_ends_growth(0xFF80_0001));
}

#[test]
fn random_tree_follows_its_script() {
    let draws = vec![high(), low(), high(), low(), low()];
    let expected = branch(1, leaf(2), branch(3, leaf(4), leaf(5)));
    assert_eq!(BinTree::generate_scripted_tree(2, &draws), Ok(Some(expected)));
}

#[test]
fn random_tree_stops_where_the_depth_is_used_up() {
    let draws = vec![high(), high(), high(), high(), high()];
    assert_eq!(
        BinTree::generate_scripted_tree(1, &draws),
        Ok(Some(branch(1, leaf(2), leaf(3))))
    );
    assert_eq!(BinTree::generate_scripted_tree(0, &draws), Ok(Some(leaf(1))));
}

#[test]
fn random_tree_takes_a_draw_even_at_depth_zero() {
    assert_eq!(BinTree::generate_scripted_tree(0, &Vec::new()), Ok(None));
    assert_eq!(BinTree::generate_scripted_tree(0, &vec![high()]), Ok(Some(leaf(1))));
    assert_eq!(BinTree::generate_scripted_tree(0, &vec![low()]), Ok(Some(leaf(1))));
    // The root and its left child have their draws, the right child has none.
    assert_eq!(BinTree::generate_scripted_tree(1, &vec![high(), low()]), Ok(None));
}

#[test]
fn random_tree_needs_a_draw_for_every_node() {
    let mut draws = vec![high(), low(), high(), low()];
    assert_eq!(BinTree::generate_scripted_tree(2, &draws), Ok(None));
    draws.push(high());
    let expected = branch(1, leaf(2), branch(3, leaf(4), leaf(5)));
    assert_eq!(
        BinTree::generate_scripted_tree(2, &draws),
        Ok(Some(expected.clone()))
    );
    draws.push(high());
    draws.push(low());
    assert_eq!(BinTree::generate_scripted_tree(2, &draws), Ok(Some(expected)));
}

#[test]
fn random_tree_with_a_low_first_draw_is_one_leaf() {
    let draws = vec![low(), high(), high()];
    assert_eq!(BinTree::generate_scripted_tree(5, &draws), Ok(Some(leaf(1))));
}

#[test]
fn draw_of_exactly_one_half_gives_a_leaf() {
    let half = 0.5f32.to_bits();
    assert_eq!(
        BinTree::generate_scripted_tree(3, &vec![half, high(), high()]),
        Ok(Some(leaf(1)))
    );
    let above = f32::from_bits(half + 1);
    assert!(above > 0.5);
    assert_eq!(
        BinTree::generate_scripted_tree(3, &vec![above.to_bits(), half, half]),
        Ok(Some(branch(1, leaf(2), leaf(3))))
    );
}

#[test]
fn random_tree_from_high_draws_is_the_full_tree() {
    for depth in 0..=8i64 {
        let nodes = (1usize << (depth + 1)) - 1;
        let draws = vec![high(); nodes];
        let full = BinTree::generate_tree(depth).unwrap();
        assert_eq!(BinTree::generate_scripted_tree(depth, &draws), Ok(Some(full)));
    }
}

#[test]
fn random_tree_from_high_draws_is_short_of_one_draw() {
    let draws = vec![high(); 14];
    assert_eq!(BinTree::generate_scripted_tree(3, &draws), Ok(None));
}

#[test]
fn random_tree_is_no_higher_than_the_depth() {
    for seed in 0..200u64 {
        for depth in 0..=6i64 {
            let draws = scripted_draws(seed, 127);
            let tree = BinTree::generate_scripted_tree(depth, &draws)
                .unwrap()
                .unwrap();
            assert!(height(&tree) <= depth as u64);
            let nodes = count(&tree);
            assert!(nodes <= 127);
            let mut labels = Vec::new();
            preorder(&tree, &mut labels);
            let expected: Vec<i64> = (1..=nodes as i64).collect();
            assert_eq!(labels, expected);
            // Draws beyond those that the tree took change nothing.
            let taken = draws[..nodes as usize].to_vec();
            assert_eq!(BinTree::generate_scripted_tree(depth, &taken), Ok(Some(tree)));
            if nodes > 1 {
                let short = draws[..nodes as usize - 1].to_vec();
                assert_eq!(BinTree::generate_scripted_tree(depth, &short), Ok(None));
            }
        }
    }
}

#[test]
fn random_tree_continues_a_running_count() {
    let draws = vec![low(), low(), high(), low(), low(), low()];
    let mut index = 2;
    let tree = BinTree::generate_scripted_tree_recursive(3, &mut index, &draws);
    assert_eq!(tree, Some(branch(3, leaf(4), leaf(5))));
    assert_eq!(index, 5);
    let next = BinTree::generate_scripted_tree_recursive(3, &mut index, &draws);
    assert_eq!(next, Some(leaf(6)));
    assert_eq!(index, 6);
    assert_eq!(
        BinTree::generate_scripted_tree_recursive(3, &mut index, &draws),
        None
    );
}

#[test]
fn random_tree_from_a_source_that_draws_high_is_the_full_tree() {
    for depth in 0..=8i64 {
        let full = BinTree::generate_tree(depth).unwrap();
        assert_eq!(BinTree::generate_random_tree(depth, high), Ok(full));
    }
}

#[test]
fn random_tree_from_a_source_that_draws_low_is_one_leaf() {
    for depth in 0..=8i64 {
        assert_eq!(BinTree::generate_random_tree(depth, low), Ok(leaf(1)));
    }
}

#[test]
fn random_tree_asks_its_source_once_for_every_node() {
    let draws = vec![high(), low(), high(), low(), low(), high(), high()];
    let next = Cell::new(0);
    let source = || {
        let at = next.get();
        next.set(at + 1);
        draws[at]
    };
    let expected = branch(1, leaf(2), branch(3, leaf(4), leaf(5)));
    assert_eq!(BinTree::generate_random_tree(2, source), Ok(expected));
    assert_eq!(next.get(), 5);
}

#[test]
fn random_tree_is_the_scripted_tree_of_the_draws_it_took() {
    for seed in 0..200u64 {
        for depth in 0..=6i64 {
            let draws = scripted_draws(seed, 127);
            let next = Cell::new(0);
            let source = || {
                let at = next.get();
                next.set(at + 1);
                draws[at]
            };
            let tree = BinTree::generate_random_tree(depth, source).unwrap();
            assert_eq!(next.get() as u64, count(&tree));
            assert!(height(&tree) <= depth as u64);
            assert_eq!(
                BinTree::generate_scripted_tree(depth, &draws),
                Ok(Some(tree.clone()))
            );
            let taken = draws[..next.get()].to_vec();
            assert_eq!(BinTree::generate_scripted_tree(depth, &taken), Ok(Some(tree)));
        }
    }
}
