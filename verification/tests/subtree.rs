use tree_lib::tree::BinTree;

fn leaf(x: i64) -> BinTree {
    BinTree::Leaf(x)
}

fn branch(x: i64, l: BinTree, r: BinTree) -> BinTree {
    BinTree::Branch(x, Box::new(l), Box::new(r))
}

fn count(tree: &BinTree) -> u64 {
    match tree {
        BinTree::Leaf(_) => 1,
        BinTree::Branch(_, l, r) => 1 + count(l) + count(r),
    }
}

/// The full tree of `depth` levels with the labels from `first` on.
fn full(depth: i64, first: i64) -> BinTree {
    let mut index = first - 1;
    BinTree::generate_tree_recursive(depth, &mut index)
}

/// Two full trees of 15 nodes, each beside a leaf, under one root.
fn twins() -> BinTree {
    branch(
        0,
        branch(100, leaf(101), full(3, 1000)),
        branch(200, leaf(201), full(3, 2000)),
    )
}

#[test]
fn largest_complete_subtree_of_a_single_leaf() {
    let tree = BinTree::generate_tree(0).unwrap();
    assert_eq!(tree, leaf(1));
    assert_eq!(tree.find_largest_complete_subtree_recursive(), (leaf(1), 1));
}

#[test]
fn largest_complete_subtree_of_a_branch_over_two_leaves() {
    let tree = BinTree::generate_tree(1).unwrap();
    assert_eq!(tree, branch(1, leaf(2), leaf(3)));
    assert_eq!(
        tree.find_largest_complete_subtree_recursive(),
        (branch(1, leaf(2), leaf(3)), 3)
    );
}

#[test]
fn root_wins_a_tie_with_its_left_span() {
    // The left child has the complete size 3, and so has the root:
    // 2 * min(3, 1) + 1. The root is kept and pruned to three nodes.
    let tree = branch(10, branch(20, leaf(21), leaf(22)), leaf(30));
    let (
        (own, own_size),
        (left, left_size),
        (right, right_size),
    ) = tree.find_largest_complete_subtree_recursive_aux();
    assert_eq!((own, own_size), (tree.clone(), 3));
    assert_eq!((left, left_size), (branch(20, leaf(21), leaf(22)), 3));
    assert_eq!((right, right_size), (leaf(30), 1));
    assert_eq!(
        tree.find_largest_complete_subtree_recursive(),
        (branch(10, leaf(20), leaf(30)), 3)
    );
}

#[test]
fn root_wins_a_tie_with_its_right_span() {
    let tree = branch(1, leaf(2), branch(3, leaf(4), leaf(5)));
    assert_eq!(
        tree.find_largest_complete_subtree_recursive(),
        (branch(1, leaf(2), leaf(3)), 3)
    );
}

#[test]
fn larger_right_span_wins() {
    let right = branch(3, branch(4, leaf(5), leaf(6)), branch(7, leaf(8), leaf(9)));
    let tree = branch(1, leaf(2), right.clone());
    assert_eq!(tree.find_largest_complete_subtree_recursive(), (right, 7));
}

#[test]
fn larger_left_span_wins() {
    let left = branch(2, branch(3, leaf(4), leaf(5)), branch(6, leaf(7), leaf(8)));
    let tree = branch(1, left.clone(), leaf(9));
    assert_eq!(tree.find_largest_complete_subtree_recursive(), (left, 7));
}

#[test]
fn left_span_wins_a_tie_with_the_right_span_at_the_root() {
    let tree = twins();
    let (own, left, right) = tree.find_largest_complete_subtree_recursive_aux();
    assert_eq!(own, (tree.clone(), 7));
    assert_eq!(left, (full(3, 1000), 15));
    assert_eq!(right, (full(3, 2000), 15));
    assert_eq!(
        tree.find_largest_complete_subtree_recursive(),
        (full(3, 1000), 15)
    );
}

#[test]
fn right_span_wins_a_tie_with_the_left_span_below_the_root() {
    let tree = branch(-1, twins(), leaf(-2));
    let (own, left, right) = tree.find_largest_complete_subtree_recursive_aux();
    assert_eq!(own, (tree.clone(), 3));
    assert_eq!(left, (full(3, 2000), 15));
    assert_eq!(right, (leaf(-2), 1));
    assert_eq!(
        tree.find_largest_complete_subtree_recursive(),
        (full(3, 2000), 15)
    );
}

#[test]
fn node_wins_a_tie_with_what_lies_below_it() {
    // The child 10 has the complete size 7, and so has the full tree under
    // 30. The child is kept, and pruned to seven nodes.
    let below = branch(30, branch(31, leaf(32), leaf(33)), branch(34, leaf(35), leaf(36)));
    let child = branch(10, branch(20, leaf(21), leaf(22)), below);
    let tree = branch(1, child.clone(), leaf(99));
    let (own, left, right) = tree.find_largest_complete_subtree_recursive_aux();
    assert_eq!(own, (tree.clone(), 3));
    assert_eq!(left, (child, 7));
    assert_eq!(right, (leaf(99), 1));
    let expected = branch(10, branch(20, leaf(21), leaf(22)), branch(30, leaf(31), leaf(34)));
    assert_eq!(tree.find_largest_complete_subtree_recursive(), (expected, 7));
}

#[test]
fn leaf_reports_itself_with_size_zero_for_both_spans() {
    assert_eq!(
        leaf(5).find_largest_complete_subtree_recursive_aux(),
        ((leaf(5), 1), (leaf(5), 0), (leaf(5), 0))
    );
}

#[test]
fn full_tree_is_its_own_largest_complete_subtree() {
    for depth in 0..=8i64 {
        let tree = BinTree::generate_tree(depth).unwrap();
        let size = (1u32 << (depth + 1)) - 1;
        assert_eq!(
            tree.find_largest_complete_subtree_recursive(),
            (tree.clone(), size)
        );
    }
}

#[test]
fn complete_size_is_twice_the_smaller_child_plus_one() {
    // Complete sizes: 15 on the left, 7 on the right, 2 * 7 + 1 at the root.
    let tree = branch(0, full(3, 1), full(2, 100));
    let (own, left, right) = tree.find_largest_complete_subtree_recursive_aux();
    assert_eq!(own.1, 15);
    assert_eq!(left, (full(3, 1), 15));
    assert_eq!(right, (full(2, 100), 7));
    // The root wins the tie with its left span and is pruned to 15 nodes.
    let (found, size) = tree.find_largest_complete_subtree_recursive();
    assert_eq!(size, 15);
    assert_eq!(count(&found), 15);
    assert_eq!(found, tree.prune_tree(15));
}

#[test]
fn search_returns_as_many_nodes_as_the_size() {
    let high = 0.9f32.to_bits();
    let low = 0.1f32.to_bits();
    for pattern in 0..512u32 {
        let mut draws = Vec::new();
        for i in 0..127 {
            draws.push(if (pattern >> (i % 9)) & 1 == 1 { high } else { low });
        }
        let tree = BinTree::generate_scripted_tree(6, &draws).unwrap().unwrap();
        let (found, size) = tree.find_largest_complete_subtree_recursive();
        assert_eq!(count(&found), size as u64);
        assert!((size + 1).is_power_of_two());
        assert!(size as u64 <= count(&tree));
    }
}

#[test]
fn searching_the_result_again_returns_it_again() {
    let mut trees = vec![
        leaf(1),
        twins(),
        branch(10, branch(20, leaf(21), leaf(22)), leaf(30)),
        branch(-1, twins(), leaf(-2)),
    ];
    let high = 0.9f32.to_bits();
    let low = 0.1f32.to_bits();
    for pattern in 0..64u32 {
        let mut draws = Vec::new();
        for i in 0..63 {
            draws.push(if (pattern >> (i % 6)) & 1 == 1 { high } else { low });
        }
        trees.push(BinTree::generate_scripted_tree(5, &draws).unwrap().unwrap());
    }
    for tree in trees {
        let (found, size) = tree.find_largest_complete_subtree_recursive();
        assert_eq!(
            found.find_largest_complete_subtree_recursive(),
            (found.clone(), size)
        );
    }
}

#[test]
fn search_leaves_the_tree_as_it_was() {
    let tree = twins();
    let _ = tree.find_largest_complete_subtree_recursive();
    assert_eq!(tree, twins());
}

#[test]
fn complete_sizes_of_small_trees_fit() {
    assert!(leaf(1).complete_sizes_fit());
    assert!(twins().complete_sizes_fit());
    assert!(BinTree::generate_tree(10).unwrap().complete_sizes_fit());
    // A tree of forty levels with a leaf beside every branch.
    let mut tree = leaf(0);
    for label in 1..=40 {
        tree = branch(label, leaf(-label), tree);
    }
    assert!(tree.complete_sizes_fit());
    assert!(!tree.height_at_most(31));
    assert_eq!(
        tree.find_largest_complete_subtree_recursive(),
        (branch(40, leaf(-40), leaf(39)), 3)
    );
}
