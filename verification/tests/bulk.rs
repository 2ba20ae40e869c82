use itreap::between::{intersect_ranges, Between};
use itreap::breadth::for_each_node_breadth_first;
use itreap::bulk::{build_tree, merge_blocks, random_priorities};
use itreap::{Node, Priority, BLOCK_SIZE};
use std::collections::VecDeque;

fn leaf(range: std::ops::Range<usize>) -> Box<Node<usize>> {
    Box::new(Node::Leaf(range.collect()))
}

fn inner(priority: Priority, left: Box<Node<usize>>, right: Box<Node<usize>>) -> Node<usize> {
    Node::Inner(priority, left.len() + right.len(), left, right)
}

/// The tree written out with the lengths of its leaves.
fn outline(node: &Node<usize>) -> String {
    match node {
        Node::Leaf(block) => format!("{}", block.len()),
        Node::Inner(_, size, left, right) => {
            format!("({} {} {})", size, outline(left), outline(right))
        }
    }
}

fn contents(node: &Node<usize>) -> Vec<usize> {
    match node {
        Node::Leaf(block) => block.clone(),
        Node::Inner(_, _, left, right) => {
            let mut all = contents(left);
            all.extend(contents(right));
            all
        }
    }
}

/// The priorities of the inner nodes, the root first, level by level, each
/// level from left to right.
fn priorities_by_level(root: &Node<usize>) -> Vec<Priority> {
    let mut found = Vec::new();
    let mut remaining = VecDeque::new();
    remaining.push_back(root);
    while let Some(node) = remaining.pop_front() {
        if let Node::Inner(priority, _, left, right) = node {
            found.push(*priority);
            remaining.push_back(left);
            remaining.push_back(right);
        }
    }
    found
}

#[test]
fn breadth_first_hands_out_the_largest_first() {
    let mut root = inner(
        0,
        Box::new(inner(0, leaf(0..1), leaf(1..2))),
        Box::new(inner(0, leaf(2..3), leaf(3..4))),
    );
    let mut priorities = vec![1, 2, 3, 9];
    for_each_node_breadth_first(&mut root, &mut priorities);
    assert_eq!(priorities_by_level(&root), vec![9, 3, 2]);
    assert_eq!(priorities, vec![1]);
    assert_eq!(contents(&root), vec![0, 1, 2, 3]);
    assert!(root.is_valid(None));
}

#[test]
fn breadth_first_finishes_a_level_before_the_next() {
    let deep = Box::new(inner(0, leaf(1..2), leaf(2..3)));
    let mut root = inner(
        0,
        Box::new(inner(0, leaf(0..1), deep)),
        Box::new(inner(0, leaf(3..4), leaf(4..5))),
    );
    let mut priorities = vec![10, 20, 30, 40];
    for_each_node_breadth_first(&mut root, &mut priorities);
    match &root {
        Node::Inner(priority, _, left, right) => {
            assert_eq!(*priority, 40);
            assert_eq!(left.priority(), 30);
            assert_eq!(right.priority(), 20);
            match &**left {
                Node::Inner(_, _, _, deep) => assert_eq!(deep.priority(), 10),
                Node::Leaf(_) => panic!("the left child is an inner node"),
            }
        }
        Node::Leaf(_) => panic!("the root is an inner node"),
    }
    assert!(priorities.is_empty());
    assert!(root.is_valid(None));
}

#[test]
fn breadth_first_leaves_a_leaf_alone() {
    let mut root = Node::Leaf(vec![1usize, 2, 3]);
    let mut priorities = vec![5, 6];
    for_each_node_breadth_first(&mut root, &mut priorities);
    assert!(root.is_leaf());
    assert_eq!(priorities, vec![5, 6]);
}

#[test]
fn breadth_first_goes_through_uneven_levels() {
    let mut root = inner(
        7,
        Box::new(inner(7, leaf(0..1), leaf(1..2))),
        Box::new(inner(7, leaf(2..3), Box::new(inner(7, leaf(3..4), leaf(4..5))))),
    );
    let mut priorities = vec![0, 1, 2, 3, 4];
    for_each_node_breadth_first(&mut root, &mut priorities);
    assert_eq!(priorities_by_level(&root), vec![4, 3, 2, 1]);
    assert_eq!(priorities, vec![0]);
    assert_eq!(contents(&root), vec![0, 1, 2, 3, 4]);
    assert!(root.is_valid(None));
}

#[test]
fn merge_blocks_of_nothing_is_no_tree() {
    assert!(merge_blocks(Vec::<Vec<usize>>::new()).is_none());
}

#[test]
fn merge_blocks_merges_trees_of_equal_length() {
    let blocks = |lengths: &[usize]| -> Vec<Vec<usize>> {
        let mut next = 0;
        lengths
            .iter()
            .map(|&length| {
                let block: Vec<usize> = (next..next + length).collect();
                next += length;
                block
            })
            .collect()
    };
    let merged = |lengths: &[usize]| outline(&merge_blocks(blocks(lengths)).unwrap());
    assert_eq!(merged(&[3]), "3");
    assert_eq!(merged(&[3, 3]), "(6 3 3)");
    assert_eq!(merged(&[3, 3, 3]), "(9 (6 3 3) 3)");
    assert_eq!(merged(&[3, 3, 3, 3]), "(12 (6 3 3) (6 3 3))");
    assert_eq!(merged(&[3, 3, 3, 3, 2]), "(14 (12 (6 3 3) (6 3 3)) 2)");
    assert_eq!(
        merged(&[3, 3, 3, 3, 3, 3, 1]),
        "(19 (12 (6 3 3) (6 3 3)) (7 (6 3 3) 1))"
    );
    assert_eq!(merged(&[1, 2, 3]), "(6 1 (5 2 3))");
    assert_eq!(merged(&[2, 1, 1]), "(4 2 (2 1 1))");
    assert_eq!(merged(&[1, 1, 2, 4]), "(8 (4 (2 1 1) 2) 4)");
}

#[test]
fn merge_blocks_keeps_the_blocks_in_order() {
    let root = merge_blocks(vec![vec![5, 6], vec![7], vec![8, 9], vec![10, 11]]).unwrap();
    assert_eq!(contents(&root), vec![5, 6, 7, 8, 9, 10, 11]);
    assert_eq!(priorities_by_level(&root), vec![0, 0, 0]);
    assert!(root.is_valid(None));
}

#[test]
fn random_priorities_draws_as_many_as_asked() {
    assert!(random_priorities(0).is_empty());
    assert_eq!(random_priorities(1).len(), 1);
    let many = random_priorities(100);
    assert_eq!(many.len(), 100);
    assert!(many.iter().any(|priority| *priority != many[0]));
}

#[test]
fn build_tree_of_nothing_is_an_empty_leaf() {
    let root = build_tree(Vec::<usize>::new());
    assert!(root.is_leaf());
    assert_eq!(root.len(), 0);
}

#[test]
fn build_tree_of_one_block_is_a_leaf() {
    let half = BLOCK_SIZE / 2;
    assert_eq!(outline(&build_tree((0..1).collect())), "1");
    assert_eq!(outline(&build_tree((0..half).collect())), "500");
}

#[test]
fn build_tree_cuts_blocks_of_half_the_block_size() {
    let half = BLOCK_SIZE / 2;
    assert_eq!(outline(&build_tree((0..half + 1).collect())), "(501 500 1)");
    assert_eq!(outline(&build_tree((0..2 * half).collect())), "(1000 500 500)");
    assert_eq!(
        outline(&build_tree((0..3 * half).collect())),
        "(1500 (1000 500 500) 500)"
    );
    assert_eq!(
        outline(&build_tree((0..3 * half + 200).collect())),
        "(1700 (1000 500 500) (700 500 200))"
    );
    assert_eq!(
        outline(&build_tree((0..4 * half).collect())),
        "(2000 (1000 500 500) (1000 500 500))"
    );
    assert_eq!(
        outline(&build_tree((0..7 * half).collect())),
        "(3500 (2000 (1000 500 500) (1000 500 500)) (1500 (1000 500 500) 500))"
    );
}

fn inner_levels(node: &Node<usize>) -> u32 {
    match node {
        Node::Leaf(_) => 0,
        Node::Inner(_, _, left, right) => 1 + inner_levels(left).max(inner_levels(right)),
    }
}

fn leaves(node: &Node<usize>) -> usize {
    match node {
        Node::Leaf(_) => 1,
        Node::Inner(_, _, left, right) => leaves(left) + leaves(right),
    }
}

#[test]
fn build_tree_is_balanced() {
    let half = BLOCK_SIZE / 2;
    for &blocks in &[1, 2, 3, 4, 5, 7, 8, 9, 15, 16, 17, 31, 33, 100] {
        for &short in &[0, 1, half - 1] {
            let root = build_tree((0..blocks * half - short).collect());
            assert_eq!(leaves(&root), blocks);
            let levels = inner_levels(&root);
            if levels > 0 {
                assert!(1usize << (levels - 1) <= blocks);
            }
        }
    }
    assert_eq!(inner_levels(&build_tree((0..8 * half).collect())), 3);
    assert_eq!(inner_levels(&build_tree((0..9 * half).collect())), 4);
    assert_eq!(inner_levels(&build_tree((0..15 * half).collect())), 4);
}

#[test]
fn build_tree_keeps_the_order() {
    let n = 13 * BLOCK_SIZE / 2 + 123;
    let root = build_tree((0..n).collect());
    assert_eq!(root.len(), n);
    assert_eq!(contents(&root), (0..n).collect::<Vec<_>>());
    assert!(root.is_valid(None));
}

#[test]
fn build_tree_sorts_the_priorities_by_level() {
    let root = build_tree((0..64 * BLOCK_SIZE / 2).collect());
    let priorities = priorities_by_level(&root);
    assert_eq!(priorities.len(), 63);
    for pair in priorities.windows(2) {
        assert!(pair[0] >= pair[1]);
    }
    assert!(root.is_valid(None));
}

#[test]
fn build_tree_draws_priorities_at_random() {
    let root = build_tree((0..64 * BLOCK_SIZE / 2).collect());
    let mut priorities = priorities_by_level(&root);
    priorities.dedup();
    assert!(priorities.len() > 1);
}

#[test]
fn intersect_ranges_takes_the_common_part() {
    assert_eq!(intersect_ranges(&(0..10), &(3..5)), 3..5);
    assert_eq!(intersect_ranges(&(3..5), &(0..10)), 3..5);
    assert_eq!(intersect_ranges(&(0..4), &(2..8)), 2..4);
    assert_eq!(intersect_ranges(&(2..8), &(0..4)), 2..4);
    assert_eq!(intersect_ranges(&(0..4), &(4..8)), 4..4);
}

#[test]
fn intersect_ranges_of_disjoint_ranges_is_empty() {
    let common = intersect_ranges(&(0..2), &(5..8));
    assert_eq!(common, 5..2);
    assert!(common.is_empty());
}

#[test]
fn between_visits_only_the_selection() {
    let root = inner(
        9,
        Box::new(inner(5, leaf(0..2), leaf(2..3))),
        Box::new(inner(5, leaf(3..4), leaf(4..8))),
    );
    let all: Vec<usize> = Between::new(&root, 0..8).collect().into_iter().copied().collect();
    assert_eq!(all, (0..8).collect::<Vec<_>>());
    for lo in 0..=8 {
        for hi in lo..=8 {
            let chosen: Vec<usize> =
                Between::new(&root, lo..hi).collect().into_iter().copied().collect();
            assert_eq!(chosen, (lo..hi).collect::<Vec<_>>());
        }
    }
}

#[test]
fn collect_takes_what_next_has_left() {
    let root = inner(9, leaf(0..3), leaf(3..6));
    let mut chosen = Between::new(&root, 1..5);
    assert_eq!(chosen.next(), Some(&1));
    assert_eq!(chosen.next(), Some(&2));
    let rest: Vec<usize> = chosen.collect().into_iter().copied().collect();
    assert_eq!(rest, vec![3, 4]);
}
