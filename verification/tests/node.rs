use itreap::{Node, Priority, BLOCK_SIZE, LEFT, RIGHT};

fn leaf(range: std::ops::Range<usize>) -> Box<Node<usize>> {
    Box::new(Node::Leaf(range.collect()))
}

fn inner(priority: Priority, left: Box<Node<usize>>, right: Box<Node<usize>>) -> Node<usize> {
    Node::Inner(priority, left.len() + right.len(), left, right)
}

fn contents(node: &Node<usize>) -> Vec<usize> {
    match node {
        Node::Leaf(block) => block.clone(),
        Node::Inner(_, _, left, right) => {
            let mut all = contents(left);
            all.extend(contents(right));
            all
        }
    }
}

/// The tree written out: `[a,b]` for a leaf, `(priority size left right)` for an inner node.
fn written(node: &Node<usize>) -> String {
    match node {
        Node::Leaf(block) => format!("{:?}", block),
        Node::Inner(priority, size, left, right) => {
            format!("({} {} {} {})", priority, size, written(left), written(right))
        }
    }
}

fn children(node: &Node<usize>) -> (&Node<usize>, &Node<usize>) {
    match node {
        Node::Inner(_, _, left, right) => (left, right),
        Node::Leaf(_) => panic!("a leaf has no children"),
    }
}

#[test]
fn sides_are_zero_and_one() {
    assert_eq!(LEFT, 0);
    assert_eq!(RIGHT, 1);
    assert_eq!(BLOCK_SIZE, 1000);
}

#[test]
fn leaf_answers_with_the_largest_priority() {
    assert_eq!(leaf(0..3).priority(), u64::MAX);
    assert_eq!(Node::<usize>::Leaf(Vec::new()).priority(), u64::MAX);
}

#[test]
fn inner_node_answers_with_its_priority() {
    assert_eq!(inner(17, leaf(0..1), leaf(1..2)).priority(), 17);
    assert_eq!(inner(0, leaf(0..1), leaf(1..2)).priority(), 0);
}

#[test]
fn is_leaf_tells_the_kinds_apart() {
    assert!(leaf(0..3).is_leaf());
    assert!(!inner(1, leaf(0..1), leaf(1..2)).is_leaf());
}

#[test]
fn len_is_block_length_or_cached_size() {
    assert_eq!(leaf(0..3).len(), 3);
    assert_eq!(leaf(0..0).len(), 0);
    assert_eq!(inner(1, leaf(0..2), leaf(2..7)).len(), 7);
    let miscounted = Node::Inner(1, 40, leaf(0..2), leaf(2..7));
    assert_eq!(miscounted.len(), 40);
}

#[test]
fn extract_content_on_the_left_keeps_the_order() {
    let (priority, first, second) = inner(9, leaf(0..2), leaf(2..5)).extract_content(LEFT);
    assert_eq!(priority, 9);
    assert_eq!(contents(&first), vec![0, 1]);
    assert_eq!(contents(&second), vec![2, 3, 4]);
}

#[test]
fn extract_content_on_the_right_swaps_the_children() {
    let (priority, first, second) = inner(9, leaf(0..2), leaf(2..5)).extract_content(RIGHT);
    assert_eq!(priority, 9);
    assert_eq!(contents(&first), vec![2, 3, 4]);
    assert_eq!(contents(&second), vec![0, 1]);
}

#[test]
fn rotate_left_promotes_the_right_child() {
    let mut node = inner(1, leaf(0..2), Box::new(inner(5, leaf(2..3), leaf(3..6))));
    node.rotate(LEFT);
    assert_eq!(written(&node), "(5 6 (1 3 [0, 1] [2]) [3, 4, 5])");
    assert_eq!(contents(&node), vec![0, 1, 2, 3, 4, 5]);
}

#[test]
fn rotate_right_promotes_the_left_child() {
    let mut node = inner(1, Box::new(inner(5, leaf(0..3), leaf(3..4))), leaf(4..6));
    node.rotate(RIGHT);
    assert_eq!(written(&node), "(5 6 [0, 1, 2] (1 3 [3] [4, 5]))");
    assert_eq!(contents(&node), vec![0, 1, 2, 3, 4, 5]);
}

#[test]
fn rotations_undo_each_other() {
    let mut node = inner(4, Box::new(inner(4, leaf(0..3), leaf(3..4))), leaf(4..6));
    node.rotate(RIGHT);
    node.rotate(LEFT);
    assert_eq!(written(&node), "(4 6 (4 4 [0, 1, 2] [3]) [4, 5])");
}

#[test]
fn rotate_accepts_equal_priorities() {
    let mut node = inner(3, leaf(0..1), Box::new(inner(3, leaf(1..2), leaf(2..3))));
    node.rotate(LEFT);
    assert_eq!(written(&node), "(3 3 (3 2 [0] [1]) [2])");
}

#[test]
fn divide_with_halves_the_block() {
    let mut node = Node::Leaf((0..7).collect::<Vec<usize>>());
    node.divide_with(42);
    assert_eq!(written(&node), "(42 7 [0, 1, 2] [3, 4, 5, 6])");
    let mut even = Node::Leaf((0..4).collect::<Vec<usize>>());
    even.divide_with(0);
    assert_eq!(written(&even), "(0 4 [0, 1] [2, 3])");
}

#[test]
fn divide_keeps_the_elements_in_order() {
    let mut node = Node::Leaf((0..BLOCK_SIZE).collect::<Vec<usize>>());
    node.divide();
    assert!(!node.is_leaf());
    assert_eq!(node.len(), BLOCK_SIZE);
    let (left, right) = children(&node);
    assert_eq!(contents(left), (0..BLOCK_SIZE / 2).collect::<Vec<_>>());
    assert_eq!(contents(right), (BLOCK_SIZE / 2..BLOCK_SIZE).collect::<Vec<_>>());
    assert!(node.is_valid(None));
}

#[test]
fn insert_into_a_leaf_with_room() {
    let mut node = Node::Leaf(vec![1, 2, 4]);
    node.insert(2, 3);
    node.insert(0, 0);
    node.insert(5, 5);
    assert_eq!(written(&node), "[0, 1, 2, 3, 4, 5]");
}

#[test]
fn insert_fills_a_leaf_to_the_block_size() {
    let mut node = Node::Leaf((0..BLOCK_SIZE - 1).collect::<Vec<usize>>());
    node.insert(BLOCK_SIZE - 1, BLOCK_SIZE - 1);
    assert!(node.is_leaf());
    assert_eq!(node.len(), BLOCK_SIZE);
}

#[test]
fn insert_divides_a_full_leaf() {
    for &(index, left_len, right_len) in
        &[(0, 501, 500), (500, 501, 500), (501, 500, 501), (1000, 500, 501)]
    {
        let mut node = Node::Leaf((0..BLOCK_SIZE).collect::<Vec<usize>>());
        node.insert(index, 7777);
        assert!(!node.is_leaf());
        assert_eq!(node.len(), BLOCK_SIZE + 1);
        let (left, right) = children(&node);
        assert!(left.is_leaf() && right.is_leaf());
        assert_eq!(left.len(), left_len);
        assert_eq!(right.len(), right_len);
        let mut expected: Vec<usize> = (0..BLOCK_SIZE).collect();
        expected.insert(index, 7777);
        assert_eq!(contents(&node), expected);
        assert!(node.is_valid(None));
    }
}

#[test]
fn leaf_child_is_never_promoted() {
    for &index in &[0, 500, 501, 1000] {
        let mut node = inner(0, leaf(0..500), leaf(500..1000));
        node.insert(index, 7777);
        assert_eq!(node.priority(), 0);
        assert_eq!(node.len(), 1001);
        let (left, right) = children(&node);
        assert!(left.is_leaf() && right.is_leaf());
        let mut expected: Vec<usize> = (0..1000).collect();
        expected.insert(index, 7777);
        assert_eq!(contents(&node), expected);
        assert!(node.is_valid(None));
    }
}

#[test]
fn child_that_outranks_its_parent_is_promoted() {
    let parent_priority = 0;
    for &index in &[0, 1200] {
        let mut node = if index == 0 {
            inner(parent_priority, leaf(0..1000), leaf(1000..1200))
        } else {
            inner(parent_priority, leaf(0..200), leaf(200..1200))
        };
        node.insert(index, 7777);
        assert_eq!(node.len(), 1201);
        let mut expected: Vec<usize> = (0..1200).collect();
        expected.insert(index, 7777);
        assert_eq!(contents(&node), expected);
        assert!(node.is_valid(None));
        let (left, right) = children(&node);
        if node.priority() > parent_priority {
            let demoted = if index == 0 { right } else { left };
            assert!(!demoted.is_leaf());
            assert_eq!(demoted.priority(), parent_priority);
            assert_eq!(demoted.len(), 700);
        }
    }
}

#[test]
fn child_below_its_parent_stays_in_place() {
    let mut node = inner(u64::MAX, leaf(0..1000), leaf(1000..1200));
    node.insert(3, 7777);
    assert_eq!(node.priority(), u64::MAX);
    let (left, right) = children(&node);
    assert!(!left.is_leaf());
    assert_eq!(left.len(), 1001);
    assert!(right.is_leaf());
    assert!(node.is_valid(None));
}

#[test]
fn get_descends_by_the_left_size() {
    let node = inner(9, Box::new(inner(5, leaf(0..2), leaf(2..3))), leaf(3..6));
    for i in 0..6 {
        assert_eq!(node.get(i), Some(&i));
    }
    assert_eq!(node.get(6), None);
    assert_eq!(node.get(usize::MAX), None);
    assert_eq!(Node::<usize>::Leaf(Vec::new()).get(0), None);
}

#[test]
fn get_mut_descends_by_the_left_size() {
    let mut node = inner(9, Box::new(inner(5, leaf(0..2), leaf(2..3))), leaf(3..6));
    for i in 0..6 {
        *node.get_mut(i).unwrap() += 10;
    }
    assert!(node.get_mut(6).is_none());
    assert_eq!(written(&node), "(9 6 (5 3 [10, 11] [12]) [13, 14, 15])");
}

#[test]
fn is_valid_accepts_a_heap_ordered_tree() {
    let node = inner(9, Box::new(inner(9, leaf(0..2), leaf(2..3))), Box::new(inner(0, leaf(3..4), leaf(4..6))));
    assert!(node.is_valid(None));
    let father = inner(9, leaf(0..1), leaf(1..2));
    assert!(node.is_valid(Some(&father)));
    let single = Node::Leaf(vec![1usize]);
    assert!(single.is_valid(Some(&father)));
}

#[test]
fn is_valid_rejects_a_child_above_its_parent() {
    let node = inner(4, Box::new(inner(5, leaf(0..2), leaf(2..3))), leaf(3..6));
    assert!(!node.is_valid(None));
    let deep = inner(9, leaf(0..1), Box::new(inner(8, leaf(1..2), Box::new(inner(9, leaf(2..3), leaf(3..4))))));
    assert!(!deep.is_valid(None));
}

#[test]
fn is_valid_rejects_a_node_above_its_father() {
    let node = inner(5, leaf(0..2), leaf(2..3));
    let father = inner(4, leaf(0..1), leaf(1..2));
    assert!(!node.is_valid(Some(&father)));
    assert!(node.is_valid(Some(&Node::Leaf(vec![1usize]))));
}

#[test]
fn is_valid_rejects_a_wrong_size() {
    assert!(!Node::Inner(4, 7, leaf(0..2), leaf(2..5)).is_valid(None));
    assert!(!Node::Inner(4, 1, leaf(0..2), leaf(2..5)).is_valid(None));
    assert!(!Node::Inner(4, 3, leaf(0..2), leaf(2..5)).is_valid(None));
    assert!(Node::Inner(4, 5, leaf(0..2), leaf(2..5)).is_valid(None));
    let below = Box::new(Node::Inner(1, usize::MAX, leaf(0..2), leaf(2..5)));
    assert!(!Node::Inner(4, 2, below, leaf(5..6)).is_valid(None));
}

#[test]
fn is_valid_passes_leaves_as_they_are() {
    assert!(inner(4, leaf(0..0), leaf(0..3)).is_valid(None));
    assert!(inner(4, leaf(0..3), leaf(3..3)).is_valid(None));
    assert!(Node::Inner(5, 1, leaf(0..0), leaf(1..2)).is_valid(None));
    assert!(Node::<usize>::Leaf(Vec::new()).is_valid(None));
    let father = inner(4, leaf(0..1), leaf(1..2));
    assert!(Node::<usize>::Leaf(Vec::new()).is_valid(Some(&father)));
    let mut single = Node::Leaf(vec![7usize]);
    single.divide_with(3);
    assert_eq!(written(&single), "(3 1 [] [7])");
    assert!(single.is_valid(None));
    let mut none = Node::Leaf(Vec::<usize>::new());
    none.divide_with(3);
    assert_eq!(written(&none), "(3 0 [] [])");
    assert!(none.is_valid(None));
}

/// The tree written out with the lengths of its leaves: `(priority size left right)`.
fn outline(node: &Node<usize>) -> String {
    match node {
        Node::Leaf(block) => format!("{}", block.len()),
        Node::Inner(priority, size, left, right) => {
            format!("({} {} {} {})", priority, size, outline(left), outline(right))
        }
    }
}

#[test]
fn insert_hands_the_element_to_the_left_child_at_its_end() {
    let mut node = inner(5, leaf(1..2), leaf(2..3));
    node.insert(0, 0);
    assert_eq!(written(&node), "(5 3 [0, 1] [2])");
    let mut node = inner(5, leaf(1..2), leaf(2..3));
    node.insert(1, 9);
    assert_eq!(written(&node), "(5 3 [1, 9] [2])");
    let mut node = inner(5, leaf(1..2), leaf(2..3));
    node.insert(2, 3);
    assert_eq!(written(&node), "(5 3 [1] [2, 3])");
}

#[test]
fn insert_with_divides_a_full_leaf_under_the_given_priority() {
    let mut node = Node::Leaf((0..BLOCK_SIZE).collect::<Vec<usize>>());
    node.insert_with(1000, 1000, 42);
    assert_eq!(outline(&node), "(42 1001 500 501)");
    let (left, right) = children(&node);
    assert_eq!(contents(left), (0..500).collect::<Vec<_>>());
    assert_eq!(contents(right), (500..=1000).collect::<Vec<_>>());
    let mut node = Node::Leaf((0..BLOCK_SIZE).collect::<Vec<usize>>());
    node.insert_with(500, 7777, 0);
    assert_eq!(outline(&node), "(0 1001 501 500)");
    let (left, _) = children(&node);
    assert_eq!(contents(left)[500], 7777);
}

#[test]
fn insert_with_leaves_the_priority_unused_without_a_division() {
    let mut node = inner(5, leaf(0..999), leaf(999..1200));
    node.insert_with(3, 7777, 42);
    assert_eq!(outline(&node), "(5 1201 1000 201)");
}

#[test]
fn insert_with_promotes_the_child_of_higher_priority() {
    let mut node = inner(10, leaf(0..1000), leaf(1000..1200));
    node.insert_with(0, 7777, 20);
    assert_eq!(outline(&node), "(20 1201 501 (10 700 500 200))");
    let mut expected: Vec<usize> = (0..1200).collect();
    expected.insert(0, 7777);
    assert_eq!(contents(&node), expected);
    assert!(node.is_valid(None));

    let mut node = inner(10, leaf(0..200), leaf(200..1200));
    node.insert_with(1200, 7777, 20);
    assert_eq!(outline(&node), "(20 1201 (10 700 200 500) 501)");
    let mut expected: Vec<usize> = (0..1200).collect();
    expected.push(7777);
    assert_eq!(contents(&node), expected);
    assert!(node.is_valid(None));
}

#[test]
fn insert_with_keeps_the_child_of_no_higher_priority_in_place() {
    let mut node = inner(10, leaf(0..1000), leaf(1000..1200));
    node.insert_with(0, 7777, 10);
    assert_eq!(outline(&node), "(10 1201 (10 1001 501 500) 200)");
    let mut node = inner(10, leaf(0..200), leaf(200..1200));
    node.insert_with(1200, 7777, 5);
    assert_eq!(outline(&node), "(10 1201 200 (5 1001 500 501))");
    assert!(node.is_valid(None));
}

#[test]
fn insert_with_promotes_up_to_the_first_parent_of_no_lower_priority() {
    let below = Box::new(inner(10, leaf(0..1000), leaf(1000..1200)));
    let mut node = inner(30, Box::new(inner(20, below, leaf(1200..1300))), leaf(1300..1400));
    node.insert_with(0, 7777, 25);
    assert_eq!(
        outline(&node),
        "(30 1401 (25 1301 501 (20 800 (10 700 500 200) 100)) 100)"
    );
    assert!(node.is_valid(None));
}
