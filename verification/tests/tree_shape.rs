use sets::{LinkedBinaryTree, Node};

fn leaf(item: i32) -> Option<Box<Node>> {
    Some(Box::new(Node::new(item)))
}

fn vertex(item: i32, left: Option<Box<Node>>, right: Option<Box<Node>>) -> Box<Node> {
    Box::new(Node { item, left, right })
}

fn grow(items: &[i32]) -> Box<Node> {
    let mut root = Box::new(Node::new(items[0]));
    for &item in &items[1..] {
        root = LinkedBinaryTree::node_insert(root, item);
    }
    root
}

fn shape(tree: &Option<Box<Node>>) -> String {
    match tree {
        None => String::from("."),
        Some(node) => format!("({} {} {})", shape(&node.left), node.item, shape(&node.right)),
    }
}

fn shape_of(node: &Node) -> String {
    format!("({} {} {})", shape(&node.left), node.item, shape(&node.right))
}

fn traverse(tree: &Option<Box<Node>>, out: &mut Vec<i32>) {
    if let Some(node) = tree {
        traverse(&node.left, out);
        out.push(node.item);
        traverse(&node.right, out);
    }
}

fn checked_height(tree: &Option<Box<Node>>) -> usize {
    match tree {
        None => 0,
        Some(node) => {
            let l = checked_height(&node.left);
            let r = checked_height(&node.right);
            assert!(l <= r + 1 && r <= l + 1, "unbalanced at {}", node.item);
            assert_eq!(LinkedBinaryTree::balance_factor(node), l as isize - r as isize);
            1 + l.max(r)
        }
    }
}

#[test]
fn a_new_vertex_is_a_leaf() {
    let node = Node::new(-5);
    assert_eq!(node.item, -5);
    assert!(node.left.is_none());
    assert!(node.right.is_none());
}

#[test]
fn heights_and_balance_factors() {
    assert_eq!(LinkedBinaryTree::node_height(&None), 0);
    assert_eq!(LinkedBinaryTree::node_height(&leaf(1)), 1);
    let left_chain = vertex(3, Some(vertex(2, leaf(1), None)), None);
    assert_eq!(LinkedBinaryTree::balance_factor(&left_chain), 2);
    assert_eq!(LinkedBinaryTree::node_height(&Some(left_chain)), 3);
    let right_heavy = vertex(1, None, leaf(2));
    assert_eq!(LinkedBinaryTree::balance_factor(&right_heavy), -1);
    let even = vertex(2, leaf(1), leaf(3));
    assert_eq!(LinkedBinaryTree::balance_factor(&even), 0);
    assert_eq!(LinkedBinaryTree::node_height(&Some(even)), 2);
}

#[test]
fn count_of_vertices() {
    assert_eq!(LinkedBinaryTree::count_nodes(&Node::new(1)), 1);
    let tree = vertex(4, Some(vertex(2, leaf(1), leaf(3))), leaf(5));
    assert_eq!(LinkedBinaryTree::count_nodes(&tree), 5);
    assert_eq!(LinkedBinaryTree::count_nodes(&grow(&[5, 3, 8, 1, 4, 7, 9, 2, 6])), 9);
}

#[test]
fn least_element() {
    assert_eq!(LinkedBinaryTree::get_min(&Node::new(9)), 9);
    let tree = vertex(4, Some(vertex(2, leaf(1), leaf(3))), leaf(5));
    assert_eq!(LinkedBinaryTree::get_min(&tree), 1);
    let no_left = vertex(4, None, leaf(5));
    assert_eq!(LinkedBinaryTree::get_min(&no_left), 4);
    assert_eq!(LinkedBinaryTree::get_min(&grow(&[0, i32::MAX, i32::MIN, -1, 1])), i32::MIN);
}

#[test]
fn right_rotation_promotes_the_left_child() {
    let tree = vertex(4, Some(vertex(2, leaf(1), leaf(3))), leaf(5));
    let turned = LinkedBinaryTree::right_rotate(tree);
    assert_eq!(shape_of(&turned), "((. 1 .) 2 ((. 3 .) 4 (. 5 .)))");
}

#[test]
fn left_rotation_promotes_the_right_child() {
    let tree = vertex(2, leaf(1), Some(vertex(4, leaf(3), leaf(5))));
    let turned = LinkedBinaryTree::left_rotate(tree);
    assert_eq!(shape_of(&turned), "(((. 1 .) 2 (. 3 .)) 4 (. 5 .))");
}

#[test]
fn rotations_undo_each_other() {
    let tree = vertex(4, Some(vertex(2, leaf(1), leaf(3))), leaf(5));
    let back = LinkedBinaryTree::left_rotate(LinkedBinaryTree::right_rotate(tree));
    assert_eq!(shape_of(&back), "(((. 1 .) 2 (. 3 .)) 4 (. 5 .))");
}

#[test]
fn insertion_attaches_leaves_without_rotation() {
    assert_eq!(shape_of(&grow(&[2, 1])), "((. 1 .) 2 .)");
    assert_eq!(shape_of(&grow(&[2, 3])), "(. 2 (. 3 .))");
    assert_eq!(shape_of(&grow(&[2, 1, 3])), "((. 1 .) 2 (. 3 .))");
    assert_eq!(shape_of(&grow(&[2, 2, 2])), "(. 2 .)");
}

#[test]
fn insertion_rebalances_in_the_four_cases() {
    // left-left: one right rotation
    assert_eq!(shape_of(&grow(&[5, 3, 6, 2, 4, 1])), "(((. 1 .) 2 .) 3 ((. 4 .) 5 (. 6 .)))");
    // left-right: a left rotation below, then a right rotation
    assert_eq!(shape_of(&grow(&[5, 2, 6, 1, 3, 4])), "(((. 1 .) 2 .) 3 ((. 4 .) 5 (. 6 .)))");
    // right-right: one left rotation
    assert_eq!(shape_of(&grow(&[2, 1, 4, 3, 5, 6])), "(((. 1 .) 2 (. 3 .)) 4 (. 5 (. 6 .)))");
    // right-left: a right rotation below, then a left rotation
    assert_eq!(shape_of(&grow(&[2, 1, 5, 4, 6, 3])), "(((. 1 .) 2 (. 3 .)) 4 (. 5 (. 6 .)))");
}

#[test]
fn insertion_of_an_element_already_held_keeps_the_shape() {
    let items = [8, 4, 12, 2, 6, 10, 14, 1, 3];
    let before = shape_of(&grow(&items));
    for &again in &items {
        let tree = LinkedBinaryTree::node_insert(grow(&items), again);
        assert_eq!(shape_of(&tree), before);
    }
}

#[test]
fn ascending_insertions_stay_balanced_and_ordered() {
    let items: Vec<i32> = (0..500).collect();
    let tree = Some(grow(&items));
    let height = checked_height(&tree);
    assert_eq!(height, 9);
    assert_eq!(LinkedBinaryTree::node_height(&tree), 9);
    let mut seen = Vec::new();
    traverse(&tree, &mut seen);
    assert_eq!(seen, items);
}

#[test]
fn scattered_insertions_stay_balanced_and_ordered() {
    let mut state = 3u64;
    let mut items = Vec::new();
    for _ in 0..1000 {
        state = state.wrapping_mul(6364136223846793005).wrapping_add(1442695040888963407);
        items.push((state >> 40) as i32 - (1 << 23));
    }
    let mut root = Box::new(Node::new(items[0]));
    for &item in &items[1..] {
        root = LinkedBinaryTree::node_insert(root, item);
        if item % 97 == 0 {
            let tree = Some(root);
            checked_height(&tree);
            root = tree.unwrap();
        }
    }
    let tree = Some(root);
    let height = checked_height(&tree);
    assert_eq!(LinkedBinaryTree::node_height(&tree), height);
    let mut seen = Vec::new();
    traverse(&tree, &mut seen);
    for pair in seen.windows(2) {
        assert!(pair[0] < pair[1]);
    }
    let mut distinct = items.clone();
    distinct.sort();
    distinct.dedup();
    assert_eq!(seen, distinct);
    assert_eq!(LinkedBinaryTree::count_nodes(tree.as_ref().unwrap()), distinct.len());
    assert_eq!(LinkedBinaryTree::get_min(tree.as_ref().unwrap()), distinct[0]);
}
