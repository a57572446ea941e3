//! The vertices of the search tree, and what is said of subtrees: the
//! elements they hold, their height, the search order, the height balance,
//! rotation and insertion.

use vstd::prelude::*;

verus! {

/// A vertex of the tree: one element and at most two subtrees, each owned by
/// this vertex alone.
#[derive(Debug)]
pub struct Node {
    pub item: i32,
    pub left: Option<Box<Node>>,
    pub right: Option<Box<Node>>,
}

/// The subtree whose root is `node`.
pub open spec fn subtree(node: Node) -> Option<Box<Node>> {
    Some(Box::new(node))
}

/// The vertex that holds `item` and has no subtrees.
pub open spec fn leaf(item: i32) -> Node {
    Node { item, left: None, right: None }
}

/// The elements held in a subtree.
pub open spec fn elements(tree: Option<Box<Node>>) -> Set<i32>
    decreases tree,
{
    match tree {
        None => Set::empty(),
        Some(node) => elements(node.left).union(elements(node.right)).insert(node.item),
    }
}

/// The number of vertices on the longest path from the root of a subtree
/// down to a vertex without subtrees; 0 for the absent subtree.
pub open spec fn height(tree: Option<Box<Node>>) -> nat
    decreases tree,
{
    match tree {
        None => 0,
        Some(node) => {
            let l = height(node.left);
            let r = height(node.right);
            if l >= r {
                l + 1
            } else {
                r + 1
            }
        },
    }
}

/// The number of vertices of a subtree.
pub open spec fn count(tree: Option<Box<Node>>) -> nat
    decreases tree,
{
    match tree {
        None => 0,
        Some(node) => 1 + count(node.left) + count(node.right),
    }
}

/// The elements of a subtree as an in-order traversal meets them: the left
/// subtree, then the root, then the right subtree.
pub open spec fn in_order(tree: Option<Box<Node>>) -> Seq<i32>
    decreases tree,
{
    match tree {
        None => Seq::empty(),
        Some(node) => in_order(node.left).push(node.item) + in_order(node.right),
    }
}

/// The search order: at every vertex, what the left subtree holds is smaller
/// than the vertex's element and what the right subtree holds is greater.
pub open spec fn is_search_tree(tree: Option<Box<Node>>) -> bool
    decreases tree,
{
    match tree {
        None => true,
        Some(node) => {
            &&& is_search_tree(node.left)
            &&& is_search_tree(node.right)
            &&& forall|e: i32| #[trigger] elements(node.left).contains(e) ==> e < node.item
            &&& forall|e: i32| #[trigger] elements(node.right).contains(e) ==> node.item < e
        },
    }
}

/// The height of the left subtree of `node` less that of its right subtree.
pub open spec fn balance(node: Node) -> int {
    height(node.left) - height(node.right)
}

/// The height balance: at every vertex the heights of the two subtrees differ
/// by at most 1.
pub open spec fn is_balanced(tree: Option<Box<Node>>) -> bool
    decreases tree,
{
    match tree {
        None => true,
        Some(node) => {
            &&& is_balanced(node.left)
            &&& is_balanced(node.right)
            &&& -1 <= balance(*node) <= 1
        },
    }
}

/// The element found by going left from `node` for as long as there is a left
/// subtree.
pub open spec fn leftmost(node: Node) -> i32
    decreases node,
{
    match node.left {
        None => node.item,
        Some(l) => leftmost(*l),
    }
}

/// `node` after a right rotation: its left child takes its place, the left
/// child's right subtree becomes the left subtree of `node`, and `node`
/// becomes the right child.
pub open spec fn rotated_right(node: Node) -> Node
    recommends
        node.left is Some,
{
    let pivot = node.left->0;
    Node {
        item: pivot.item,
        left: pivot.left,
        right: subtree(Node { item: node.item, left: pivot.right, right: node.right }),
    }
}

/// `node` after a left rotation, the mirror image of a right rotation.
pub open spec fn rotated_left(node: Node) -> Node
    recommends
        node.right is Some,
{
    let pivot = node.right->0;
    Node {
        item: pivot.item,
        left: subtree(Node { item: node.item, left: node.left, right: pivot.left }),
        right: pivot.right,
    }
}

/// `node` after a rebalancing that follows growth of its left subtree. Where
/// the left subtree has become taller than the right by more than 1: a right
/// rotation if the left child does not lean right, else a left rotation of
/// the left child and then a right rotation. Otherwise `node` as it is.
pub open spec fn rebalanced_left(node: Node) -> Node
    recommends
        node.left is Some,
{
    if balance(node) > 1 {
        let child = *node.left->0;
        if balance(child) >= 0 {
            rotated_right(node)
        } else {
            rotated_right(
                Node { item: node.item, left: subtree(rotated_left(child)), right: node.right },
            )
        }
    } else {
        node
    }
}

/// `node` after a rebalancing that follows growth of its right subtree, the
/// mirror image of `rebalanced_left`.
pub open spec fn rebalanced_right(node: Node) -> Node
    recommends
        node.right is Some,
{
    if balance(node) < -1 {
        let child = *node.right->0;
        if balance(child) > 0 {
            rotated_left(
                Node { item: node.item, left: node.left, right: subtree(rotated_right(child)) },
            )
        } else {
            rotated_left(node)
        }
    } else {
        node
    }
}

/// The subtree rooted at `node` after the insertion of `item`.
///
/// An element already held changes nothing. A smaller one goes into the left
/// subtree and a greater one into the right: where that subtree is absent the
/// new leaf is attached in its place, otherwise the insertion goes on below
/// and the vertex is rebalanced on the way back.
pub open spec fn inserted(node: Node, item: i32) -> Node
    decreases node,
{
    if item == node.item {
        node
    } else if item < node.item {
        match node.left {
            Some(child) => rebalanced_left(
                Node {
                    item: node.item,
                    left: subtree(inserted(*child, item)),
                    right: node.right,
                },
            ),
            None => Node { item: node.item, left: subtree(leaf(item)), right: node.right },
        }
    } else {
        match node.right {
            Some(child) => rebalanced_right(
                Node {
                    item: node.item,
                    left: node.left,
                    right: subtree(inserted(*child, item)),
                },
            ),
            None => Node { item: node.item, left: node.left, right: subtree(leaf(item)) },
        }
    }
}

impl Node {
    /// A vertex that holds `item` and has no subtrees.
    pub fn new(item: i32) -> (node: Self)
        ensures
            node == leaf(item),
    {
        Node { item, left: None, right: None }
    }
}

} // verus!
