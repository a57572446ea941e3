//! A set kept as a height-balanced binary search tree.

use vstd::prelude::*;
use crate::element_set::ElementSet;
use vstd::arithmetic::power2::pow2;
use crate::node::{
    balance, count, elements, height, in_order, inserted, is_balanced, is_search_tree, leaf,
    leftmost, rotated_left, rotated_right, subtree, Node,
};
use crate::tree_laws::{
    lemma_elements_counted, lemma_elements_finite, lemma_height_logarithmic, lemma_heights_fit,
    lemma_in_order, lemma_inserted, lemma_leaf, lemma_leftmost_least,
};

verus! {

/// A set of 32-bit integers kept as a binary search tree in which, at every
/// vertex, the heights of the two subtrees differ by at most 1.
#[derive(Debug)]
pub struct LinkedBinaryTree {
    root: Option<Box<Node>>,
}

impl LinkedBinaryTree {
    /// The tree itself: the subtree below the root.
    pub closed spec fn shape(&self) -> Option<Box<Node>> {
        self.root
    }

    /// The elements as an in-order traversal of the tree meets them.
    pub open spec fn in_order(&self) -> Seq<i32> {
        in_order(self.shape())
    }

    /// An empty set.
    pub fn new() -> (set: Self)
        ensures
            set.wf(),
            set@ == Set::<i32>::empty(),
            set.shape() is None,
    {
        LinkedBinaryTree { root: None }
    }

    /// The search order of a well-formed tree: its in-order traversal is
    /// strictly ascending, holds nothing twice, and meets exactly the
    /// elements of the set.
    pub proof fn lemma_in_order_ascending(&self)
        requires
            self.wf(),
        ensures
            forall|i: int, j: int|
                0 <= i < j < self.in_order().len() ==> self.in_order()[i] < self.in_order()[j],
            self.in_order().no_duplicates(),
            self.in_order().to_set() == self@,
            self.in_order().len() == self@.len(),
    {
        lemma_in_order(self.shape());
        lemma_elements_counted(self.shape());
    }

    /// The height of a well-formed tree is logarithmic in the number of its
    /// elements: 2 to the power of half the height is at most that number
    /// and 1. The elements number at most 2^32, so the height is at most 65.
    pub proof fn lemma_height_logarithmic(&self)
        requires
            self.wf(),
        ensures
            pow2(height(self.shape()) / 2) <= self@.len() + 1,
            self@.len() <= 0x1_0000_0000,
            height(self.shape()) <= 65,
    {
        lemma_height_logarithmic(self.shape());
        lemma_heights_fit(self.shape());
        lemma_elements_counted(self.shape());
    }

    /// Inserts `item` into the balanced search tree whose root is `node` and
    /// gives back the root of the tree that results.
    pub fn node_insert(node: Box<Node>, item: i32) -> (top: Box<Node>)
        requires
            is_search_tree(Some(node)),
            is_balanced(Some(node)),
        ensures
            *top == inserted(*node, item),
            is_search_tree(Some(top)),
            is_balanced(Some(top)),
            elements(Some(top)) == elements(Some(node)).insert(item),
        decreases node,
    {
        let ghost before = *node;
        proof {
            lemma_inserted(before, item);
            lemma_leaf(item);
        }
        let mut node = node;
        if item == node.item {
            return node;
        }
        if item < node.item {
            if let Some(left_node) = node.left.take() {
                assert(subtree(*left_node) == before.left);
                proof {
                    lemma_inserted(*left_node, item);
                }
                node.left = Some(Self::node_insert(left_node, item));
                proof {
                    lemma_heights_fit(node.left);
                    lemma_heights_fit(node.right);
                }
                if Self::balance_factor(&node) > 1 {
                    proof {
                        lemma_heights_fit(node.left->0.left);
                        lemma_heights_fit(node.left->0.right);
                    }
                    if Self::balance_factor(node.left.as_ref().unwrap()) >= 0 {
                        node = Self::right_rotate(node);
                    } else {
                        node.left = Some(Self::left_rotate(node.left.take().unwrap()));
                        node = Self::right_rotate(node);
                    }
                }
            } else {
                node.left = Some(Box::new(Node::new(item)));
            }
        } else {
            if let Some(right_node) = node.right.take() {
                assert(subtree(*right_node) == before.right);
                proof {
                    lemma_inserted(*right_node, item);
                }
                node.right = Some(Self::node_insert(right_node, item));
                proof {
                    lemma_heights_fit(node.left);
                    lemma_heights_fit(node.right);
                }
                if Self::balance_factor(&node) < -1 {
                    proof {
                        lemma_heights_fit(node.right->0.left);
                        lemma_heights_fit(node.right->0.right);
                    }
                    if Self::balance_factor(node.right.as_ref().unwrap()) > 0 {
                        node.right = Some(Self::right_rotate(node.right.take().unwrap()));
                        node = Self::left_rotate(node);
                    } else {
                        node = Self::left_rotate(node);
                    }
                }
            } else {
                node.right = Some(Box::new(Node::new(item)));
            }
        }
        node
    }

    /// The height of the left subtree of `node` less that of its right
    /// subtree.
    pub fn balance_factor(node: &Node) -> (factor: isize)
        requires
            height(node.left) <= isize::MAX,
            height(node.right) <= isize::MAX,
        ensures
            factor == balance(*node),
    {
        Self::node_height(&node.left) as isize - Self::node_height(&node.right) as isize
    }

    /// The height of a subtree.
    pub fn node_height(node: &Option<Box<Node>>) -> (h: usize)
        requires
            height(*node) <= usize::MAX,
        ensures
            h == height(*node),
        decreases *node,
    {
        if let Some(n) = node {
            let l = Self::node_height(&n.left);
            let r = Self::node_height(&n.right);
            if l >= r {
                l + 1
            } else {
                r + 1
            }
        } else {
            0
        }
    }

    /// Rotates `node` to the right.
    pub fn right_rotate(node: Box<Node>) -> (top: Box<Node>)
        requires
            node.left is Some,
        ensures
            *top == rotated_right(*node),
    {
        let mut node = node;
        let mut pivot = node.left.take().unwrap();
        node.left = pivot.right.take();
        pivot.right = Some(node);
        pivot
    }

    /// Rotates `node` to the left.
    pub fn left_rotate(node: Box<Node>) -> (top: Box<Node>)
        requires
            node.right is Some,
        ensures
            *top == rotated_left(*node),
    {
        let mut node = node;
        let mut pivot = node.right.take().unwrap();
        node.right = pivot.left.take();
        pivot.left = Some(node);
        pivot
    }

    /// The number of vertices of the subtree whose root is `node`.
    pub fn count_nodes(node: &Node) -> (total: usize)
        requires
            count(subtree(*node)) <= usize::MAX,
        ensures
            total == count(subtree(*node)),
        decreases *node,
    {
        proof {
            reveal_with_fuel(count, 2);
        }
        let mut total: usize = 1;
        if let Some(left) = &node.left {
            assert(subtree(**left) == node.left);
            total += Self::count_nodes(left);
        }
        if let Some(right) = &node.right {
            assert(subtree(**right) == node.right);
            total += Self::count_nodes(right);
        }
        total
    }

    /// The leftmost element of the subtree whose root is `node`.
    pub fn get_min(node: &Node) -> (min: i32)
        ensures
            min == leftmost(*node),
            is_search_tree(subtree(*node)) ==> elements(subtree(*node)).contains(min),
            is_search_tree(subtree(*node)) ==> forall|e: i32|
                elements(subtree(*node)).contains(e) ==> min <= e,
    {
        let mut curr = node;
        loop
            invariant
                leftmost(*curr) == leftmost(*node),
            decreases height(subtree(*curr)),
        {
            match &curr.left {
                Some(left) => {
                    curr = left;
                },
                None => {
                    proof {
                        if is_search_tree(subtree(*node)) {
                            lemma_leftmost_least(*node);
                        }
                    }
                    return curr.item;
                },
            }
        }
    }
}

impl Default for LinkedBinaryTree {
    fn default() -> (set: Self)
        ensures
            set.wf(),
            set@ == Set::<i32>::empty(),
            set.shape() is None,
    {
        LinkedBinaryTree::new()
    }
}

impl ElementSet<i32> for LinkedBinaryTree {
    open spec fn view(&self) -> Set<i32> {
        elements(self.shape())
    }

    open spec fn wf(&self) -> bool {
        is_search_tree(self.shape()) && is_balanced(self.shape())
    }

    open spec fn element_laws() -> bool {
        true
    }

    proof fn lemma_finite(&self) {
        lemma_elements_finite(self.shape());
    }

    fn contains(&self, item: &i32) -> (found: bool) {
        let mut current = &self.root;
        loop
            invariant
                is_search_tree(*current),
                elements(self.root).contains(*item) <==> elements(*current).contains(*item),
            decreases height(*current),
        {
            match current {
                Some(curr) => {
                    if *item == curr.item {
                        return true;
                    } else if *item < curr.item {
                        assert(elements(curr.right).contains(*item) ==> curr.item < *item);
                        current = &curr.left;
                    } else {
                        assert(elements(curr.left).contains(*item) ==> *item < curr.item);
                        current = &curr.right;
                    }
                },
                None => {
                    return false;
                },
            }
        }
    }

    fn len(&self) -> (n: usize) {
        proof {
            lemma_elements_counted(self.root);
        }
        if let Some(root) = &self.root {
            assert(subtree(**root) == self.root);
            Self::count_nodes(root)
        } else {
            0
        }
    }

    fn insert(&mut self, item: i32)
        ensures
            is_search_tree(final(self).shape()),
            is_balanced(final(self).shape()),
            final(self).shape() == match old(self).shape() {
                Some(root) => subtree(inserted(*root, item)),
                None => subtree(leaf(item)),
            },
            old(self)@.contains(item) ==> final(self).shape() == old(self).shape(),
    {
        proof {
            lemma_leaf(item);
        }
        if let Some(root) = self.root.take() {
            proof {
                lemma_inserted(*root, item);
            }
            self.root = Some(Self::node_insert(root, item));
        } else {
            self.root = Some(Box::new(Node::new(item)));
            assert(final(self)@ =~= old(self)@.insert(item));
        }
    }
}

} // verus!
