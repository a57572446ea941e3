//! What holds of search trees: rotation and insertion keep the search order
//! and the height balance, a search tree holds each element at one vertex,
//! and the height of a balanced tree is logarithmic in its size.

use vstd::prelude::*;
use vstd::arithmetic::power2::{
    lemma2_to64, lemma2_to64_rest, lemma_pow2_strictly_increases, lemma_pow2_unfold, pow2,
};
use crate::node::{
    balance, count, elements, height, in_order, inserted, is_balanced, is_search_tree, leaf,
    leftmost, rebalanced_left, rebalanced_right, rotated_left, rotated_right, subtree, Node,
};

verus! {

/// A right rotation keeps the search order and the elements.
pub proof fn lemma_rotated_right(node: Node)
    requires
        node.left is Some,
        is_search_tree(subtree(node)),
    ensures
        is_search_tree(subtree(rotated_right(node))),
        elements(subtree(rotated_right(node))) == elements(subtree(node)),
        count(subtree(rotated_right(node))) == count(subtree(node)),
{
    reveal_with_fuel(elements, 3);
    reveal_with_fuel(is_search_tree, 2);
    reveal_with_fuel(count, 3);
    let pivot = *node.left->0;
    let lowered = Node { item: node.item, left: pivot.right, right: node.right };
    assert(subtree(pivot) == node.left);
    assert(elements(node.left).contains(pivot.item));
    assert forall|e: i32| #[trigger] elements(pivot.right).contains(e) implies e < node.item by {
        assert(elements(node.left).contains(e));
    }
    assert(is_search_tree(subtree(lowered)));
    assert(is_search_tree(subtree(pivot)));
    assert(pivot.item < node.item);
    assert forall|e: i32| #[trigger]
        elements(subtree(lowered)).contains(e) implies pivot.item < e by {
        if elements(pivot.right).contains(e) {
        } else if elements(node.right).contains(e) {
            assert(node.item < e);
        } else {
            assert(e == node.item);
        }
    }
    assert(elements(subtree(rotated_right(node))) =~= elements(subtree(node)));
}

/// A left rotation keeps the search order and the elements.
pub proof fn lemma_rotated_left(node: Node)
    requires
        node.right is Some,
        is_search_tree(subtree(node)),
    ensures
        is_search_tree(subtree(rotated_left(node))),
        elements(subtree(rotated_left(node))) == elements(subtree(node)),
        count(subtree(rotated_left(node))) == count(subtree(node)),
{
    reveal_with_fuel(elements, 3);
    reveal_with_fuel(is_search_tree, 2);
    reveal_with_fuel(count, 3);
    let pivot = *node.right->0;
    let lowered = Node { item: node.item, left: node.left, right: pivot.left };
    assert(subtree(pivot) == node.right);
    assert(elements(node.right).contains(pivot.item));
    assert forall|e: i32| #[trigger] elements(pivot.left).contains(e) implies node.item < e by {
        assert(elements(node.right).contains(e));
    }
    assert(is_search_tree(subtree(lowered)));
    assert(is_search_tree(subtree(pivot)));
    assert(node.item < pivot.item);
    assert forall|e: i32| #[trigger]
        elements(subtree(lowered)).contains(e) implies e < pivot.item by {
        if elements(pivot.left).contains(e) {
        } else if elements(node.left).contains(e) {
            assert(e < node.item);
        } else {
            assert(e == node.item);
        }
    }
    assert(elements(subtree(rotated_left(node))) =~= elements(subtree(node)));
}

/// Rebalancing after growth on the left restores the height balance of a
/// vertex whose subtrees are balanced and whose left subtree is taller by at
/// most 2; it keeps the search order and the elements, and lowers the height
/// by at most 1.
pub proof fn lemma_rebalanced_left(node: Node)
    requires
        node.left is Some,
        is_search_tree(subtree(node)),
        is_balanced(node.left),
        is_balanced(node.right),
        -1 <= balance(node) <= 2,
    ensures
        is_search_tree(subtree(rebalanced_left(node))),
        is_balanced(subtree(rebalanced_left(node))),
        elements(subtree(rebalanced_left(node))) == elements(subtree(node)),
        balance(node) <= 1 ==> rebalanced_left(node) == node,
        height(subtree(rebalanced_left(node))) == height(subtree(node)) || height(
            subtree(rebalanced_left(node)),
        ) + 1 == height(subtree(node)),
{
    reveal_with_fuel(height, 4);
    reveal_with_fuel(is_balanced, 4);
    if balance(node) > 1 {
        let child = *node.left->0;
        if balance(child) >= 0 {
            lemma_rotated_right(node);
        } else {
            reveal_with_fuel(is_search_tree, 2);
            reveal_with_fuel(elements, 2);
            lemma_rotated_left(child);
            let turned = Node {
                item: node.item,
                left: subtree(rotated_left(child)),
                right: node.right,
            };
            assert(is_search_tree(subtree(turned)));
            assert(elements(subtree(turned)) =~= elements(subtree(node)));
            lemma_rotated_right(turned);
        }
    }
}

/// Rebalancing after growth on the right, the mirror image of
/// `lemma_rebalanced_left`.
pub proof fn lemma_rebalanced_right(node: Node)
    requires
        node.right is Some,
        is_search_tree(subtree(node)),
        is_balanced(node.left),
        is_balanced(node.right),
        -2 <= balance(node) <= 1,
    ensures
        is_search_tree(subtree(rebalanced_right(node))),
        is_balanced(subtree(rebalanced_right(node))),
        elements(subtree(rebalanced_right(node))) == elements(subtree(node)),
        balance(node) >= -1 ==> rebalanced_right(node) == node,
        height(subtree(rebalanced_right(node))) == height(subtree(node)) || height(
            subtree(rebalanced_right(node)),
        ) + 1 == height(subtree(node)),
{
    reveal_with_fuel(height, 4);
    reveal_with_fuel(is_balanced, 4);
    if balance(node) < -1 {
        let child = *node.right->0;
        if balance(child) > 0 {
            reveal_with_fuel(is_search_tree, 2);
            reveal_with_fuel(elements, 2);
            lemma_rotated_right(child);
            let turned = Node {
                item: node.item,
                left: node.left,
                right: subtree(rotated_right(child)),
            };
            assert(is_search_tree(subtree(turned)));
            assert(elements(subtree(turned)) =~= elements(subtree(node)));
            lemma_rotated_left(turned);
        } else {
            lemma_rotated_left(node);
        }
    }
}

/// A leaf is a balanced search tree of height 1 that holds its element alone.
pub proof fn lemma_leaf(item: i32)
    ensures
        is_search_tree(subtree(leaf(item))),
        is_balanced(subtree(leaf(item))),
        height(subtree(leaf(item))) == 1,
        count(subtree(leaf(item))) == 1,
        elements(subtree(leaf(item))) == Set::<i32>::empty().insert(item),
{
    reveal_with_fuel(is_search_tree, 2);
    reveal_with_fuel(is_balanced, 2);
    reveal_with_fuel(height, 2);
    reveal_with_fuel(count, 2);
    reveal_with_fuel(elements, 2);
    assert(elements(subtree(leaf(item))) =~= Set::<i32>::empty().insert(item));
}

/// A vertex of a balanced search tree whose left subtree is replaced by one
/// that holds a further, smaller element and is at most 1 higher: the search
/// order holds, and the left subtree is taller than the right by at most 2.
proof fn lemma_grown_left(node: Node, item: i32, below: Node)
    requires
        is_search_tree(subtree(node)),
        is_balanced(subtree(node)),
        item < node.item,
        is_search_tree(subtree(below)),
        is_balanced(subtree(below)),
        elements(subtree(below)) == elements(node.left).insert(item),
        height(subtree(below)) == height(node.left) || height(subtree(below)) == height(
            node.left,
        ) + 1,
    ensures
        ({
            let grown = Node { item: node.item, left: subtree(below), right: node.right };
            &&& is_search_tree(subtree(grown))
            &&& is_balanced(grown.left)
            &&& is_balanced(grown.right)
            &&& -1 <= balance(grown) <= 2
            &&& elements(subtree(grown)) == elements(subtree(node)).insert(item)
            &&& height(subtree(grown)) == height(subtree(node)) || height(subtree(grown))
                == height(subtree(node)) + 1
            &&& balance(grown) == 2 ==> height(subtree(grown)) == height(subtree(node)) + 1
        }),
{
    let grown = Node { item: node.item, left: subtree(below), right: node.right };
    assert(elements(subtree(grown)) =~= elements(subtree(node)).insert(item));
}

/// The mirror image of `lemma_grown_left`.
proof fn lemma_grown_right(node: Node, item: i32, below: Node)
    requires
        is_search_tree(subtree(node)),
        is_balanced(subtree(node)),
        node.item < item,
        is_search_tree(subtree(below)),
        is_balanced(subtree(below)),
        elements(subtree(below)) == elements(node.right).insert(item),
        height(subtree(below)) == height(node.right) || height(subtree(below)) == height(
            node.right,
        ) + 1,
    ensures
        ({
            let grown = Node { item: node.item, left: node.left, right: subtree(below) };
            &&& is_search_tree(subtree(grown))
            &&& is_balanced(grown.left)
            &&& is_balanced(grown.right)
            &&& -2 <= balance(grown) <= 1
            &&& elements(subtree(grown)) == elements(subtree(node)).insert(item)
            &&& height(subtree(grown)) == height(subtree(node)) || height(subtree(grown))
                == height(subtree(node)) + 1
            &&& balance(grown) == -2 ==> height(subtree(grown)) == height(subtree(node)) + 1
        }),
{
    let grown = Node { item: node.item, left: node.left, right: subtree(below) };
    assert(elements(subtree(grown)) =~= elements(subtree(node)).insert(item));
}

/// Insertion into a balanced search tree gives a balanced search tree that
/// holds the old elements and the new one and is at most 1 higher; the
/// insertion of an element already held gives the same tree.
pub proof fn lemma_inserted(node: Node, item: i32)
    requires
        is_search_tree(subtree(node)),
        is_balanced(subtree(node)),
    ensures
        is_search_tree(subtree(inserted(node, item))),
        is_balanced(subtree(inserted(node, item))),
        elements(subtree(inserted(node, item))) == elements(subtree(node)).insert(item),
        elements(subtree(node)).contains(item) ==> inserted(node, item) == node,
        height(subtree(inserted(node, item))) == height(subtree(node)) || height(
            subtree(inserted(node, item)),
        ) == height(subtree(node)) + 1,
    decreases node,
{
    if item == node.item {
        assert(elements(subtree(node)).insert(item) =~= elements(subtree(node)));
    } else if item < node.item {
        let below = match node.left {
            Some(child) => {
                assert(subtree(*child) == node.left);
                lemma_inserted(*child, item);
                inserted(*child, item)
            },
            None => {
                lemma_leaf(item);
                assert(elements(node.left).insert(item) =~= elements(subtree(leaf(item))));
                leaf(item)
            },
        };
        let grown = Node { item: node.item, left: subtree(below), right: node.right };
        lemma_grown_left(node, item, below);
        assert(elements(node.right).contains(item) ==> node.item < item);
        if node.left is Some {
            lemma_rebalanced_left(grown);
            if elements(subtree(node)).contains(item) {
                assert(!elements(node.right).contains(item));
                assert(elements(node.left).contains(item));
                assert(grown == node);
            }
        }
    } else {
        let below = match node.right {
            Some(child) => {
                assert(subtree(*child) == node.right);
                lemma_inserted(*child, item);
                inserted(*child, item)
            },
            None => {
                lemma_leaf(item);
                assert(elements(node.right).insert(item) =~= elements(subtree(leaf(item))));
                leaf(item)
            },
        };
        let grown = Node { item: node.item, left: node.left, right: subtree(below) };
        lemma_grown_right(node, item, below);
        assert(elements(node.left).contains(item) ==> item < node.item);
        if node.right is Some {
            lemma_rebalanced_right(grown);
            if elements(subtree(node)).contains(item) {
                assert(!elements(node.left).contains(item));
                assert(elements(node.right).contains(item));
                assert(grown == node);
            }
        }
    }
}

/// A subtree holds finitely many elements.
pub proof fn lemma_elements_finite(tree: Option<Box<Node>>)
    ensures
        elements(tree).finite(),
    decreases tree,
{
    if let Some(node) = tree {
        lemma_elements_finite(node.left);
        lemma_elements_finite(node.right);
    }
}

/// A search tree holds as many elements as it has vertices.
pub proof fn lemma_elements_counted(tree: Option<Box<Node>>)
    requires
        is_search_tree(tree),
    ensures
        elements(tree).finite(),
        elements(tree).len() == count(tree),
    decreases tree,
{
    lemma_elements_finite(tree);
    if let Some(node) = tree {
        lemma_elements_counted(node.left);
        lemma_elements_counted(node.right);
        let l = elements(node.left);
        let r = elements(node.right);
        assert(l.disjoint(r)) by {
            assert forall|e: i32| l.contains(e) implies !r.contains(e) by {
                if r.contains(e) {
                    assert(e < node.item && node.item < e);
                }
            }
        }
        vstd::set_lib::lemma_set_disjoint_lens(l, r);
        assert(l + r == l.union(r));
        assert(!l.union(r).contains(node.item));
    }
}

/// The in-order traversal of a search tree is strictly ascending and meets
/// each element of the tree once.
pub proof fn lemma_in_order(tree: Option<Box<Node>>)
    requires
        is_search_tree(tree),
    ensures
        forall|i: int, j: int|
            0 <= i < j < in_order(tree).len() ==> in_order(tree)[i] < in_order(tree)[j],
        in_order(tree).no_duplicates(),
        in_order(tree).to_set() == elements(tree),
        in_order(tree).len() == count(tree),
    decreases tree,
{
    match tree {
        None => {
            assert(in_order(tree).to_set() =~= elements(tree));
        },
        Some(node) => {
            lemma_in_order(node.left);
            lemma_in_order(node.right);
            let a = in_order(node.left);
            let b = in_order(node.right);
            let s = in_order(tree);
            assert(s == a.push(node.item) + b);
            assert forall|i: int| 0 <= i < a.len() implies s[i] < node.item by {
                assert(s[i] == a[i]);
                assert(a.to_set().contains(a[i]));
            }
            assert(s[a.len() as int] == node.item);
            assert forall|i: int| a.len() < i < s.len() implies node.item < s[i] by {
                assert(s[i] == b[i - a.len() - 1]);
                assert(b.to_set().contains(b[i - a.len() - 1]));
            }
            assert forall|i: int, j: int| 0 <= i < j < s.len() implies s[i] < s[j] by {
                if j < a.len() {
                    assert(s[i] == a[i] && s[j] == a[j]);
                } else if i > a.len() {
                    assert(s[i] == b[i - a.len() - 1] && s[j] == b[j - a.len() - 1]);
                }
            }
            assert forall|e: i32| s.to_set().contains(e) <==> elements(tree).contains(e) by {
                if s.to_set().contains(e) {
                    let i = choose|i: int| 0 <= i < s.len() && s[i] == e;
                    if i < a.len() {
                        assert(a[i] == e);
                        assert(a.to_set().contains(e));
                    } else if i > a.len() {
                        assert(b[i - a.len() - 1] == e);
                        assert(b.to_set().contains(e));
                    }
                }
                if elements(node.left).contains(e) {
                    assert(a.to_set().contains(e));
                    let i = choose|i: int| 0 <= i < a.len() && a[i] == e;
                    assert(s[i] == e);
                } else if elements(node.right).contains(e) {
                    assert(b.to_set().contains(e));
                    let i = choose|i: int| 0 <= i < b.len() && b[i] == e;
                    assert(s[i + a.len() + 1] == e);
                } else if e == node.item {
                    assert(s[a.len() as int] == e);
                }
            }
            assert(s.to_set() =~= elements(tree));
        },
    }
}

/// In a search tree the leftmost element is the least.
pub proof fn lemma_leftmost_least(node: Node)
    requires
        is_search_tree(subtree(node)),
    ensures
        elements(subtree(node)).contains(leftmost(node)),
        forall|e: i32| elements(subtree(node)).contains(e) ==> leftmost(node) <= e,
    decreases node,
{
    if let Some(child) = node.left {
        assert(subtree(*child) == node.left);
        lemma_leftmost_least(*child);
        assert(elements(node.left).contains(leftmost(node)));
    }
    assert forall|e: i32| elements(subtree(node)).contains(e) implies leftmost(node) <= e by {
        if elements(node.left).contains(e) {
        } else if elements(node.right).contains(e) {
            assert(node.item < e);
        } else {
            assert(e == node.item);
        }
    }
}

/// The least number of vertices that a balanced tree of height `h` can have.
pub open spec fn fewest_vertices(h: nat) -> nat
    decreases h,
{
    if h == 0 {
        0
    } else if h == 1 {
        1
    } else {
        1 + fewest_vertices((h - 1) as nat) + fewest_vertices((h - 2) as nat)
    }
}

proof fn lemma_fewest_vertices_grows(h: nat)
    ensures
        fewest_vertices(h) <= fewest_vertices(h + 1),
{
    reveal_with_fuel(fewest_vertices, 2);
}

proof fn lemma_fewest_vertices_exponential(h: nat)
    ensures
        pow2(h / 2) <= fewest_vertices(h) + 1,
    decreases h,
{
    if h < 2 {
        lemma2_to64();
    } else {
        let below = (h - 2) as nat;
        lemma_fewest_vertices_exponential(below);
        lemma_fewest_vertices_grows(below);
        assert(h / 2 == below / 2 + 1);
        lemma_pow2_unfold(h / 2);
    }
}

/// A balanced tree has at least the fewest vertices that its height allows.
pub proof fn lemma_balanced_count(tree: Option<Box<Node>>)
    requires
        is_balanced(tree),
    ensures
        count(tree) >= fewest_vertices(height(tree)),
    decreases tree,
{
    if let Some(node) = tree {
        lemma_balanced_count(node.left);
        lemma_balanced_count(node.right);
        let hl = height(node.left);
        let hr = height(node.right);
        if hl == hr && hl >= 1 {
            lemma_fewest_vertices_grows((hl - 1) as nat);
        }
    }
}

/// A search tree whose elements lie strictly between `lo` and `hi` has no
/// more vertices than there are integers between the two.
proof fn lemma_count_between(tree: Option<Box<Node>>, lo: int, hi: int)
    requires
        is_search_tree(tree),
        forall|e: i32| elements(tree).contains(e) ==> lo < e < hi,
    ensures
        count(tree) == 0 || count(tree) <= hi - lo - 1,
    decreases tree,
{
    if let Some(node) = tree {
        assert(elements(tree).contains(node.item));
        assert forall|e: i32| elements(node.left).contains(e) implies lo < e < node.item by {
            assert(elements(tree).contains(e));
        }
        assert forall|e: i32| elements(node.right).contains(e) implies node.item < e < hi by {
            assert(elements(tree).contains(e));
        }
        lemma_count_between(node.left, lo, node.item as int);
        lemma_count_between(node.right, node.item as int, hi);
    }
}

/// The height of a balanced tree is logarithmic in the number of its
/// vertices: 2 to the power of half the height is at most that number and 1.
pub proof fn lemma_height_logarithmic(tree: Option<Box<Node>>)
    requires
        is_balanced(tree),
    ensures
        pow2(height(tree) / 2) <= count(tree) + 1,
{
    lemma_balanced_count(tree);
    lemma_fewest_vertices_exponential(height(tree));
}

/// A search tree of 32-bit integers has at most 2^32 vertices, and where it
/// is balanced its height is at most 65, which fits the machine's signed and
/// unsigned sizes.
pub proof fn lemma_heights_fit(tree: Option<Box<Node>>)
    requires
        is_search_tree(tree),
    ensures
        count(tree) <= 0x1_0000_0000,
        is_balanced(tree) ==> height(tree) <= 65,
        is_balanced(tree) ==> height(tree) <= isize::MAX && height(tree) <= usize::MAX,
{
    lemma_count_between(tree, i32::MIN - 1, i32::MAX + 1);
    if is_balanced(tree) {
        lemma_height_logarithmic(tree);
        if height(tree) / 2 >= 33 {
            lemma2_to64_rest();
            if height(tree) / 2 > 33 {
                lemma_pow2_strictly_increases(33, height(tree) / 2);
            }
        }
    }
}

} // verus!
