use sets::{
    run, run_growing, Answer, ElementSet, LinkedBinaryTree, Op, OrderedArray, RemovableSet,
    SimpleArray,
};
use std::collections::BTreeSet;

fn exercise<S: ElementSet<i32>>(mut set: S, name: &str) {
    assert!(!set.contains(&0), "{}", name);
    set.insert(0);
    set.insert(0);
    assert_eq!(set.len(), 1, "{}", name);
    set.insert(2);
    assert_eq!(set.len(), 2, "{}", name);
    set.insert(1);
    assert_eq!(set.len(), 3, "{}", name);
    assert!(set.contains(&0), "{}", name);
    assert!(set.contains(&1), "{}", name);
    assert!(set.contains(&2), "{}", name);
}

#[test]
fn test() {
    exercise(SimpleArray::<i32>::default(), "SimpleArray<i32>");
    exercise(OrderedArray::<i32>::default(), "OrderedArray<i32>");
    exercise(LinkedBinaryTree::default(), "LinkedBinaryTree");
}

fn exercise_with_removal<S: RemovableSet<i32>>(mut set: S, name: &str) {
    assert!(!set.contains(&0), "{}", name);
    set.insert(0);
    set.insert(0);
    assert_eq!(set.len(), 1, "{}", name);
    set.insert(2);
    set.insert(1);
    assert_eq!(set.len(), 3, "{}", name);
    assert!(set.contains(&0), "{}", name);
    assert!(set.contains(&1), "{}", name);
    assert!(set.contains(&2), "{}", name);
    set.remove(&0);
    assert!(!set.contains(&0), "{}", name);
    assert!(set.contains(&1), "{}", name);
    assert!(set.contains(&2), "{}", name);
    set.remove(&2);
    set.remove(&1);
    assert_eq!(set.len(), 0, "{}", name);
    set.remove(&0);
    assert_eq!(set.len(), 0, "{}", name);
    assert!(!set.contains(&0), "{}", name);
}

#[test]
fn scenario_with_removal_on_the_arrays() {
    exercise_with_removal(SimpleArray::<i32>::new(), "SimpleArray<i32>");
    exercise_with_removal(OrderedArray::<i32>::new(), "OrderedArray<i32>");
}

#[test]
fn new_sets_are_empty() {
    let simple = SimpleArray::<i32>::new();
    let ordered = OrderedArray::<i32>::new();
    let tree = LinkedBinaryTree::new();
    assert_eq!(simple.len(), 0);
    assert_eq!(ordered.len(), 0);
    assert_eq!(tree.len(), 0);
    for probe in [i32::MIN, -1, 0, 1, i32::MAX] {
        assert!(!simple.contains(&probe));
        assert!(!ordered.contains(&probe));
        assert!(!tree.contains(&probe));
    }
}

fn insert_twice<S: ElementSet<i32>>(mut set: S, e: i32) {
    set.insert(7);
    set.insert(e);
    let after_first = set.len();
    set.insert(e);
    assert_eq!(set.len(), after_first);
    assert!(set.contains(&e));
}

#[test]
fn second_insertion_changes_nothing() {
    for e in [i32::MIN, -3, 0, 7, 8, i32::MAX] {
        insert_twice(SimpleArray::<i32>::new(), e);
        insert_twice(OrderedArray::<i32>::new(), e);
        insert_twice(LinkedBinaryTree::new(), e);
    }
}

#[test]
fn removal_of_a_missing_element_changes_nothing() {
    let mut simple = SimpleArray::<i32>::new();
    let mut ordered = OrderedArray::<i32>::new();
    simple.remove(&4);
    ordered.remove(&4);
    for e in [5, 1, 9] {
        simple.insert(e);
        ordered.insert(e);
    }
    for missing in [0, 4, 6, 10] {
        simple.remove(&missing);
        ordered.remove(&missing);
        assert_eq!(simple.len(), 3);
        assert_eq!(ordered.len(), 3);
    }
    for e in [1, 5, 9] {
        assert!(simple.contains(&e));
        assert!(ordered.contains(&e));
    }
}

#[test]
fn ordered_array_takes_elements_at_both_ends_and_between() {
    let mut set = OrderedArray::<i32>::new();
    for e in [10, 30, 20, 0, 40, 25, i32::MIN, i32::MAX] {
        set.insert(e);
    }
    assert_eq!(set.len(), 8);
    for e in [i32::MIN, 0, 10, 20, 25, 30, 40, i32::MAX] {
        assert!(set.contains(&e));
    }
    for e in [-1, 5, 15, 22, 27, 35, 45] {
        assert!(!set.contains(&e));
    }
    set.remove(&i32::MIN);
    set.remove(&i32::MAX);
    set.remove(&25);
    assert_eq!(set.len(), 5);
    for e in [0, 10, 20, 30, 40] {
        assert!(set.contains(&e));
    }
    for e in [i32::MIN, 25, i32::MAX] {
        assert!(!set.contains(&e));
    }
}

#[test]
fn sets_of_other_ordered_elements() {
    let mut simple = SimpleArray::<char>::new();
    let mut ordered = OrderedArray::<u64>::new();
    for c in ['b', 'a', 'b', 'c'] {
        simple.insert(c);
    }
    for n in [u64::MAX, 0, 5, 5, 0] {
        ordered.insert(n);
    }
    assert_eq!(simple.len(), 3);
    assert_eq!(ordered.len(), 3);
    assert!(simple.contains(&'a') && !simple.contains(&'d'));
    assert!(ordered.contains(&u64::MAX) && !ordered.contains(&1));
    simple.remove(&'b');
    ordered.remove(&5);
    assert_eq!(simple.len(), 2);
    assert_eq!(ordered.len(), 2);
    assert!(!simple.contains(&'b'));
    assert!(!ordered.contains(&5));
}

fn next(state: &mut u64) -> u64 {
    *state = state.wrapping_mul(6364136223846793005).wrapping_add(1442695040888963407);
    *state >> 33
}

fn growing_script(seed: u64, steps: usize) -> Vec<(u64, i32)> {
    let mut state = seed;
    let mut script = Vec::new();
    for _ in 0..steps {
        let kind = next(&mut state) % 3;
        let element = (next(&mut state) % 64) as i32 - 32;
        script.push((kind, element));
    }
    script
}

fn growing_ops(script: &[(u64, i32)]) -> Vec<Op<i32>> {
    let mut ops = Vec::new();
    for &(kind, element) in script {
        ops.push(match kind {
            0 => Op::Insert(element),
            1 => Op::Contains(element),
            _ => Op::Len,
        });
    }
    ops
}

fn full_ops(script: &[(u64, i32)]) -> Vec<Op<i32>> {
    let mut ops = Vec::new();
    for (at, &(kind, element)) in script.iter().enumerate() {
        ops.push(match (kind, at % 2) {
            (0, 0) => Op::Insert(element),
            (0, _) => Op::Remove(element),
            (1, _) => Op::Contains(element),
            _ => Op::Len,
        });
    }
    ops
}

fn expected(ops: &[Op<i32>]) -> Vec<Answer> {
    let mut model = BTreeSet::new();
    let mut answers = Vec::new();
    for op in ops {
        answers.push(match op {
            Op::Insert(e) => {
                model.insert(*e);
                Answer::Done
            }
            Op::Remove(e) => {
                model.remove(e);
                Answer::Done
            }
            Op::Contains(e) => Answer::Found(model.contains(e)),
            Op::Len => Answer::Size(model.len()),
        });
    }
    answers
}

#[test]
fn every_variant_answers_a_script_alike() {
    for seed in 0..20 {
        let script = growing_script(seed, 200);
        let mut simple = SimpleArray::<i32>::new();
        let mut ordered = OrderedArray::<i32>::new();
        let mut tree = LinkedBinaryTree::new();
        let from_simple = run_growing(&mut simple, growing_ops(&script));
        let from_ordered = run_growing(&mut ordered, growing_ops(&script));
        let from_tree = run_growing(&mut tree, growing_ops(&script));
        assert_eq!(from_simple.len(), 200);
        assert_eq!(from_simple, from_ordered);
        assert_eq!(from_simple, from_tree);
        assert_eq!(from_simple, expected(&growing_ops(&script)));
        assert_eq!(simple.len(), ordered.len());
        assert_eq!(simple.len(), tree.len());
    }
}

#[test]
fn the_arrays_answer_a_script_with_removals_alike() {
    for seed in 100..120 {
        let script = growing_script(seed, 300);
        let mut simple = SimpleArray::<i32>::new();
        let mut ordered = OrderedArray::<i32>::new();
        let from_simple = run(&mut simple, full_ops(&script));
        let from_ordered = run(&mut ordered, full_ops(&script));
        assert_eq!(from_simple, from_ordered);
        assert_eq!(from_simple, expected(&full_ops(&script)));
        assert_eq!(simple.len(), ordered.len());
    }
}

#[test]
fn a_script_gives_one_answer_for_each_step() {
    let mut set = OrderedArray::<i32>::new();
    let answers = run(
        &mut set,
        vec![
            Op::Contains(0),
            Op::Insert(0),
            Op::Insert(0),
            Op::Len,
            Op::Insert(2),
            Op::Insert(1),
            Op::Len,
            Op::Contains(1),
            Op::Remove(0),
            Op::Contains(0),
            Op::Remove(2),
            Op::Remove(1),
            Op::Len,
            Op::Remove(0),
            Op::Len,
        ],
    );
    assert_eq!(
        answers,
        vec![
            Answer::Found(false),
            Answer::Done,
            Answer::Done,
            Answer::Size(1),
            Answer::Done,
            Answer::Done,
            Answer::Size(3),
            Answer::Found(true),
            Answer::Done,
            Answer::Found(false),
            Answer::Done,
            Answer::Done,
            Answer::Size(0),
            Answer::Done,
            Answer::Size(0),
        ]
    );
    assert!(run(&mut set, Vec::new()).is_empty());
}

#[test]
fn membership_follows_insertions_and_removals() {
    let mut state = 7u64;
    let mut simple = SimpleArray::<i32>::new();
    let mut ordered = OrderedArray::<i32>::new();
    let mut model = BTreeSet::new();
    for _ in 0..2000 {
        let element = (next(&mut state) % 50) as i32 - 25;
        if next(&mut state) % 3 == 0 {
            simple.remove(&element);
            ordered.remove(&element);
            model.remove(&element);
        } else {
            simple.insert(element);
            ordered.insert(element);
            model.insert(element);
        }
        assert_eq!(simple.len(), model.len());
        assert_eq!(ordered.len(), model.len());
        for probe in -26..26 {
            assert_eq!(simple.contains(&probe), model.contains(&probe));
            assert_eq!(ordered.contains(&probe), model.contains(&probe));
        }
    }
}

#[test]
fn tree_membership_follows_insertions() {
    let mut state = 11u64;
    let mut tree = LinkedBinaryTree::new();
    let mut model = BTreeSet::new();
    for _ in 0..1500 {
        let element = (next(&mut state) % 400) as i32 - 200;
        tree.insert(element);
        model.insert(element);
        assert_eq!(tree.len(), model.len());
        assert!(tree.contains(&element));
    }
    for probe in -210..210 {
        assert_eq!(tree.contains(&probe), model.contains(&probe));
    }
}
