//! Scripts of set operations: what a script leaves in a set and what it
//! answers, stated over the elements alone, and the running of a script
//! against a set of any kind.

use vstd::prelude::*;
use crate::element_set::{ElementSet, RemovableSet};

verus! {

/// One call of a set operation.
#[derive(Debug)]
pub enum Op<T> {
    Insert(T),
    Remove(T),
    Contains(T),
    Len,
}

/// What a call of a set operation lets its caller see.
#[derive(Debug, Clone, Copy, PartialEq, Eq, Structural)]
pub enum Answer {
    /// An insertion or a removal took place; they give nothing back.
    Done,
    /// Whether the element asked for is held.
    Found(bool),
    /// The number of elements held.
    Size(usize),
}

/// The elements that a set holds after `op`, where it held `held` before.
pub open spec fn elements_after<T>(held: Set<T>, op: Op<T>) -> Set<T> {
    match op {
        Op::Insert(e) => held.insert(e),
        Op::Remove(e) => held.remove(e),
        Op::Contains(_) => held,
        Op::Len => held,
    }
}

/// What `op` answers when it is put to a set that holds `held`.
pub open spec fn answer_to<T>(held: Set<T>, op: Op<T>) -> Answer {
    match op {
        Op::Insert(_) => Answer::Done,
        Op::Remove(_) => Answer::Done,
        Op::Contains(e) => Answer::Found(held.contains(e)),
        Op::Len => Answer::Size(held.len() as usize),
    }
}

/// The elements that a set holds after the whole of `script`, where it held
/// `start` before.
pub open spec fn elements_after_all<T>(start: Set<T>, script: Seq<Op<T>>) -> Set<T>
    decreases script.len(),
{
    if script.len() == 0 {
        start
    } else {
        elements_after(elements_after_all(start, script.drop_last()), script.last())
    }
}

/// The answers of the steps of `script`, each put to the set as the steps
/// before it have left it.
pub open spec fn answers_to<T>(start: Set<T>, script: Seq<Op<T>>) -> Seq<Answer> {
    Seq::new(
        script.len(),
        |i: int| answer_to(elements_after_all(start, script.take(i)), script[i]),
    )
}

/// A script without removals.
pub open spec fn only_grows<T>(script: Seq<Op<T>>) -> bool {
    forall|i: int| 0 <= i < script.len() ==> !(#[trigger] script[i] is Remove)
}

/// A script adds at most one element with each step.
pub proof fn lemma_script_growth<T>(start: Set<T>, script: Seq<Op<T>>)
    requires
        start.finite(),
    ensures
        elements_after_all(start, script).finite(),
        elements_after_all(start, script).len() <= start.len() + script.len(),
    decreases script.len(),
{
    if script.len() > 0 {
        lemma_script_growth(start, script.drop_last());
    }
}

/// One more step: the elements after `k + 1` steps are those after `k`
/// steps and the step that follows.
pub proof fn lemma_script_step<T>(start: Set<T>, script: Seq<Op<T>>, k: int)
    requires
        0 <= k < script.len(),
    ensures
        elements_after_all(start, script.take(k + 1)) == elements_after(
            elements_after_all(start, script.take(k)),
            script[k],
        ),
{
    assert(script.take(k + 1).drop_last() =~= script.take(k));
}

/// Runs `script` against `set`, step by step, and gives the answers.
pub fn run<T, S: RemovableSet<T>>(set: &mut S, script: Vec<Op<T>>) -> (answers: Vec<Answer>)
    requires
        old(set).wf(),
        S::element_laws(),
        old(set)@.len() + script@.len() <= usize::MAX,
    ensures
        final(set).wf(),
        final(set)@ == elements_after_all(old(set)@, script@),
        answers@ == answers_to(old(set)@, script@),
{
    let ghost start = set@;
    let ghost steps = script@;
    let mut answers: Vec<Answer> = Vec::new();
    proof {
        set.lemma_finite();
        assert(steps.take(0) =~= Seq::<Op<T>>::empty());
    }
    for op in iter: script
        invariant
            iter.seq() == steps,
            set.wf(),
            S::element_laws(),
            start.finite(),
            start.len() + steps.len() <= usize::MAX,
            set@ == elements_after_all(start, steps.take(iter.index())),
            answers@.len() == iter.index(),
            forall|i: int|
                0 <= i < iter.index() ==> #[trigger] answers@[i] == answer_to(
                    elements_after_all(start, steps.take(i)),
                    steps[i],
                ),
    {
        proof {
            lemma_script_step(start, steps, iter.index());
            lemma_script_growth(start, steps.take(iter.index()));
        }
        let answer = match op {
            Op::Insert(e) => {
                set.insert(e);
                Answer::Done
            },
            Op::Remove(e) => {
                set.remove(&e);
                Answer::Done
            },
            Op::Contains(e) => Answer::Found(set.contains(&e)),
            Op::Len => Answer::Size(set.len()),
        };
        answers.push(answer);
    }
    proof {
        assert(steps.take(steps.len() as int) =~= steps);
        assert(answers@ =~= answers_to(start, steps));
    }
    answers
}

/// Runs a script without removals against `set`, which may be of a kind
/// that cannot give elements up, and gives the answers.
pub fn run_growing<T, S: ElementSet<T>>(set: &mut S, script: Vec<Op<T>>) -> (answers: Vec<Answer>)
    requires
        old(set).wf(),
        S::element_laws(),
        only_grows(script@),
        old(set)@.len() + script@.len() <= usize::MAX,
    ensures
        final(set).wf(),
        final(set)@ == elements_after_all(old(set)@, script@),
        answers@ == answers_to(old(set)@, script@),
{
    let ghost start = set@;
    let ghost steps = script@;
    let mut answers: Vec<Answer> = Vec::new();
    proof {
        set.lemma_finite();
        assert(steps.take(0) =~= Seq::<Op<T>>::empty());
    }
    for op in iter: script
        invariant
            iter.seq() == steps,
            only_grows(steps),
            set.wf(),
            S::element_laws(),
            start.finite(),
            start.len() + steps.len() <= usize::MAX,
            set@ == elements_after_all(start, steps.take(iter.index())),
            answers@.len() == iter.index(),
            forall|i: int|
                0 <= i < iter.index() ==> #[trigger] answers@[i] == answer_to(
                    elements_after_all(start, steps.take(i)),
                    steps[i],
                ),
    {
        proof {
            lemma_script_step(start, steps, iter.index());
            lemma_script_growth(start, steps.take(iter.index()));
            assert(!(steps[iter.index()] is Remove));
        }
        let answer = match op {
            Op::Insert(e) => {
                set.insert(e);
                Answer::Done
            },
            Op::Remove(_) => Answer::Done,
            Op::Contains(e) => Answer::Found(set.contains(&e)),
            Op::Len => Answer::Size(set.len()),
        };
        answers.push(answer);
    }
    proof {
        assert(steps.take(steps.len() as int) =~= steps);
        assert(answers@ =~= answers_to(start, steps));
    }
    answers
}

/// Contract equivalence: two sets of whatever kinds that hold the same
/// elements give the same answers to the same script, step for step, and
/// hold the same elements after it.
pub proof fn lemma_same_script_same_answers<T, A: ElementSet<T>, B: ElementSet<T>>(
    a: A,
    b: B,
    script: Seq<Op<T>>,
)
    requires
        a.wf(),
        b.wf(),
        a@ == b@,
    ensures
        answers_to(a@, script) == answers_to(b@, script),
        elements_after_all(a@, script) == elements_after_all(b@, script),
{
}

/// Step `i` of `script` inserts `e`, and no later step removes it.
pub open spec fn inserted_for_good<T>(script: Seq<Op<T>>, e: T, i: int) -> bool {
    &&& 0 <= i < script.len()
    &&& script[i] == Op::Insert(e)
    &&& forall|j: int| i < j < script.len() ==> #[trigger] script[j] != Op::Remove(e)
}

/// Membership: after a script that starts on the empty set, an element is
/// held exactly when some step inserted it and no later step removed it.
pub proof fn lemma_membership<T>(script: Seq<Op<T>>, e: T)
    ensures
        elements_after_all(Set::empty(), script).contains(e) <==> exists|i: int|
            inserted_for_good(script, e, i),
    decreases script.len(),
{
    let held = elements_after_all(Set::<T>::empty(), script);
    if script.len() > 0 {
        let before = script.drop_last();
        let last = script.last();
        lemma_membership(before, e);
        let held_before = elements_after_all(Set::<T>::empty(), before);
        if held.contains(e) {
            if last == Op::Insert(e) {
                assert(inserted_for_good(script, e, script.len() - 1));
            } else {
                assert(held_before.contains(e));
                let i = choose|i: int| inserted_for_good(before, e, i);
                assert(script[i] == before[i]);
                assert forall|j: int| i < j < script.len() implies #[trigger] script[j]
                    != Op::Remove(e) by {
                    if j < before.len() {
                        assert(script[j] == before[j]);
                    }
                }
                assert(inserted_for_good(script, e, i));
            }
        }
        if exists|i: int| inserted_for_good(script, e, i) {
            let i = choose|i: int| inserted_for_good(script, e, i);
            if i < before.len() {
                assert(before[i] == script[i]);
                assert forall|j: int| i < j < before.len() implies #[trigger] before[j]
                    != Op::Remove(e) by {
                    assert(before[j] == script[j]);
                }
                assert(inserted_for_good(before, e, i));
                assert(held_before.contains(e));
                assert(script[script.len() - 1] != Op::Remove(e));
            }
        }
    }
}

} // verus!
