//! The workload of the insertion benchmarks: a run of pseudo-random elements
//! and the sets that are filled with it. Timing is left to the caller.

use vstd::prelude::*;
use rand::distributions::Standard;
use rand::rngs::SmallRng;
use rand::{Rng, SeedableRng};
use crate::element_set::ElementSet;
use crate::order::{lemma_i32_exact_equality, lemma_i32_strict_total_order};
use crate::ordered_array::OrderedArray;
use crate::simple_array::{first_occurrences, SimpleArray};

verus! {

/// The seed of the generator that the run of elements is drawn from.
pub const SEED: u64 = 69;

/// `rand::rngs::SmallRng`, a small pseudo-random number generator. Its state
/// is hidden: a value of this type is only handed on.
#[verifier::external_type_specification]
#[verifier::external_body]
pub struct ExSmallRng(rand::rngs::SmallRng);

/// A generator made from `seed` by `SmallRng::seed_from_u64`, which accepts
/// every seed. Nothing is claimed of the generator.
#[verifier::external_body]
fn seeded(seed: u64) -> SmallRng {
    SmallRng::seed_from_u64(seed)
}

/// The first sample that `Rng::sample_iter` draws from `rng` in the
/// `Standard` distribution. The iterator that `sample_iter` gives never ends,
/// so there is a sample; which one depends on the generator and the machine,
/// and nothing is claimed of it.
#[verifier::external_body]
fn draw(rng: &mut SmallRng) -> (sample: Option<i32>)
    ensures
        sample is Some,
{
    rng.sample_iter(Standard).next()
}

/// The run of elements that the benchmarks insert: 1024 samples drawn in
/// turn from a generator seeded with `SEED`.
pub fn items() -> (array: [i32; 1024])
    ensures
        array@.len() == 1024,
{
    let mut array = [0i32; 1024];
    let mut rng = seeded(SEED);
    let mut i: usize = 0;
    while i < 1024
        invariant
            i <= 1024,
        decreases 1024 - i,
    {
        let sample = draw(&mut rng);
        store(&mut array, i, sample);
        i += 1;
    }
    array
}

/// Puts `sample` at place `at` of `run`; where there is no sample, `run` is
/// left as it was.
pub fn store(run: &mut [i32; 1024], at: usize, sample: Option<i32>)
    requires
        at < 1024,
    ensures
        final(run)@ == match sample {
            Some(element) => old(run)@.update(at as int, element),
            None => old(run)@,
        },
{
    if let Some(element) = sample {
        run[at] = element;
    }
}

/// A fresh unordered-array set into which the `items` are inserted from the
/// first to the last.
pub fn simple_array(items: &[i32]) -> (set: SimpleArray<i32>)
    ensures
        set.wf(),
        set@ == items@.to_set(),
        set.items() == first_occurrences(items@),
{
    let mut set = SimpleArray::default();
    let mut i: usize = 0;
    proof {
        lemma_i32_exact_equality();
        assert(items@.take(0) =~= Seq::<i32>::empty());
    }
    while i < items.len()
        invariant
            i <= items@.len(),
            SimpleArray::<i32>::element_laws(),
            set.wf(),
            set.items() == first_occurrences(items@.take(i as int)),
            set@ == items@.take(i as int).to_set(),
        decreases items@.len() - i,
    {
        proof {
            let grown = items@.take(i + 1);
            assert(grown.drop_last() =~= items@.take(i as int));
            assert(grown.last() == items@[i as int]);
            assert(grown =~= items@.take(i as int).push(items@[i as int]));
            items@.take(i as int).lemma_push_to_set_commute(items@[i as int]);
        }
        set.insert(items[i]);
        i += 1;
    }
    proof {
        assert(items@.take(i as int) =~= items@);
    }
    set
}

/// A fresh ordered-array set into which the `items` are inserted from the
/// first to the last.
pub fn ordered_array(items: &[i32]) -> (set: OrderedArray<i32>)
    ensures
        set.wf(),
        set@ == items@.to_set(),
{
    let mut set = OrderedArray::default();
    let mut i: usize = 0;
    proof {
        lemma_i32_strict_total_order();
        assert(items@.take(0).to_set() =~= Set::<i32>::empty());
        assert(set@ =~= Set::<i32>::empty());
    }
    while i < items.len()
        invariant
            i <= items@.len(),
            OrderedArray::<i32>::element_laws(),
            set.wf(),
            set@ == items@.take(i as int).to_set(),
        decreases items@.len() - i,
    {
        proof {
            assert(items@.take(i + 1) =~= items@.take(i as int).push(items@[i as int]));
            items@.take(i as int).lemma_push_to_set_commute(items@[i as int]);
        }
        set.insert(items[i]);
        i += 1;
    }
    proof {
        assert(items@.take(i as int) =~= items@);
    }
    set
}

} // verus!
