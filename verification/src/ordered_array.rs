//! A set kept as an ascending array, searched by bisection.

use vstd::prelude::*;
use crate::element_set::{ElementSet, RemovableSet};
use crate::order::{
    ascending, lemma_ascending_distinct, lemma_ascending_insert, lemma_ascending_remove,
    lemma_neither_less, less, strict_total_order,
};

verus! {

/// A set whose elements lie in an array in ascending order.
#[derive(Debug)]
pub struct OrderedArray<T> {
    arr: Vec<T>,
}

impl<T> OrderedArray<T> {
    /// The elements in the order of the array.
    pub closed spec fn items(&self) -> Seq<T> {
        self.arr@
    }
}

impl<T: PartialOrd> Default for OrderedArray<T> {
    fn default() -> (set: Self)
        ensures
            set.wf(),
            set@ == Set::<T>::empty(),
            set.items() == Seq::<T>::empty(),
    {
        OrderedArray::new()
    }
}

impl<T: PartialOrd> OrderedArray<T> {
    /// An empty set.
    pub fn new() -> (set: Self)
        ensures
            set.wf(),
            set@ == Set::<T>::empty(),
            set.items() == Seq::<T>::empty(),
    {
        let set = OrderedArray { arr: Vec::new() };
        assert(set@ =~= Set::<T>::empty());
        set
    }

    /// The elements of a well-formed set can be counted in a `usize`.
    pub proof fn lemma_len_fits(&self)
        requires
            self.wf(),
        ensures
            self@.len() <= usize::MAX,
    {
        self.arr@.unique_seq_to_set();
        assert(self.arr.len() == self.arr@.len());
    }

    /// Bisects the array for `item`: `Ok` with the index at which it lies,
    /// or `Err` with the index at which it would have to be put to keep the
    /// array ascending.
    fn bisect(&self, item: &T) -> (found: Result<usize, usize>)
        requires
            ascending(self.arr@),
            strict_total_order::<T>(),
        ensures
            match found {
                Ok(at) => at < self.arr@.len() && self.arr@[at as int] == *item,
                Err(at) => {
                    &&& at <= self.arr@.len()
                    &&& forall|i: int| 0 <= i < at ==> less(#[trigger] self.arr@[i], *item)
                    &&& forall|i: int|
                        at <= i < self.arr@.len() ==> less(*item, #[trigger] self.arr@[i])
                },
            },
    {
        if self.arr.len() == 0 {
            return Err(0);
        }
        let mut left: usize = 0;
        let mut right: usize = self.arr.len() - 1;
        while left <= right
            invariant_except_break
                left <= right + 1,
                right < self.arr@.len(),
                forall|i: int| 0 <= i < left ==> less(#[trigger] self.arr@[i], *item),
                forall|i: int| right < i < self.arr@.len() ==> less(*item, #[trigger] self.arr@[i]),
            invariant
                ascending(self.arr@),
                strict_total_order::<T>(),
                self.arr@.len() <= usize::MAX,
            ensures
                left <= self.arr@.len(),
                forall|i: int| 0 <= i < left ==> less(#[trigger] self.arr@[i], *item),
                forall|i: int| left <= i < self.arr@.len() ==> less(*item, #[trigger] self.arr@[i]),
            decreases right + 1 - left,
        {
            let middle = left + (right - left) / 2;
            assert(left <= middle <= right);
            if self.arr[middle] < *item {
                assert forall|i: int| 0 <= i < middle + 1 implies less(
                    #[trigger] self.arr@[i],
                    *item,
                ) by {
                    if i < middle {
                        assert(less(self.arr@[i], self.arr@[middle as int]));
                    }
                }
                left = middle + 1;
            } else if self.arr[middle] > *item {
                assert forall|i: int| middle <= i < self.arr@.len() implies less(
                    *item,
                    #[trigger] self.arr@[i],
                ) by {
                    if middle < i {
                        assert(less(self.arr@[middle as int], self.arr@[i]));
                    }
                }
                if middle == 0 {
                    break ;
                }
                right = middle - 1;
            } else {
                proof {
                    lemma_neither_less(self.arr@[middle as int], *item);
                }
                return Ok(middle);
            }
        }
        Err(left)
    }
}

impl<T: PartialOrd> ElementSet<T> for OrderedArray<T> {
    open spec fn view(&self) -> Set<T> {
        self.items().to_set()
    }

    open spec fn wf(&self) -> bool {
        ascending(self.items()) && self.items().no_duplicates()
    }

    open spec fn element_laws() -> bool {
        strict_total_order::<T>()
    }

    proof fn lemma_finite(&self) {
        vstd::seq_lib::seq_to_set_is_finite(self.items());
    }

    fn contains(&self, item: &T) -> (found: bool) {
        match self.bisect(item) {
            Ok(at) => {
                assert(self.arr@.contains(self.arr@[at as int]));
                true
            },
            Err(at) => {
                assert forall|i: int| 0 <= i < self.arr@.len() implies self.arr@[i] != *item by {
                    if i < at {
                        assert(less(self.arr@[i], *item));
                    } else {
                        assert(less(*item, self.arr@[i]));
                    }
                }
                false
            },
        }
    }

    fn len(&self) -> (n: usize) {
        proof {
            self.arr@.unique_seq_to_set();
        }
        self.arr.len()
    }

    fn insert(&mut self, item: T)
        ensures
            ascending(final(self).items()),
            old(self)@.contains(item) ==> final(self).items() == old(self).items(),
    {
        match self.bisect(&item) {
            Ok(at) => {
                assert(self.arr@.contains(self.arr@[at as int]));
                assert(self@.insert(item) =~= self@);
            },
            Err(at) => {
                proof {
                    lemma_ascending_insert(self.arr@, at as int, item);
                    lemma_ascending_distinct(self.arr@.insert(at as int, item));
                    assert forall|i: int| 0 <= i < self.arr@.len() implies self.arr@[i]
                        != item by {
                        if i < at {
                            assert(less(self.arr@[i], item));
                        } else {
                            assert(less(item, self.arr@[i]));
                        }
                    }
                }
                self.arr.insert(at, item);
            },
        }
    }
}

impl<T: PartialOrd> RemovableSet<T> for OrderedArray<T> {
    fn remove(&mut self, item: &T)
        ensures
            ascending(final(self).items()),
            !old(self)@.contains(*item) ==> final(self).items() == old(self).items(),
    {
        match self.bisect(item) {
            Ok(at) => {
                proof {
                    lemma_ascending_remove(self.arr@, at as int);
                    lemma_ascending_distinct(self.arr@.remove(at as int));
                }
                self.arr.remove(at);
            },
            Err(at) => {
                assert forall|i: int| 0 <= i < self.arr@.len() implies self.arr@[i] != *item by {
                    if i < at {
                        assert(less(self.arr@[i], *item));
                    } else {
                        assert(less(*item, self.arr@[i]));
                    }
                }
                assert(self@.remove(*item) =~= self@);
            },
        }
    }
}

} // verus!
