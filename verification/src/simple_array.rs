//! A set kept as an unordered array, searched from front to back.

use vstd::prelude::*;
use crate::element_set::{ElementSet, RemovableSet};
use crate::order::exact_equality;

verus! {

/// The items of `s` in their order, each where it occurs first and nowhere
/// else.
pub open spec fn first_occurrences<T>(s: Seq<T>) -> Seq<T>
    decreases s.len(),
{
    if s.len() == 0 {
        s
    } else {
        let before = first_occurrences(s.drop_last());
        if before.contains(s.last()) {
            before
        } else {
            before.push(s.last())
        }
    }
}

/// What a sequence keeps when every item equal to `item` is taken out.
pub open spec fn differs_from<T>(item: T) -> spec_fn(T) -> bool {
    |x: T| x != item
}

/// A sequence without duplicates, once every item equal to `item` is taken
/// out, is still without duplicates and holds what it held but `item`.
proof fn lemma_filter_differs<T>(s: Seq<T>, item: T)
    requires
        s.no_duplicates(),
    ensures
        s.filter(differs_from(item)).no_duplicates(),
        s.filter(differs_from(item)).to_set() == s.to_set().remove(item),
    decreases s.len(),
{
    reveal(Seq::filter);
    let kept = s.filter(differs_from(item));
    if s.len() == 0 {
        assert(kept.to_set() =~= s.to_set().remove(item));
    } else {
        let rest = s.drop_last();
        let last = s.last();
        lemma_filter_differs(rest, item);
        let kept_rest = rest.filter(differs_from(item));
        assert(rest.push(last) == s);
        rest.lemma_push_to_set_commute(last);
        assert(!rest.to_set().contains(last)) by {
            if rest.to_set().contains(last) {
                let i = choose|i: int| 0 <= i < rest.len() && rest[i] == last;
                assert(s[i] == s[s.len() - 1]);
            }
        }
        if last != item {
            assert(kept == kept_rest.push(last));
            kept_rest.lemma_push_to_set_commute(last);
            assert(!kept_rest.to_set().contains(last));
            assert forall|i: int, j: int|
                0 <= i < kept.len() && 0 <= j < kept.len() && i != j implies kept[i]
                != kept[j] by {
                if i == kept.len() - 1 {
                    assert(kept_rest.to_set().contains(kept_rest[j]));
                } else if j == kept.len() - 1 {
                    assert(kept_rest.to_set().contains(kept_rest[i]));
                } else {
                    assert(kept[i] == kept_rest[i] && kept[j] == kept_rest[j]);
                }
            }
            assert(kept.to_set() =~= s.to_set().remove(item));
        } else {
            assert(kept == kept_rest);
            assert(kept.to_set() =~= s.to_set().remove(item));
        }
    }
}

/// Taking the items equal to `item` out of a sequence with one more item at
/// its end: the last item stays exactly when it differs from `item`.
proof fn lemma_filter_differs_push<T>(s: Seq<T>, last: T, item: T)
    ensures
        s.push(last).filter(differs_from(item)) == if last != item {
            s.filter(differs_from(item)).push(last)
        } else {
            s.filter(differs_from(item))
        },
{
    reveal(Seq::filter);
    assert(s.push(last).drop_last() == s);
}

/// A set whose elements lie in an array in the order of their first
/// insertion.
#[derive(Debug)]
pub struct SimpleArray<T> {
    arr: Vec<T>,
}

impl<T> SimpleArray<T> {
    /// The elements in the order in which they were inserted.
    pub closed spec fn items(&self) -> Seq<T> {
        self.arr@
    }
}

impl<T: PartialEq> SimpleArray<T> {
    /// An empty set.
    pub fn new() -> (set: Self)
        ensures
            set.wf(),
            set@ == Set::<T>::empty(),
            set.items() == Seq::<T>::empty(),
    {
        let set = SimpleArray { arr: Vec::new() };
        assert(set@ =~= Set::<T>::empty());
        set
    }

    /// The elements of a well-formed set can be counted in a `usize`.
    pub proof fn lemma_len_fits(&self)
        requires
            self.wf(),
        ensures
            self@.len() <= usize::MAX,
    {
        self.arr@.unique_seq_to_set();
        assert(self.arr.len() == self.arr@.len());
    }
}

impl<T: PartialEq> Default for SimpleArray<T> {
    fn default() -> (set: Self)
        ensures
            set.wf(),
            set@ == Set::<T>::empty(),
            set.items() == Seq::<T>::empty(),
    {
        SimpleArray::new()
    }
}

impl<T: PartialEq> ElementSet<T> for SimpleArray<T> {
    open spec fn view(&self) -> Set<T> {
        self.items().to_set()
    }

    open spec fn wf(&self) -> bool {
        self.items().no_duplicates()
    }

    open spec fn element_laws() -> bool {
        exact_equality::<T>()
    }

    proof fn lemma_finite(&self) {
        vstd::seq_lib::seq_to_set_is_finite(self.items());
    }

    fn contains(&self, item: &T) -> (found: bool) {
        let mut i: usize = 0;
        while i < self.arr.len()
            invariant
                i <= self.arr.len(),
                exact_equality::<T>(),
                forall|j: int| 0 <= j < i ==> self.arr@[j] != *item,
            decreases self.arr.len() - i,
        {
            if self.arr[i] == *item {
                return true;
            }
            i += 1;
        }
        false
    }

    fn len(&self) -> (n: usize) {
        proof {
            self.arr@.unique_seq_to_set();
        }
        self.arr.len()
    }

    fn insert(&mut self, item: T)
        ensures
            final(self).items() == if old(self)@.contains(item) {
                old(self).items()
            } else {
                old(self).items().push(item)
            },
    {
        if !self.contains(&item) {
            proof {
                self.arr@.lemma_push_to_set_commute(item);
            }
            self.arr.push(item);
        } else {
            assert(self@.insert(item) =~= self@);
        }
    }
}

impl<T: PartialEq> RemovableSet<T> for SimpleArray<T> {
    fn remove(&mut self, item: &T)
        ensures
            final(self).items() == old(self).items().filter(differs_from(*item)),
    {
        let ghost before = self.arr@;
        let ghost mut done: int = 0;
        let mut i: usize = 0;
        proof {
            reveal(Seq::filter);
            assert(before.take(0) =~= Seq::<T>::empty());
            assert(before.take(0).filter(differs_from(*item)) + before.skip(0) =~= before);
        }
        while i < self.arr.len()
            invariant
                exact_equality::<T>(),
                0 <= done <= before.len(),
                i == before.take(done).filter(differs_from(*item)).len(),
                self.arr@ == before.take(done).filter(differs_from(*item)) + before.skip(done),
            decreases before.len() - done,
        {
            proof {
                assert(before.take(done + 1) =~= before.take(done).push(before[done]));
                lemma_filter_differs_push(before.take(done), before[done], *item);
                assert(self.arr@[i as int] == before.skip(done)[0]);
            }
            if self.arr[i] == *item {
                self.arr.remove(i);
                proof {
                    assert(self.arr@ =~= before.take(done + 1).filter(differs_from(*item))
                        + before.skip(done + 1));
                }
            } else {
                proof {
                    assert(self.arr@ =~= before.take(done + 1).filter(differs_from(*item))
                        + before.skip(done + 1));
                }
                i += 1;
            }
            proof {
                done = done + 1;
            }
        }
        proof {
            assert(before.take(done) =~= before);
            assert(self.arr@ =~= before.filter(differs_from(*item)));
            lemma_filter_differs(before, *item);
        }
    }
}

} // verus!
