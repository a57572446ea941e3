//! What the sets ask of the comparison operators of their element type, and
//! the sequences that ascend in the order of the elements.

use core::cmp::Ordering;
use vstd::prelude::*;
use vstd::std_specs::cmp::{PartialEqSpec, PartialOrdSpec};

verus! {

/// `==` on `T` is decided by spec equality: two values compare equal exactly
/// when they are the same value.
pub open spec fn exact_equality<T: PartialEq>() -> bool {
    &&& T::obeys_eq_spec()
    &&& forall|a: T, b: T| #[trigger] a.eq_spec(&b) <==> a == b
}

/// `a` comes before `b` in the order of `T`.
pub open spec fn less<T: PartialOrd>(a: T, b: T) -> bool {
    a.partial_cmp_spec(&b) == Some(Ordering::Less)
}

/// `<` and `>` on `T` form a strict total order that agrees with spec
/// equality: any two values are comparable, they compare equal exactly when
/// they are the same value, `>` is `<` with the sides exchanged, and `<` is
/// transitive.
pub open spec fn strict_total_order<T: PartialOrd>() -> bool {
    &&& T::obeys_partial_cmp_spec()
    &&& forall|a: T, b: T| (#[trigger] a.partial_cmp_spec(&b)) is Some
    &&& forall|a: T, b: T| #[trigger] a.partial_cmp_spec(&b) == Some(Ordering::Equal) <==> a == b
    &&& forall|a: T, b: T| #[trigger]
        a.partial_cmp_spec(&b) == Some(Ordering::Greater) <==> b.partial_cmp_spec(&a) == Some(
            Ordering::Less,
        )
    &&& forall|a: T, b: T, c: T| #[trigger]
        a.partial_cmp_spec(&b) == Some(Ordering::Less) && #[trigger] b.partial_cmp_spec(&c)
            == Some(Ordering::Less) ==> a.partial_cmp_spec(&c) == Some(Ordering::Less)
}

/// Each item of `s` comes before every later one.
pub open spec fn ascending<T: PartialOrd>(s: Seq<T>) -> bool {
    forall|i: int, j: int| 0 <= i < j < s.len() ==> less(#[trigger] s[i], #[trigger] s[j])
}

/// The 32-bit signed integers compare by value.
pub proof fn lemma_i32_exact_equality()
    ensures
        exact_equality::<i32>(),
{
}

/// The 32-bit signed integers are strictly and totally ordered by `<`.
pub proof fn lemma_i32_strict_total_order()
    ensures
        strict_total_order::<i32>(),
        forall|a: i32, b: i32| less(a, b) <==> a < b,
{
}

/// Two values neither of which comes before the other are the same value.
pub proof fn lemma_neither_less<T: PartialOrd>(a: T, b: T)
    requires
        strict_total_order::<T>(),
        !less(a, b),
        !less(b, a),
    ensures
        a == b,
{
    match a.partial_cmp_spec(&b) {
        Some(Ordering::Less) => {},
        Some(Ordering::Equal) => {},
        Some(Ordering::Greater) => {
            assert(b.partial_cmp_spec(&a) == Some(Ordering::Less));
        },
        None => {},
    }
}

/// An ascending sequence holds no item twice.
pub proof fn lemma_ascending_distinct<T: PartialOrd>(s: Seq<T>)
    requires
        strict_total_order::<T>(),
        ascending(s),
    ensures
        s.no_duplicates(),
{
    assert forall|i: int, j: int| 0 <= i < s.len() && 0 <= j < s.len() && i != j implies s[i]
        != s[j] by {
        if i < j {
            assert(less(s[i], s[j]));
        } else {
            assert(less(s[j], s[i]));
        }
    }
}

/// An item put into an ascending sequence behind the items before it and in
/// front of those after it leaves the sequence ascending and adds the item
/// to what the sequence holds.
pub proof fn lemma_ascending_insert<T: PartialOrd>(s: Seq<T>, at: int, item: T)
    requires
        strict_total_order::<T>(),
        ascending(s),
        0 <= at <= s.len(),
        forall|i: int| 0 <= i < at ==> less(#[trigger] s[i], item),
        forall|i: int| at <= i < s.len() ==> less(item, #[trigger] s[i]),
    ensures
        ascending(s.insert(at, item)),
        s.insert(at, item).to_set() == s.to_set().insert(item),
{
    let t = s.insert(at, item);
    assert forall|i: int, j: int| 0 <= i < j < t.len() implies less(
        #[trigger] t[i],
        #[trigger] t[j],
    ) by {
        if j < at {
            assert(t[i] == s[i] && t[j] == s[j]);
        } else if j == at {
            assert(t[i] == s[i]);
        } else if i < at {
            assert(t[i] == s[i] && t[j] == s[j - 1]);
        } else if i == at {
            assert(t[j] == s[j - 1]);
        } else {
            assert(t[i] == s[i - 1] && t[j] == s[j - 1]);
        }
    }
    assert forall|e: T| t.to_set().contains(e) <==> s.to_set().insert(item).contains(e) by {
        if t.to_set().contains(e) {
            let i = choose|i: int| 0 <= i < t.len() && t[i] == e;
            if i < at {
                assert(s[i] == e);
            } else if i > at {
                assert(s[i - 1] == e);
            }
        }
        if s.to_set().contains(e) {
            let i = choose|i: int| 0 <= i < s.len() && s[i] == e;
            if i < at {
                assert(t[i] == e);
            } else {
                assert(t[i + 1] == e);
            }
        }
        if e == item {
            assert(t[at] == e);
        }
    }
    assert(t.to_set() =~= s.to_set().insert(item));
}

/// An item taken out of an ascending sequence leaves the sequence ascending
/// and takes the item from what the sequence holds.
pub proof fn lemma_ascending_remove<T: PartialOrd>(s: Seq<T>, at: int)
    requires
        strict_total_order::<T>(),
        ascending(s),
        0 <= at < s.len(),
    ensures
        ascending(s.remove(at)),
        s.remove(at).to_set() == s.to_set().remove(s[at]),
{
    let t = s.remove(at);
    lemma_ascending_distinct(s);
    assert forall|i: int, j: int| 0 <= i < j < t.len() implies less(
        #[trigger] t[i],
        #[trigger] t[j],
    ) by {
        if j < at {
            assert(t[i] == s[i] && t[j] == s[j]);
        } else if i < at {
            assert(t[i] == s[i] && t[j] == s[j + 1]);
        } else {
            assert(t[i] == s[i + 1] && t[j] == s[j + 1]);
        }
    }
    assert forall|e: T| t.to_set().contains(e) <==> s.to_set().remove(s[at]).contains(e) by {
        if t.to_set().contains(e) {
            let i = choose|i: int| 0 <= i < t.len() && t[i] == e;
            if i < at {
                assert(s[i] == e);
            } else {
                assert(s[i + 1] == e);
            }
        }
        if s.to_set().contains(e) && e != s[at] {
            let i = choose|i: int| 0 <= i < s.len() && s[i] == e;
            if i < at {
                assert(t[i] == e);
            } else {
                assert(t[i - 1] == e);
            }
        }
    }
    assert(t.to_set() =~= s.to_set().remove(s[at]));
}

} // verus!
