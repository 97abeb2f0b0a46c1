//! Comparators: functions that answer `Less`, `Equal` or `Greater` for two
//! elements.
use vstd::prelude::*;
use core::cmp::Ordering;
use crate::sort::key::{SortKey, key_int};
use crate::sort::order::{is_total_le, le_fn_is};

verus! {

/// `ord` orders elements totally, ties allowed: swapping the arguments swaps
/// `Less` and `Greater`, and "not `Greater`" is transitive.
pub open spec fn is_total_preorder<T>(ord: spec_fn(T, T) -> Ordering) -> bool {
    &&& forall|a: T, b: T| (#[trigger] ord(a, b) == Ordering::Less) == (ord(b, a) == Ordering::Greater)
    &&& forall|a: T, b: T, c: T|
        #[trigger] ord(a, b) != Ordering::Greater && #[trigger] ord(b, c) != Ordering::Greater ==> ord(a, c) != Ordering::Greater
}

/// `compare` can be called on any two elements and answers `ord`.
pub open spec fn compare_fn_is<T, C: Fn(&T, &T) -> Ordering>(compare: C, ord: spec_fn(T, T) -> Ordering) -> bool {
    &&& forall|a: T, b: T| #[trigger] compare.requires((&a, &b))
    &&& forall|a: T, b: T, r: Ordering| #[trigger] compare.ensures((&a, &b), r) ==> r == ord(a, b)
}

/// `compare` is a usable comparator: callable everywhere, deterministic, and a
/// total order with ties.
pub open spec fn compare_fn_valid<T, C: Fn(&T, &T) -> Ordering>(compare: C) -> bool {
    exists|ord: spec_fn(T, T) -> Ordering| is_total_preorder(ord) && compare_fn_is(compare, ord)
}

/// The order that a valid `compare` computes.
pub open spec fn compare_order<T, C: Fn(&T, &T) -> Ordering>(compare: C) -> spec_fn(T, T) -> Ordering {
    choose|ord: spec_fn(T, T) -> Ordering| is_total_preorder(ord) && compare_fn_is(compare, ord)
}

/// `a` may come before `b` under `compare`: it is not `Greater`.
pub open spec fn compare_le<T, C: Fn(&T, &T) -> Ordering>(compare: C, a: T, b: T) -> bool {
    (compare_order(compare))(a, b) != Ordering::Greater
}

/// Ascending by `key`, and by `compare` among equal keys.
pub open spec fn sorted_by_one_key_then<T, K: SortKey, F: Fn(&T) -> K, C: Fn(&T, &T) -> Ordering>(s: Seq<T>, key: F, compare: C) -> bool {
    forall|i: int, j: int|
        0 <= i < j < s.len() ==> {
            ||| #[trigger] key_int(key, s[i]) < #[trigger] key_int(key, s[j])
            ||| key_int(key, s[i]) == key_int(key, s[j]) && compare_le(compare, s[i], s[j])
        }
}

/// Ascending by `key1`, then `key2`, then `compare`.
pub open spec fn sorted_by_two_keys_then<T, K1: SortKey, K2: SortKey, F1: Fn(&T) -> K1, F2: Fn(&T) -> K2, C: Fn(&T, &T) -> Ordering>(
    s: Seq<T>,
    key1: F1,
    key2: F2,
    compare: C,
) -> bool {
    forall|i: int, j: int|
        0 <= i < j < s.len() ==> {
            ||| #[trigger] key_int(key1, s[i]) < #[trigger] key_int(key1, s[j])
            ||| key_int(key1, s[i]) == key_int(key1, s[j]) && key_int(key2, s[i]) < key_int(key2, s[j])
            ||| key_int(key1, s[i]) == key_int(key1, s[j]) && key_int(key2, s[i]) == key_int(key2, s[j])
                && compare_le(compare, s[i], s[j])
        }
}

/// "Not `Greater`" under a valid comparator is a total preorder.
pub proof fn lemma_compare_le_total<T, C: Fn(&T, &T) -> Ordering>(compare: C)
    requires
        compare_fn_valid(compare),
    ensures
        is_total_le(|a: T, b: T| compare_le(compare, a, b)),
{
    let ord = compare_order(compare);
    assert forall|a: T, b: T| #[trigger] compare_le(compare, a, b) || compare_le(compare, b, a) by {
        if ord(a, b) == Ordering::Greater {
            assert(ord(b, a) == Ordering::Less);
        }
    }
}

/// Whether `a` may come before `b` under `compare`.
pub fn compare_le_exec<T, C: Fn(&T, &T) -> Ordering>(compare: &C, a: &T, b: &T) -> (r: bool)
    requires
        compare_fn_valid(*compare),
    ensures
        r == compare_le(*compare, *a, *b),
{
    let r = compare(a, b);
    match r {
        Ordering::Greater => false,
        _ => true,
    }
}

} // verus!
