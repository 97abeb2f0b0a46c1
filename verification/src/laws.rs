//! What every sort of the library has in common: two sorts of the same
//! elements under the same order agree, whichever way each was done (serial
//! or parallel, with or without a reused buffer).
use vstd::prelude::*;
use crate::sort::key::{SortKey, key_int};
use core::cmp::Ordering;
use crate::sort::order::{is_total_le, sorted_by_one_key, sorted_by_two_keys, two_keys_le, key_then_le, two_keys_then_le};
use crate::sort::stable::{same_key_order, same_keys_order, lemma_same_keys_same_order_equal, lemma_same_two_keys_same_order_equal};
use crate::sort::compare::{compare_fn_valid, compare_order, compare_le, sorted_by_one_key_then, sorted_by_two_keys_then, lemma_compare_le_total};

verus! {

broadcast use vstd::seq_lib::group_to_multiset_ensures;

/// `s` is ascending under `le`.
pub open spec fn ascending<T>(le: spec_fn(T, T) -> bool, s: Seq<T>) -> bool {
    forall|i: int, j: int| 0 <= i < j < s.len() ==> #[trigger] le(s[i], s[j])
}

/// Two ascending orderings of the same elements under a total preorder have
/// the same length and hold, at each position, elements that the preorder
/// cannot tell apart.
pub proof fn lemma_sorted_permutations_equivalent<T>(le: spec_fn(T, T) -> bool, s1: Seq<T>, s2: Seq<T>)
    requires
        is_total_le(le),
        ascending(le, s1),
        ascending(le, s2),
        s1.to_multiset() == s2.to_multiset(),
    ensures
        s1.len() == s2.len(),
        forall|k: int| 0 <= k < s1.len() ==> le(#[trigger] s1[k], s2[k]) && le(s2[k], s1[k]),
    decreases s1.len(),
{
    assert(s1.to_multiset().len() == s1.len());
    assert(s2.to_multiset().len() == s2.len());
    if s1.len() > 0 {
        let a = s1[0];
        assert(s1.contains(a));
        assert(s2.to_multiset().count(a) > 0);
        let i = choose|i: int| 0 <= i < s2.len() && s2[i] == a;
        assert(s2.contains(s2[0]));
        assert(s1.to_multiset().count(s2[0]) > 0);
        let j = choose|j: int| 0 <= j < s1.len() && s1[j] == s2[0];
        // `a` and `s2[0]` cannot be told apart
        assert(le(a, a) || le(a, a));
        assert(le(s2[0], s2[0]) || le(s2[0], s2[0]));
        assert(le(a, s2[0])) by {
            if j > 0 {
                assert(le(s1[0], s1[j]));
            }
        }
        assert(le(s2[0], a)) by {
            if i > 0 {
                assert(le(s2[0], s2[i]));
            }
        }
        let t1 = s1.drop_first();
        let t2 = s2.remove(i);
        assert(t1.to_multiset() =~= s1.to_multiset().remove(a)) by {
            assert(s1 =~= seq![a] + t1);
            vstd::seq_lib::lemma_multiset_commutative(seq![a], t1);
        }
        assert(t2.to_multiset() =~= s2.to_multiset().remove(a));
        assert forall|p: int, q: int| 0 <= p < q < t2.len() implies #[trigger] le(t2[p], t2[q]) by {
            let p2 = if p < i { p } else { p + 1 };
            let q2 = if q < i { q } else { q + 1 };
            assert(le(s2[p2], s2[q2]));
        }
        assert forall|p: int, q: int| 0 <= p < q < t1.len() implies #[trigger] le(t1[p], t1[q]) by {
            assert(le(s1[p + 1], s1[q + 1]));
        }
        lemma_sorted_permutations_equivalent(le, t1, t2);
        assert forall|k: int| 0 <= k < s1.len() implies le(#[trigger] s1[k], s2[k]) && le(s2[k], s1[k]) by {
            if k == 0 {
            } else if k - 1 >= i {
                assert(t2[k - 1] == s2[k]);
                assert(t1[k - 1] == s1[k]);
            } else {
                // `s2[k - 1]` and `s2[k]` lie between `s2[0]` and `s2[i]`
                assert(t2[k - 1] == s2[k - 1]);
                assert(t1[k - 1] == s1[k]);
                assert(le(s2[k - 1], s2[k]));
                assert(le(s2[k], s2[i])) by {
                    if k < i {
                        assert(le(s2[k], s2[i]));
                    }
                }
                assert(le(s2[0], s2[k - 1])) by {
                    if k - 1 > 0 {
                        assert(le(s2[0], s2[k - 1]));
                    }
                }
                assert(le(s2[k], s2[0]));
                assert(le(s2[k], s2[k - 1]));
            }
        }
    }
}

/// Any two sorts of the same elements by one key list the same keys in the
/// same order.
pub proof fn lemma_one_key_sorts_agree<T, K: SortKey, F: Fn(&T) -> K>(key: F, s1: Seq<T>, s2: Seq<T>)
    requires
        sorted_by_one_key(s1, key),
        sorted_by_one_key(s2, key),
        s1.to_multiset() == s2.to_multiset(),
    ensures
        s1.len() == s2.len(),
        forall|k: int| 0 <= k < s1.len() ==> key_int(key, #[trigger] s1[k]) == key_int(key, s2[k]),
{
    let le = |a: T, b: T| key_int(key, a) <= key_int(key, b);
    lemma_sorted_permutations_equivalent(le, s1, s2);
    assert forall|k: int| 0 <= k < s1.len() implies key_int(key, #[trigger] s1[k]) == key_int(key, s2[k]) by {
        assert(le(s1[k], s2[k]) && le(s2[k], s1[k]));
    }
}

/// Any two sorts of the same elements by two keys list the same pairs of
/// keys in the same order.
pub proof fn lemma_two_keys_sorts_agree<T, K1: SortKey, K2: SortKey, F1: Fn(&T) -> K1, F2: Fn(&T) -> K2>(
    key1: F1,
    key2: F2,
    s1: Seq<T>,
    s2: Seq<T>,
)
    requires
        sorted_by_two_keys(s1, key1, key2),
        sorted_by_two_keys(s2, key1, key2),
        s1.to_multiset() == s2.to_multiset(),
    ensures
        s1.len() == s2.len(),
        forall|k: int| 0 <= k < s1.len() ==> key_int(key1, #[trigger] s1[k]) == key_int(key1, s2[k])
            && key_int(key2, s1[k]) == key_int(key2, s2[k]),
{
    let le = |a: T, b: T| two_keys_le(key1, key2, a, b);
    assert(is_total_le(le));
    assert(ascending(le, s1)) by {
        assert forall|i: int, j: int| 0 <= i < j < s1.len() implies #[trigger] le(s1[i], s1[j]) by {
            assert(two_keys_le(key1, key2, s1[i], s1[j]));
        }
    }
    assert(ascending(le, s2)) by {
        assert forall|i: int, j: int| 0 <= i < j < s2.len() implies #[trigger] le(s2[i], s2[j]) by {
            assert(two_keys_le(key1, key2, s2[i], s2[j]));
        }
    }
    lemma_sorted_permutations_equivalent(le, s1, s2);
    assert forall|k: int| 0 <= k < s1.len() implies key_int(key1, #[trigger] s1[k]) == key_int(key1, s2[k])
        && key_int(key2, s1[k]) == key_int(key2, s2[k]) by {
        assert(le(s1[k], s2[k]) && le(s2[k], s1[k]));
    }
}

/// `compare` answers `Equal` only for equal elements.
pub open spec fn compare_separates<T, C: Fn(&T, &T) -> Ordering>(compare: C) -> bool {
    forall|a: T, b: T| #[trigger] (compare_order(compare))(a, b) == Ordering::Equal ==> a == b
}

/// Elements that "not `Greater`" orders both ways compare `Equal`.
proof fn lemma_compare_le_both_ways<T, C: Fn(&T, &T) -> Ordering>(compare: C, a: T, b: T)
    requires
        compare_fn_valid(compare),
        compare_le(compare, a, b),
        compare_le(compare, b, a),
    ensures
        (compare_order(compare))(a, b) == Ordering::Equal,
{
    let ord = compare_order(compare);
    assert((ord(a, b) == Ordering::Less) == (ord(b, a) == Ordering::Greater));
}

/// Any two sorts of the same elements by a key and then `compare` list the
/// same keys in the same order, and `compare` finds the elements at each
/// place equal; when `compare` answers `Equal` only for equal elements, the
/// two sorts are the same sequence.
pub proof fn lemma_one_key_then_sorts_agree<T, K: SortKey, F: Fn(&T) -> K, C: Fn(&T, &T) -> Ordering>(
    key: F,
    compare: C,
    s1: Seq<T>,
    s2: Seq<T>,
)
    requires
        compare_fn_valid(compare),
        sorted_by_one_key_then(s1, key, compare),
        sorted_by_one_key_then(s2, key, compare),
        s1.to_multiset() == s2.to_multiset(),
    ensures
        s1.len() == s2.len(),
        forall|k: int| 0 <= k < s1.len() ==> key_int(key, #[trigger] s1[k]) == key_int(key, s2[k])
            && (compare_order(compare))(s1[k], s2[k]) == Ordering::Equal,
        compare_separates(compare) ==> s1 == s2,
{
    let g = |a: T, b: T| compare_le(compare, a, b);
    lemma_compare_le_total(compare);
    let le = |a: T, b: T| key_then_le(key, g, a, b);
    assert(is_total_le(le));
    assert(ascending(le, s1)) by {
        assert forall|i: int, j: int| 0 <= i < j < s1.len() implies #[trigger] le(s1[i], s1[j]) by {
            assert(key_int(key, s1[i]) < key_int(key, s1[j])
                || key_int(key, s1[i]) == key_int(key, s1[j]) && compare_le(compare, s1[i], s1[j]));
        }
    }
    assert(ascending(le, s2)) by {
        assert forall|i: int, j: int| 0 <= i < j < s2.len() implies #[trigger] le(s2[i], s2[j]) by {
            assert(key_int(key, s2[i]) < key_int(key, s2[j])
                || key_int(key, s2[i]) == key_int(key, s2[j]) && compare_le(compare, s2[i], s2[j]));
        }
    }
    lemma_sorted_permutations_equivalent(le, s1, s2);
    assert forall|k: int| 0 <= k < s1.len() implies key_int(key, #[trigger] s1[k]) == key_int(key, s2[k])
        && (compare_order(compare))(s1[k], s2[k]) == Ordering::Equal by {
        assert(le(s1[k], s2[k]) && le(s2[k], s1[k]));
        lemma_compare_le_both_ways(compare, s1[k], s2[k]);
    }
    if compare_separates(compare) {
        assert forall|k: int| 0 <= k < s1.len() implies s1[k] == s2[k] by {
            assert((compare_order(compare))(s1[k], s2[k]) == Ordering::Equal);
        }
        assert(s1 =~= s2);
    }
}

/// Any two sorts of the same elements by two keys and then `compare` list
/// the same pairs of keys in the same order, and `compare` finds the elements
/// at each place equal; when `compare` answers `Equal` only for equal
/// elements, the two sorts are the same sequence.
pub proof fn lemma_two_keys_then_sorts_agree<
    T,
    K1: SortKey,
    K2: SortKey,
    F1: Fn(&T) -> K1,
    F2: Fn(&T) -> K2,
    C: Fn(&T, &T) -> Ordering,
>(key1: F1, key2: F2, compare: C, s1: Seq<T>, s2: Seq<T>)
    requires
        compare_fn_valid(compare),
        sorted_by_two_keys_then(s1, key1, key2, compare),
        sorted_by_two_keys_then(s2, key1, key2, compare),
        s1.to_multiset() == s2.to_multiset(),
    ensures
        s1.len() == s2.len(),
        forall|k: int| 0 <= k < s1.len() ==> key_int(key1, #[trigger] s1[k]) == key_int(key1, s2[k])
            && key_int(key2, s1[k]) == key_int(key2, s2[k])
            && (compare_order(compare))(s1[k], s2[k]) == Ordering::Equal,
        compare_separates(compare) ==> s1 == s2,
{
    let g = |a: T, b: T| compare_le(compare, a, b);
    lemma_compare_le_total(compare);
    let le = |a: T, b: T| two_keys_then_le(key1, key2, g, a, b);
    assert(is_total_le(le));
    assert(ascending(le, s1)) by {
        assert forall|i: int, j: int| 0 <= i < j < s1.len() implies #[trigger] le(s1[i], s1[j]) by {
            assert(sorted_by_two_keys_then(s1, key1, key2, compare));
            assert(key_int(key1, s1[i]) < key_int(key1, s1[j])
                || key_int(key1, s1[i]) == key_int(key1, s1[j]) && key_int(key2, s1[i]) < key_int(key2, s1[j])
                || key_int(key1, s1[i]) == key_int(key1, s1[j]) && key_int(key2, s1[i]) == key_int(key2, s1[j])
                    && compare_le(compare, s1[i], s1[j]));
        }
    }
    assert(ascending(le, s2)) by {
        assert forall|i: int, j: int| 0 <= i < j < s2.len() implies #[trigger] le(s2[i], s2[j]) by {
            assert(key_int(key1, s2[i]) < key_int(key1, s2[j])
                || key_int(key1, s2[i]) == key_int(key1, s2[j]) && key_int(key2, s2[i]) < key_int(key2, s2[j])
                || key_int(key1, s2[i]) == key_int(key1, s2[j]) && key_int(key2, s2[i]) == key_int(key2, s2[j])
                    && compare_le(compare, s2[i], s2[j]));
        }
    }
    lemma_sorted_permutations_equivalent(le, s1, s2);
    assert forall|k: int| 0 <= k < s1.len() implies key_int(key1, #[trigger] s1[k]) == key_int(key1, s2[k])
        && key_int(key2, s1[k]) == key_int(key2, s2[k])
        && (compare_order(compare))(s1[k], s2[k]) == Ordering::Equal by {
        assert(le(s1[k], s2[k]) && le(s2[k], s1[k]));
        lemma_compare_le_both_ways(compare, s1[k], s2[k]);
    }
    if compare_separates(compare) {
        assert forall|k: int| 0 <= k < s1.len() implies s1[k] == s2[k] by {
            assert((compare_order(compare))(s1[k], s2[k]) == Ordering::Equal);
        }
        assert(s1 =~= s2);
    }
}

/// A sort by one key has one possible result: any two sequences that hold
/// the elements of `s`, ascend by `key` and keep the elements of each key in
/// their order in `s` are equal. So sorting by one key gives the same vector
/// with or without `parallel`, and with any reused buffer.
pub proof fn lemma_one_key_sort_unique<T, K: SortKey, F: Fn(&T) -> K>(key: F, s: Seq<T>, t1: Seq<T>, t2: Seq<T>)
    requires
        t1.to_multiset() == s.to_multiset(),
        t2.to_multiset() == s.to_multiset(),
        sorted_by_one_key(t1, key),
        sorted_by_one_key(t2, key),
        same_key_order(key, s, t1),
        same_key_order(key, s, t2),
    ensures
        t1 == t2,
{
    lemma_one_key_sorts_agree(key, t1, t2);
    lemma_same_keys_same_order_equal(key, s, t1, t2);
}

/// A sort by two keys has one possible result: any two sequences that hold
/// the elements of `s`, ascend by the two keys and keep the elements of each
/// pair of keys in their order in `s` are equal. So sorting by two keys gives
/// the same vector with or without `parallel`, and with any reused buffer.
pub proof fn lemma_two_keys_sort_unique<T, K1: SortKey, K2: SortKey, F1: Fn(&T) -> K1, F2: Fn(&T) -> K2>(
    key1: F1,
    key2: F2,
    s: Seq<T>,
    t1: Seq<T>,
    t2: Seq<T>,
)
    requires
        t1.to_multiset() == s.to_multiset(),
        t2.to_multiset() == s.to_multiset(),
        sorted_by_two_keys(t1, key1, key2),
        sorted_by_two_keys(t2, key1, key2),
        same_keys_order(key1, key2, s, t1),
        same_keys_order(key1, key2, s, t2),
    ensures
        t1 == t2,
{
    lemma_two_keys_sorts_agree(key1, key2, t1, t2);
    lemma_same_two_keys_same_order_equal(key1, key2, s, t1, t2);
}

} // verus!
