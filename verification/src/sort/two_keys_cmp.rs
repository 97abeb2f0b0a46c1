//! Sorting a vector by two keys, then by a comparator among elements equal in both.
use vstd::prelude::*;
use core::cmp::Ordering;
use crate::sort::key::{SortKey, KeyFn, key_fn_valid, key_int};
use crate::sort::order::{le_fn_is, is_total_le, two_keys_then_le};
use crate::sort::bin_layout::BIN_SORT_MIN;
use crate::sort::compare::{compare_fn_valid, compare_le, compare_le_exec, sorted_by_two_keys_then, lemma_compare_le_total};
use crate::sort::serial::two_keys_then::sort_vec_by_two_keys_then;
use crate::sort::parallel::cpu_count::CPUCount;
use crate::sort::parallel::slice_two_keys_cmp::par_sort_by_two_keys_then_by;

verus! {

/// Sorting by two keys, then by a comparator.
pub trait TwoKeysAndCmpSort<T>: View<V = Seq<T>> + Sized {
    /// Sorts by `key1`, then `key2`, then `compare`. With `parallel`, the
    /// sort is spread over the workers of rayon's pool.
    fn sort_by_two_keys_then_by<K1, K2, F1, F2, F3>(&mut self, parallel: bool, key1: F1, key2: F2, compare: F3)
        where
            K1: SortKey + Send + Sync,
            K2: SortKey + Send + Sync,
            F1: KeyFn<T, K1> + Send + Sync,
            F2: KeyFn<T, K2> + Send + Sync,
            F3: Fn(&T, &T) -> Ordering + Copy + Send + Sync,
        requires
            key_fn_valid(key1),
            key_fn_valid(key2),
            compare_fn_valid(compare),
        ensures
            final(self)@.to_multiset() == old(self)@.to_multiset(),
            sorted_by_two_keys_then(final(self)@, key1, key2, compare),
    ;

    /// Sorts by `key1`, then `key2`, then `compare`, using `buffer` as room:
    /// a serial sort of a long input leaves `buffer` as long as `self`; a
    /// parallel sort, or a serial one of a short input, leaves it as it was.
    fn sort_by_two_keys_then_by_and_buffer<K1, K2, F1, F2, F3>(
        &mut self,
        parallel: bool,
        buffer: &mut Vec<T>,
        key1: F1,
        key2: F2,
        compare: F3,
    )
        where
            K1: SortKey + Send + Sync,
            K2: SortKey + Send + Sync,
            F1: KeyFn<T, K1> + Send + Sync,
            F2: KeyFn<T, K2> + Send + Sync,
            F3: Fn(&T, &T) -> Ordering + Copy + Send + Sync,
        requires
            key_fn_valid(key1),
            key_fn_valid(key2),
            compare_fn_valid(compare),
        ensures
            final(self)@.to_multiset() == old(self)@.to_multiset(),
            sorted_by_two_keys_then(final(self)@, key1, key2, compare),
            parallel ==> final(buffer)@ == old(buffer)@,
            !parallel ==> final(buffer)@.len() == if old(self)@.len() < BIN_SORT_MIN { old(buffer)@.len() } else { old(self)@.len() },
            !parallel && old(self)@.len() < BIN_SORT_MIN ==> final(buffer)@ == old(buffer)@,
    ;
}

/// Sorts `v` by `key1`, then `key2`, then `compare`, with `buffer` as room.
pub fn sort_vec_by_two_keys_then_by<T: Copy, K1: SortKey, K2: SortKey, F1: KeyFn<T, K1>, F2: KeyFn<T, K2>, F3: Fn(&T, &T) -> Ordering + Copy>(
    v: &mut Vec<T>,
    buffer: &mut Vec<T>,
    key1: F1,
    key2: F2,
    compare: F3,
)
    requires
        key_fn_valid(key1),
        key_fn_valid(key2),
        compare_fn_valid(compare),
    ensures
        final(v)@.to_multiset() == old(v)@.to_multiset(),
        sorted_by_two_keys_then(final(v)@, key1, key2, compare),
        final(buffer)@.len() == if old(v)@.len() < BIN_SORT_MIN { old(buffer)@.len() } else { old(v)@.len() },
        old(v)@.len() < BIN_SORT_MIN ==> final(buffer)@ == old(buffer)@,
{
    let tie = move |a: &T, b: &T| -> (r: bool)
        requires
            compare_fn_valid(compare),
        ensures
            r == compare_le(compare, *a, *b),
        { compare_le_exec(&compare, a, b) };
    let ghost order = |a: T, b: T| compare_le(compare, a, b);
    proof {
        lemma_compare_le_total(compare);
        assert(le_fn_is(tie, order));
    }
    sort_vec_by_two_keys_then(v, buffer, key1, key2, tie, Ghost(order));
    proof {
        assert forall|i: int, j: int| 0 <= i < j < v@.len() implies {
            ||| #[trigger] key_int(key1, v@[i]) < #[trigger] key_int(key1, v@[j])
            ||| key_int(key1, v@[i]) == key_int(key1, v@[j]) && key_int(key2, v@[i]) < key_int(key2, v@[j])
            ||| key_int(key1, v@[i]) == key_int(key1, v@[j]) && key_int(key2, v@[i]) == key_int(key2, v@[j])
                && compare_le(compare, v@[i], v@[j])
        } by {
            assert(two_keys_then_le(key1, key2, order, v@[i], v@[j]));
        }
    }
}

impl<T: Copy + Send + Sync> TwoKeysAndCmpSort<T> for Vec<T> {
    fn sort_by_two_keys_then_by<K1, K2, F1, F2, F3>(&mut self, parallel: bool, key1: F1, key2: F2, compare: F3)
        where
            K1: SortKey + Send + Sync,
            K2: SortKey + Send + Sync,
            F1: KeyFn<T, K1> + Send + Sync,
            F2: KeyFn<T, K2> + Send + Sync,
            F3: Fn(&T, &T) -> Ordering + Copy + Send + Sync,
    {
        if parallel {
            par_sort_by_two_keys_then_by(self, CPUCount::count(), key1, key2, compare);
        } else {
            let mut buffer: Vec<T> = Vec::new();
            sort_vec_by_two_keys_then_by(self, &mut buffer, key1, key2, compare);
        }
    }

    fn sort_by_two_keys_then_by_and_buffer<K1, K2, F1, F2, F3>(
        &mut self,
        parallel: bool,
        buffer: &mut Vec<T>,
        key1: F1,
        key2: F2,
        compare: F3,
    )
        where
            K1: SortKey + Send + Sync,
            K2: SortKey + Send + Sync,
            F1: KeyFn<T, K1> + Send + Sync,
            F2: KeyFn<T, K2> + Send + Sync,
            F3: Fn(&T, &T) -> Ordering + Copy + Send + Sync,
    {
        if parallel {
            par_sort_by_two_keys_then_by(self, CPUCount::count(), key1, key2, compare);
        } else {
            sort_vec_by_two_keys_then_by(self, buffer, key1, key2, compare);
        }
    }
}

} // verus!
