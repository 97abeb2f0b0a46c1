//! Sorting a vector by one key, then by a comparator among equal keys.
use vstd::prelude::*;
use core::cmp::Ordering;
use crate::sort::key::{SortKey, KeyFn, key_fn_valid, key_int};
use crate::sort::order::{le_fn_is, is_total_le, key_then_le};
use crate::sort::bin_layout::BIN_SORT_MIN;
use crate::sort::compare::{compare_fn_valid, compare_le, compare_le_exec, sorted_by_one_key_then, lemma_compare_le_total};
use crate::sort::serial::one_key_then::sort_vec_by_key_then;
use crate::sort::parallel::cpu_count::CPUCount;
use crate::sort::parallel::slice_one_key_cmp::par_sort_by_one_key_then_by;

verus! {

/// Sorting by one key, then by a comparator.
pub trait OneKeyAndCmpSort<T>: View<V = Seq<T>> + Sized {
    /// Sorts by `key`, and by `compare` among equal keys. With `parallel`, the
    /// sort is spread over the workers of rayon's pool.
    fn sort_by_one_key_then_by<K, F1, F2>(&mut self, parallel: bool, key: F1, compare: F2)
        where
            K: SortKey + Send + Sync,
            F1: KeyFn<T, K> + Send + Sync,
            F2: Fn(&T, &T) -> Ordering + Copy + Send + Sync,
        requires
            key_fn_valid(key),
            compare_fn_valid(compare),
        ensures
            final(self)@.to_multiset() == old(self)@.to_multiset(),
            sorted_by_one_key_then(final(self)@, key, compare),
    ;

    /// Sorts by `key`, and by `compare` among equal keys, using `buffer` as
    /// room: a serial sort of a long input leaves `buffer` as long as `self`;
    /// a parallel sort, or a serial one of a short input, leaves it as it was.
    fn sort_by_one_key_then_by_and_buffer<K, F1, F2>(&mut self, parallel: bool, buffer: &mut Vec<T>, key: F1, compare: F2)
        where
            K: SortKey + Send + Sync,
            F1: KeyFn<T, K> + Send + Sync,
            F2: Fn(&T, &T) -> Ordering + Copy + Send + Sync,
        requires
            key_fn_valid(key),
            compare_fn_valid(compare),
        ensures
            final(self)@.to_multiset() == old(self)@.to_multiset(),
            sorted_by_one_key_then(final(self)@, key, compare),
            parallel ==> final(buffer)@ == old(buffer)@,
            !parallel ==> final(buffer)@.len() == if old(self)@.len() < BIN_SORT_MIN { old(buffer)@.len() } else { old(self)@.len() },
            !parallel && old(self)@.len() < BIN_SORT_MIN ==> final(buffer)@ == old(buffer)@,
    ;
}

/// Sorts `v` by `key`, then by `compare`, with `buffer` as room.
pub fn sort_vec_by_one_key_then_by<T: Copy, K: SortKey, F1: KeyFn<T, K>, F2: Fn(&T, &T) -> Ordering + Copy>(
    v: &mut Vec<T>,
    buffer: &mut Vec<T>,
    key: F1,
    compare: F2,
)
    requires
        key_fn_valid(key),
        compare_fn_valid(compare),
    ensures
        final(v)@.to_multiset() == old(v)@.to_multiset(),
        sorted_by_one_key_then(final(v)@, key, compare),
        final(buffer)@.len() == if old(v)@.len() < BIN_SORT_MIN { old(buffer)@.len() } else { old(v)@.len() },
        old(v)@.len() < BIN_SORT_MIN ==> final(buffer)@ == old(buffer)@,
{
    let tie = move |a: &T, b: &T| -> (r: bool)
        requires
            compare_fn_valid(compare),
        ensures
            r == compare_le(compare, *a, *b),
        { compare_le_exec(&compare, a, b) };
    let ghost order = |a: T, b: T| compare_le(compare, a, b);
    proof {
        lemma_compare_le_total(compare);
        assert(le_fn_is(tie, order));
    }
    sort_vec_by_key_then(v, buffer, key, tie, Ghost(order));
    proof {
        assert forall|i: int, j: int| 0 <= i < j < v@.len() implies {
            ||| #[trigger] key_int(key, v@[i]) < #[trigger] key_int(key, v@[j])
            ||| key_int(key, v@[i]) == key_int(key, v@[j]) && compare_le(compare, v@[i], v@[j])
        } by {
            assert(key_then_le(key, order, v@[i], v@[j]));
        }
    }
}

impl<T: Copy + Send + Sync> OneKeyAndCmpSort<T> for Vec<T> {
    fn sort_by_one_key_then_by<K, F1, F2>(&mut self, parallel: bool, key: F1, compare: F2)
        where
            K: SortKey + Send + Sync,
            F1: KeyFn<T, K> + Send + Sync,
            F2: Fn(&T, &T) -> Ordering + Copy + Send + Sync,
    {
        if parallel {
            par_sort_by_one_key_then_by(self, CPUCount::count(), key, compare);
        } else {
            let mut buffer: Vec<T> = Vec::new();
            sort_vec_by_one_key_then_by(self, &mut buffer, key, compare);
        }
    }

    fn sort_by_one_key_then_by_and_buffer<K, F1, F2>(&mut self, parallel: bool, buffer: &mut Vec<T>, key: F1, compare: F2)
        where
            K: SortKey + Send + Sync,
            F1: KeyFn<T, K> + Send + Sync,
            F2: Fn(&T, &T) -> Ordering + Copy + Send + Sync,
    {
        if parallel {
            par_sort_by_one_key_then_by(self, CPUCount::count(), key, compare);
        } else {
            sort_vec_by_one_key_then_by(self, buffer, key, compare);
        }
    }
}

} // verus!
