//! Sorting a vector by two keys.
use vstd::prelude::*;
use crate::sort::key::{SortKey, KeyFn, key_fn_valid};
use crate::sort::order::sorted_by_two_keys;
use crate::sort::bin_layout::BIN_SORT_MIN;
use crate::sort::serial::two_keys::sort_vec_by_two_keys;
use crate::sort::parallel::cpu_count::CPUCount;
use crate::sort::parallel::slice_two_keys::par_sort_by_two_keys;
use crate::sort::stable::same_keys_order;

verus! {

/// Sorting by two keys.
pub trait TwoKeysSort<T>: View<V = Seq<T>> + Sized {
    /// Sorts by `key1`, and by `key2` among equal `key1`, keeping elements of
    /// equal keys in their order; with `parallel`, over the workers of
    /// rayon's pool.
    fn sort_by_two_keys<K1, K2, F1, F2>(&mut self, parallel: bool, key1: F1, key2: F2)
        where
            K1: SortKey + Send + Sync,
            K2: SortKey + Send + Sync,
            F1: KeyFn<T, K1> + Send + Sync,
            F2: KeyFn<T, K2> + Send + Sync,
        requires
            key_fn_valid(key1),
            key_fn_valid(key2),
        ensures
            final(self)@.to_multiset() == old(self)@.to_multiset(),
            sorted_by_two_keys(final(self)@, key1, key2),
            same_keys_order(key1, key2, old(self)@, final(self)@),
    ;

    /// Sorts by `key1`, and by `key2` among equal `key1`, keeping elements of
    /// equal keys in their order, using `buffer` as room: a serial sort of a long input leaves `buffer` as long as `self`;
    /// a parallel sort, or a serial one of a short input, leaves it as it was.
    fn sort_by_two_keys_and_buffer<K1, K2, F1, F2>(&mut self, parallel: bool, buffer: &mut Vec<T>, key1: F1, key2: F2)
        where
            K1: SortKey + Send + Sync,
            K2: SortKey + Send + Sync,
            F1: KeyFn<T, K1> + Send + Sync,
            F2: KeyFn<T, K2> + Send + Sync,
        requires
            key_fn_valid(key1),
            key_fn_valid(key2),
        ensures
            final(self)@.to_multiset() == old(self)@.to_multiset(),
            sorted_by_two_keys(final(self)@, key1, key2),
            same_keys_order(key1, key2, old(self)@, final(self)@),
            parallel ==> final(buffer)@ == old(buffer)@,
            !parallel ==> final(buffer)@.len() == if old(self)@.len() < BIN_SORT_MIN { old(buffer)@.len() } else { old(self)@.len() },
            !parallel && old(self)@.len() < BIN_SORT_MIN ==> final(buffer)@ == old(buffer)@,
    ;
}

impl<T: Copy + Send + Sync> TwoKeysSort<T> for Vec<T> {
    fn sort_by_two_keys<K1, K2, F1, F2>(&mut self, parallel: bool, key1: F1, key2: F2)
        where
            K1: SortKey + Send + Sync,
            K2: SortKey + Send + Sync,
            F1: KeyFn<T, K1> + Send + Sync,
            F2: KeyFn<T, K2> + Send + Sync,
    {
        if parallel {
            par_sort_by_two_keys(self, CPUCount::count(), key1, key2);
        } else {
            let mut buffer: Vec<T> = Vec::new();
            sort_vec_by_two_keys(self, &mut buffer, key1, key2);
        }
    }

    fn sort_by_two_keys_and_buffer<K1, K2, F1, F2>(&mut self, parallel: bool, buffer: &mut Vec<T>, key1: F1, key2: F2)
        where
            K1: SortKey + Send + Sync,
            K2: SortKey + Send + Sync,
            F1: KeyFn<T, K1> + Send + Sync,
            F2: KeyFn<T, K2> + Send + Sync,
    {
        if parallel {
            par_sort_by_two_keys(self, CPUCount::count(), key1, key2);
        } else {
            sort_vec_by_two_keys(self, buffer, key1, key2);
        }
    }
}

} // verus!
