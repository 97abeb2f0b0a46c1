//! Sorting a vector by one key.
use vstd::prelude::*;
use crate::sort::key::{SortKey, KeyFn, key_fn_valid};
use crate::sort::order::sorted_by_one_key;
use crate::sort::bin_layout::BIN_SORT_MIN;
use crate::sort::serial::one_key::sort_vec_by_one_key;
use crate::sort::parallel::cpu_count::CPUCount;
use crate::sort::parallel::slice_one_key::par_sort_by_one_key;
use crate::sort::stable::same_key_order;

verus! {

/// Sorting by one key.
pub trait OneKeySort<T>: View<V = Seq<T>> + Sized {
    /// Sorts by `key`, ascending, keeping elements of equal keys in their
    /// order; with `parallel`, over the workers of rayon's pool.
    fn sort_by_one_key<K: SortKey + Send + Sync, F: KeyFn<T, K> + Send + Sync>(&mut self, parallel: bool, key: F)
        requires
            key_fn_valid(key),
        ensures
            final(self)@.to_multiset() == old(self)@.to_multiset(),
            sorted_by_one_key(final(self)@, key),
            same_key_order(key, old(self)@, final(self)@),
    ;

    /// Sorts by `key`, ascending, keeping elements of equal keys in their
    /// order, using `buffer` as room: a serial sort of a
    /// long input leaves `buffer` as long as `self`; a parallel sort, or a
    /// serial one of a short input, leaves it as it was.
    fn sort_by_one_key_and_buffer<K: SortKey + Send + Sync, F: KeyFn<T, K> + Send + Sync>(
        &mut self,
        parallel: bool,
        buffer: &mut Vec<T>,
        key: F,
    )
        requires
            key_fn_valid(key),
        ensures
            final(self)@.to_multiset() == old(self)@.to_multiset(),
            sorted_by_one_key(final(self)@, key),
            same_key_order(key, old(self)@, final(self)@),
            parallel ==> final(buffer)@ == old(buffer)@,
            !parallel ==> final(buffer)@.len() == if old(self)@.len() < BIN_SORT_MIN { old(buffer)@.len() } else { old(self)@.len() },
            !parallel && old(self)@.len() < BIN_SORT_MIN ==> final(buffer)@ == old(buffer)@,
    ;
}

impl<T: Copy + Send + Sync> OneKeySort<T> for Vec<T> {
    fn sort_by_one_key<K: SortKey + Send + Sync, F: KeyFn<T, K> + Send + Sync>(&mut self, parallel: bool, key: F) {
        if parallel {
            par_sort_by_one_key(self, CPUCount::count(), key);
        } else {
            let mut buffer: Vec<T> = Vec::new();
            sort_vec_by_one_key(self, &mut buffer, key);
        }
    }

    fn sort_by_one_key_and_buffer<K: SortKey + Send + Sync, F: KeyFn<T, K> + Send + Sync>(
        &mut self,
        parallel: bool,
        buffer: &mut Vec<T>,
        key: F,
    ) {
        if parallel {
            par_sort_by_one_key(self, CPUCount::count(), key);
        } else {
            sort_vec_by_one_key(self, buffer, key);
        }
    }
}

} // verus!
