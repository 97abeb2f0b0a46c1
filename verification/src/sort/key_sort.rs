//! All key sorts under one trait.
use vstd::prelude::*;
use core::cmp::Ordering;
use crate::sort::key::{SortKey, KeyFn, key_fn_valid};
use crate::sort::order::{sorted_by_one_key, sorted_by_two_keys};
use crate::sort::compare::{compare_fn_valid, sorted_by_one_key_then, sorted_by_two_keys_then};
use crate::sort::serial::one_key::sort_vec_by_one_key;
use crate::sort::serial::two_keys::sort_vec_by_two_keys;
use crate::sort::one_key_cmp::sort_vec_by_one_key_then_by;
use crate::sort::two_keys_cmp::sort_vec_by_two_keys_then_by;
use crate::sort::parallel::cpu_count::CPUCount;
use crate::sort::parallel::slice_one_key::par_sort_by_one_key;
use crate::sort::parallel::slice_two_keys::par_sort_by_two_keys;
use crate::sort::parallel::slice_one_key_cmp::par_sort_by_one_key_then_by;
use crate::sort::parallel::slice_two_keys_cmp::par_sort_by_two_keys_then_by;
use crate::sort::stable::{same_key_order, same_keys_order};

verus! {

/// Sorting by one or two keys, with or without a comparator for ties. Each
/// sort with `parallel` is spread over the workers of rayon's pool.
pub trait KeySort<T>: View<V = Seq<T>> + Sized {
    /// Sorts by `key`, ascending, keeping elements of equal keys in their order.
    fn sort_by_one_key<K: SortKey + Send + Sync, F: KeyFn<T, K> + Send + Sync>(&mut self, parallel: bool, key: F)
        requires
            key_fn_valid(key),
        ensures
            final(self)@.to_multiset() == old(self)@.to_multiset(),
            sorted_by_one_key(final(self)@, key),
            same_key_order(key, old(self)@, final(self)@),
    ;

    /// Sorts by `key1`, and by `key2` among equal `key1`, keeping elements of
    /// equal keys in their order.
    fn sort_by_two_keys<K1, K2, F1, F2>(&mut self, parallel: bool, key1: F1, key2: F2)
        where
            K1: SortKey + Send + Sync,
            K2: SortKey + Send + Sync,
            F1: KeyFn<T, K1> + Send + Sync,
            F2: KeyFn<T, K2> + Send + Sync,
        requires
            key_fn_valid(key1),
            key_fn_valid(key2),
        ensures
            final(self)@.to_multiset() == old(self)@.to_multiset(),
            sorted_by_two_keys(final(self)@, key1, key2),
            same_keys_order(key1, key2, old(self)@, final(self)@),
    ;

    /// Sorts by `key`, and by `compare` among equal keys.
    fn sort_by_one_key_then_by<K, F1, F2>(&mut self, parallel: bool, key: F1, compare: F2)
        where
            K: SortKey + Send + Sync,
            F1: KeyFn<T, K> + Send + Sync,
            F2: Fn(&T, &T) -> Ordering + Copy + Send + Sync,
        requires
            key_fn_valid(key),
            compare_fn_valid(compare),
        ensures
            final(self)@.to_multiset() == old(self)@.to_multiset(),
            sorted_by_one_key_then(final(self)@, key, compare),
    ;

    /// Sorts by `key1`, then `key2`, then `compare`.
    fn sort_by_two_keys_then_by<K1, K2, F1, F2, F3>(&mut self, parallel: bool, key1: F1, key2: F2, compare: F3)
        where
            K1: SortKey + Send + Sync,
            K2: SortKey + Send + Sync,
            F1: KeyFn<T, K1> + Send + Sync,
            F2: KeyFn<T, K2> + Send + Sync,
            F3: Fn(&T, &T) -> Ordering + Copy + Send + Sync,
        requires
            key_fn_valid(key1),
            key_fn_valid(key2),
            compare_fn_valid(compare),
        ensures
            final(self)@.to_multiset() == old(self)@.to_multiset(),
            sorted_by_two_keys_then(final(self)@, key1, key2, compare),
    ;
}

impl<T: Copy + Send + Sync> KeySort<T> for Vec<T> {
    fn sort_by_one_key<K: SortKey + Send + Sync, F: KeyFn<T, K> + Send + Sync>(&mut self, parallel: bool, key: F) {
        if parallel {
            par_sort_by_one_key(self, CPUCount::count(), key);
        } else {
            let mut buffer: Vec<T> = Vec::new();
            sort_vec_by_one_key(self, &mut buffer, key);
        }
    }

    fn sort_by_two_keys<K1, K2, F1, F2>(&mut self, parallel: bool, key1: F1, key2: F2)
        where
            K1: SortKey + Send + Sync,
            K2: SortKey + Send + Sync,
            F1: KeyFn<T, K1> + Send + Sync,
            F2: KeyFn<T, K2> + Send + Sync,
    {
        if parallel {
            par_sort_by_two_keys(self, CPUCount::count(), key1, key2);
        } else {
            let mut buffer: Vec<T> = Vec::new();
            sort_vec_by_two_keys(self, &mut buffer, key1, key2);
        }
    }

    fn sort_by_one_key_then_by<K, F1, F2>(&mut self, parallel: bool, key: F1, compare: F2)
        where
            K: SortKey + Send + Sync,
            F1: KeyFn<T, K> + Send + Sync,
            F2: Fn(&T, &T) -> Ordering + Copy + Send + Sync,
    {
        if parallel {
            par_sort_by_one_key_then_by(self, CPUCount::count(), key, compare);
        } else {
            let mut buffer: Vec<T> = Vec::new();
            sort_vec_by_one_key_then_by(self, &mut buffer, key, compare);
        }
    }

    fn sort_by_two_keys_then_by<K1, K2, F1, F2, F3>(&mut self, parallel: bool, key1: F1, key2: F2, compare: F3)
        where
            K1: SortKey + Send + Sync,
            K2: SortKey + Send + Sync,
            F1: KeyFn<T, K1> + Send + Sync,
            F2: KeyFn<T, K2> + Send + Sync,
            F3: Fn(&T, &T) -> Ordering + Copy + Send + Sync,
    {
        if parallel {
            par_sort_by_two_keys_then_by(self, CPUCount::count(), key1, key2, compare);
        } else {
            let mut buffer: Vec<T> = Vec::new();
            sort_vec_by_two_keys_then_by(self, &mut buffer, key1, key2, compare);
        }
    }
}

} // verus!
