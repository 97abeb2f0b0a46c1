//! The smallest and the largest key of a vector, found by rayon's parallel
//! reduction.
use vstd::prelude::*;
use rayon::iter::IntoParallelRefIterator;
use rayon::iter::ParallelIterator;
use crate::sort::key::{SortKey, KeyFn, key_fn_valid, key_int, key_of};
use crate::sort::bin_layout::{is_min_key, is_max_key};

verus! {

/// The key of `t`, as the smallest and the largest key of a part holding `t` alone.
pub fn key_pair<T, K: SortKey, F: KeyFn<T, K>>(key: F, t: &T) -> (r: (K, K))
    requires
        key_fn_valid(key),
    ensures
        r.0.key_value() == key_int(key, *t),
        r.1.key_value() == key_int(key, *t),
{
    let k = key_of(key, t);
    (k, k)
}

/// Joins the smallest and largest keys of two parts.
pub fn min_max_join<K: SortKey>(a: (K, K), b: (K, K)) -> (r: (K, K))
    ensures
        r.0.key_value() == if b.0.key_value() < a.0.key_value() { b.0.key_value() } else { a.0.key_value() },
        r.1.key_value() == if a.1.key_value() < b.1.key_value() { b.1.key_value() } else { a.1.key_value() },
{
    let low = if b.0.key_lt(a.0) { b.0 } else { a.0 };
    let high = if a.1.key_lt(b.1) { b.1 } else { a.1 };
    (low, high)
}

/// The smallest and the largest key of `array`, as `key` computes them.
/// rayon's `par_iter().map(..).reduce(..)` applies `key_pair` to every
/// element and joins the results with `min_max_join`, an associative
/// operation; the starting value, the pair of the first key, is itself one
/// of the keys, so it changes neither bound. The contract claims that the
/// result is the smallest and the largest key of `array`.
#[verifier::external_body]
pub(crate) fn par_min_max<T: Sync, K: SortKey + Send + Sync, F: KeyFn<T, K> + Send + Sync>(array: &Vec<T>, key: F) -> (r: (K, K))
    requires
        array@.len() >= 1,
        key_fn_valid(key),
    ensures
        is_min_key(key, array@, r.0.key_value()),
        is_max_key(key, array@, r.1.key_value()),
{
    array.par_iter().map(|t| key_pair(key, t)).reduce(|| key_pair(key, &array[0]), |a, b| min_max_join(a, b))
}

} // verus!
