//! Sorting by two keys on several workers.
use vstd::prelude::*;
use crate::sort::key::{SortKey, KeyFn, key_fn_valid, key_int};
use crate::sort::order::{ElemOrder, ByTwoKeys, sorted_by_two_keys, two_keys_le};
use crate::sort::spread::key_major;
use crate::sort::serial::two_keys::sort_vec_by_two_keys;
use crate::sort::parallel::cpu_count::CPUCount;
use crate::sort::parallel::fragmentation::fragment_by_marks;
use crate::sort::parallel::presort::par_pre_sort;
use crate::sort::parallel::part_sort::sort_parts;
use crate::sort::parallel::parts::lemma_keys_all_equal_permuted;
use crate::sort::parallel::slice_one_key::par_sort_by_one_key;
use crate::sort::parallel::presort::{presort_layout, bin_boundaries};
use crate::sort::bin_layout::{BinLayout, keys_all_equal};
use crate::sort::spread::bins_prefix;
use crate::sort::stable::{
    same_keys_order, lemma_bins_prefix_same_keys_order, lemma_same_keys_order_trans, lemma_permuted_one_key,
    lemma_one_first_key_same_keys_order,
};

verus! {

/// Sorts `v` by `key1`, then `key2`, spread over `cpu` workers: the presort
/// goes by `key1`; when all `key1` are equal, the sort by `key2` alone is left.
pub fn par_sort_by_two_keys<
    T: Copy + Send + Sync,
    K1: SortKey + Send + Sync,
    K2: SortKey + Send + Sync,
    F1: KeyFn<T, K1> + Send + Sync,
    F2: KeyFn<T, K2> + Send + Sync,
>(v: &mut Vec<T>, cpu: usize, key1: F1, key2: F2)
    requires
        key_fn_valid(key1),
        key_fn_valid(key2),
    ensures
        final(v)@.to_multiset() == old(v)@.to_multiset(),
        sorted_by_two_keys(final(v)@, key1, key2),
        same_keys_order(key1, key2, old(v)@, final(v)@),
{
    if v.len() == 0 {
        return;
    }
    let workers = match CPUCount::should_parallel(v.len(), cpu) {
        Some(count) => count,
        None => {
            sort_vec_by_two_keys(v, &mut Vec::new(), key1, key2);
            return;
        },
    };
    let ghost v0 = v@;
    match par_pre_sort(v, workers, key1) {
        Some(marks) => {
            let ghost v1 = v@;
            proof {
                let layout = choose|layout: BinLayout<K1>| {
                    &&& #[trigger] presort_layout(layout, key1, v0, workers as int)
                    &&& v1 == bins_prefix(layout, key1, v0, layout.bin_count())
                    &&& bin_boundaries(layout, key1, v1, marks@)
                };
                assert forall|i: int| 0 <= i < v0.len() implies #[trigger] layout.in_range(key_int(key1, v0[i])) by {
                    layout.lemma_in_range(key_int(key1, v0[i]));
                }
                lemma_bins_prefix_same_keys_order(layout, key1, key2, v0);
            }
            let frags = fragment_by_marks(v.len(), &marks);
            let o: ByTwoKeys<K1, K2, F1, F2> = ByTwoKeys { key1, key2, marker: core::marker::PhantomData };
            proof {
                assert(key_major(key1, o));
            }
            sort_parts(v, &frags, Ghost(marks@), key1, &o);
            proof {
                lemma_same_keys_order_trans(key1, key2, v0, v1, v@);
                assert forall|i: int, j: int| 0 <= i < j < v@.len() implies #[trigger] two_keys_le(key1, key2, v@[i], v@[j]) by {
                    assert(o.le(v@[i], v@[j]));
                }
            }
        },
        None => {
            // all first keys are equal: only the second one orders
            par_sort_by_one_key(v, cpu, key2);
            proof {
                lemma_keys_all_equal_permuted(key1, v0, v@);
                if v0.len() > 0 {
                    let k1 = key_int(key1, v0[0]);
                    assert forall|i: int| 0 <= i < v0.len() implies key_int(key1, #[trigger] v0[i]) == k1 by {
                        assert(keys_all_equal(key1, v0));
                    }
                    lemma_permuted_one_key(key1, v0, v@, k1);
                    lemma_one_first_key_same_keys_order(key1, key2, v0, v@, k1);
                }
                assert forall|i: int, j: int| 0 <= i < j < v@.len() implies #[trigger] two_keys_le(key1, key2, v@[i], v@[j]) by {
                    assert(key_int(key1, v@[i]) == key_int(key1, v@[j]));
                    assert(key_int(key2, v@[i]) <= key_int(key2, v@[j]));
                }
            }
        },
    }
}

} // verus!
