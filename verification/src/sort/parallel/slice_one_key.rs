//! Sorting by one key on several workers: a presort into independent parts,
//! then one bin sort per part.
use vstd::prelude::*;
use crate::sort::key::{SortKey, KeyFn, key_fn_valid, key_int};
use crate::sort::order::{ElemOrder, ByKey, sorted_by_one_key};
use crate::sort::spread::key_major;
use crate::sort::serial::one_key::sort_vec_by_one_key;
use crate::sort::parallel::cpu_count::CPUCount;
use crate::sort::parallel::fragmentation::fragment_by_marks;
use crate::sort::parallel::presort::par_pre_sort;
use crate::sort::parallel::part_sort::sort_parts;
use crate::sort::parallel::presort::{presort_layout, bin_boundaries};
use crate::sort::bin_layout::BinLayout;
use crate::sort::spread::bins_prefix;
use crate::sort::stable::{same_key_order, lemma_bins_prefix_same_key_order, lemma_same_key_order_trans};

verus! {

/// Sorts `v` by `key`, spread over `cpu` workers: inputs too short to give
/// each worker `MIN_LEN_PER_TASK` elements are sorted serially; longer ones
/// are presorted into parts whose keys do not overlap, and the parts are
/// sorted each on its own.
pub fn par_sort_by_one_key<T: Copy + Send + Sync, K: SortKey + Send + Sync, F: KeyFn<T, K> + Send + Sync>(
    v: &mut Vec<T>,
    cpu: usize,
    key: F,
)
    requires
        key_fn_valid(key),
    ensures
        final(v)@.to_multiset() == old(v)@.to_multiset(),
        sorted_by_one_key(final(v)@, key),
        same_key_order(key, old(v)@, final(v)@),
{
    if v.len() == 0 {
        return;
    }
    let workers = match CPUCount::should_parallel(v.len(), cpu) {
        Some(count) => count,
        None => {
            sort_vec_by_one_key(v, &mut Vec::new(), key);
            return;
        },
    };
    let ghost v0 = v@;
    match par_pre_sort(v, workers, key) {
        Some(marks) => {
            let ghost v1 = v@;
            proof {
                let layout = choose|layout: BinLayout<K>| {
                    &&& #[trigger] presort_layout(layout, key, v0, workers as int)
                    &&& v1 == bins_prefix(layout, key, v0, layout.bin_count())
                    &&& bin_boundaries(layout, key, v1, marks@)
                };
                assert forall|i: int| 0 <= i < v0.len() implies #[trigger] layout.in_range(key_int(key, v0[i])) by {
                    layout.lemma_in_range(key_int(key, v0[i]));
                }
                lemma_bins_prefix_same_key_order(layout, key, v0);
            }
            let frags = fragment_by_marks(v.len(), &marks);
            let o: ByKey<K, F> = ByKey { key, marker: core::marker::PhantomData };
            proof {
                assert(key_major(key, o));
            }
            sort_parts(v, &frags, Ghost(marks@), key, &o);
            proof {
                lemma_same_key_order_trans(key, v0, v1, v@);
                assert forall|i: int, j: int| 0 <= i < j < v@.len() implies
                    #[trigger] key_int(key, v@[i]) <= #[trigger] key_int(key, v@[j]) by {
                    assert(o.le(v@[i], v@[j]));
                }
            }
        },
        None => {
            // all keys are equal: the order is already right
        },
    }
}

} // verus!
