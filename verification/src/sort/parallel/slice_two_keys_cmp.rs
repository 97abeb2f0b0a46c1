//! Sorting by two keys, then by a comparator, on several workers.
use vstd::prelude::*;
use core::cmp::Ordering;
use crate::sort::key::{SortKey, KeyFn, key_fn_valid, key_int};
use crate::sort::order::{ElemOrder, ByTwoKeysThen, le_fn_is, is_total_le, two_keys_then_le};
use crate::sort::spread::key_major;
use crate::sort::compare::{compare_fn_valid, compare_le, compare_le_exec, sorted_by_two_keys_then, lemma_compare_le_total};
use crate::sort::two_keys_cmp::sort_vec_by_two_keys_then_by;
use crate::sort::parallel::cpu_count::CPUCount;
use crate::sort::parallel::fragmentation::{tiles, fragment_by_marks};
use crate::sort::parallel::presort::{par_pre_sort, marks_separate};
use crate::sort::parallel::part_sort::sort_parts;
use crate::sort::parallel::parts::lemma_keys_all_equal_permuted;
use crate::sort::parallel::slice_one_key_cmp::par_sort_by_one_key_then_by;

verus! {

/// Sorts the parts `frags` of `v`, which `marks` separate by `key1`, by
/// `key1`, then `key2`, then `order` (tested by `tie`).
fn sort_parts_by_two_keys_then<
    T: Copy + Send + Sync,
    K1: SortKey + Send + Sync,
    K2: SortKey + Send + Sync,
    F1: KeyFn<T, K1> + Send + Sync,
    F2: KeyFn<T, K2> + Send + Sync,
    L: Fn(&T, &T) -> bool + Copy + Send + Sync,
>(
    v: &mut Vec<T>,
    frags: &Vec<(usize, usize)>,
    Ghost(marks): Ghost<Seq<usize>>,
    key1: F1,
    key2: F2,
    tie: L,
    Ghost(order): Ghost<spec_fn(T, T) -> bool>,
)
    requires
        key_fn_valid(key1),
        key_fn_valid(key2),
        le_fn_is(tie, order),
        is_total_le(order),
        tiles(frags@, old(v)@.len() as int),
        frags@.len() <= marks.len() + 1,
        forall|f: int| 1 <= f < frags@.len() ==> #[trigger] frags@[f].0 == marks[f - 1],
        forall|f: int, h: int| 0 <= f < frags@.len() && 0 <= h < marks.len() ==>
            #[trigger] marks[h] <= #[trigger] frags@[f].0 || marks[h] >= frags@[f].1,
        marks_separate(key1, old(v)@, marks),
    ensures
        final(v)@.to_multiset() == old(v)@.to_multiset(),
        forall|i: int, j: int| 0 <= i < j < final(v)@.len() ==>
            #[trigger] two_keys_then_le(key1, key2, order, final(v)@[i], final(v)@[j]),
{
    let o: ByTwoKeysThen<T, K1, K2, F1, F2, L> = ByTwoKeysThen { key1, key2, tie, order: Ghost(order), marker: core::marker::PhantomData };
    proof {
        assert(key_major(key1, o));
    }
    sort_parts(v, &frags, Ghost(marks), key1, &o);
    proof {
        assert forall|i: int, j: int| 0 <= i < j < v@.len() implies #[trigger] two_keys_then_le(key1, key2, order, v@[i], v@[j]) by {
            assert(o.le(v@[i], v@[j]));
        }
    }
}

/// Sorts `v` by `key1`, then `key2`, then `compare`, spread over `cpu`
/// workers: the presort goes by `key1`; when all `key1` are equal, the sort
/// by `key2` and `compare` is left.
pub fn par_sort_by_two_keys_then_by<
    T: Copy + Send + Sync,
    K1: SortKey + Send + Sync,
    K2: SortKey + Send + Sync,
    F1: KeyFn<T, K1> + Send + Sync,
    F2: KeyFn<T, K2> + Send + Sync,
    F3: Fn(&T, &T) -> Ordering + Copy + Send + Sync,
>(v: &mut Vec<T>, cpu: usize, key1: F1, key2: F2, compare: F3)
    requires
        key_fn_valid(key1),
        key_fn_valid(key2),
        compare_fn_valid(compare),
    ensures
        final(v)@.to_multiset() == old(v)@.to_multiset(),
        sorted_by_two_keys_then(final(v)@, key1, key2, compare),
{
    if v.len() == 0 {
        return;
    }
    let workers = match CPUCount::should_parallel(v.len(), cpu) {
        Some(count) => count,
        None => {
            sort_vec_by_two_keys_then_by(v, &mut Vec::new(), key1, key2, compare);
            return;
        },
    };
    let ghost v0 = v@;
    match par_pre_sort(v, workers, key1) {
        Some(marks) => {
            let frags = fragment_by_marks(v.len(), &marks);
            let tie = move |a: &T, b: &T| -> (r: bool)
                requires
                    compare_fn_valid(compare),
                ensures
                    r == compare_le(compare, *a, *b),
                { compare_le_exec(&compare, a, b) };
            let ghost order = |a: T, b: T| compare_le(compare, a, b);
            proof {
                lemma_compare_le_total(compare);
                assert(le_fn_is(tie, order));
            }
            sort_parts_by_two_keys_then(v, &frags, Ghost(marks@), key1, key2, tie, Ghost(order));
            proof {
                assert forall|i: int, j: int| 0 <= i < j < v@.len() implies {
                    ||| #[trigger] key_int(key1, v@[i]) < #[trigger] key_int(key1, v@[j])
                    ||| key_int(key1, v@[i]) == key_int(key1, v@[j]) && key_int(key2, v@[i]) < key_int(key2, v@[j])
                    ||| key_int(key1, v@[i]) == key_int(key1, v@[j]) && key_int(key2, v@[i]) == key_int(key2, v@[j])
                        && compare_le(compare, v@[i], v@[j])
                } by {
                    assert(two_keys_then_le(key1, key2, order, v@[i], v@[j]));
                }
            }
        },
        None => {
            // all first keys are equal: only `key2` and `compare` order
            par_sort_by_one_key_then_by(v, cpu, key2, compare);
            proof {
                lemma_keys_all_equal_permuted(key1, v0, v@);
                assert forall|i: int, j: int| 0 <= i < j < v@.len() implies {
                    ||| #[trigger] key_int(key1, v@[i]) < #[trigger] key_int(key1, v@[j])
                    ||| key_int(key1, v@[i]) == key_int(key1, v@[j]) && key_int(key2, v@[i]) < key_int(key2, v@[j])
                    ||| key_int(key1, v@[i]) == key_int(key1, v@[j]) && key_int(key2, v@[i]) == key_int(key2, v@[j])
                        && compare_le(compare, v@[i], v@[j])
                } by {
                    assert(key_int(key1, v@[i]) == key_int(key1, v@[j]));
                    assert(key_int(key2, v@[i]) < key_int(key2, v@[j])
                        || key_int(key2, v@[i]) == key_int(key2, v@[j]) && compare_le(compare, v@[i], v@[j]));
                }
            }
        },
    }
}

} // verus!
