//! Sorting by one key, then by a comparator, on several workers.
use vstd::prelude::*;
use core::cmp::Ordering;
use crate::sort::key::{SortKey, KeyFn, key_fn_valid, key_int};
use crate::sort::order::{ElemOrder, ByKeyThen, le_fn_is, is_total_le, key_then_le};
use crate::sort::spread::key_major;
use crate::sort::compare::{compare_fn_valid, compare_le, compare_le_exec, sorted_by_one_key_then, lemma_compare_le_total};
use crate::sort::one_key_cmp::sort_vec_by_one_key_then_by;
use crate::sort::parallel::cpu_count::CPUCount;
use crate::sort::parallel::fragmentation::{tiles, fragment_by_marks};
use crate::sort::parallel::presort::{par_pre_sort, marks_separate};
use crate::sort::parallel::part_sort::sort_parts;

verus! {

/// Sorts the parts `frags` of `v`, which `marks` separate by `key`, by `key`
/// and then by `order` (tested by `tie`).
fn sort_parts_by_key_then<
    T: Copy + Send + Sync,
    K: SortKey + Send + Sync,
    F: KeyFn<T, K> + Send + Sync,
    L: Fn(&T, &T) -> bool + Copy + Send + Sync,
>(
    v: &mut Vec<T>,
    frags: &Vec<(usize, usize)>,
    Ghost(marks): Ghost<Seq<usize>>,
    key: F,
    tie: L,
    Ghost(order): Ghost<spec_fn(T, T) -> bool>,
)
    requires
        key_fn_valid(key),
        le_fn_is(tie, order),
        is_total_le(order),
        tiles(frags@, old(v)@.len() as int),
        frags@.len() <= marks.len() + 1,
        forall|f: int| 1 <= f < frags@.len() ==> #[trigger] frags@[f].0 == marks[f - 1],
        forall|f: int, h: int| 0 <= f < frags@.len() && 0 <= h < marks.len() ==>
            #[trigger] marks[h] <= #[trigger] frags@[f].0 || marks[h] >= frags@[f].1,
        marks_separate(key, old(v)@, marks),
    ensures
        final(v)@.to_multiset() == old(v)@.to_multiset(),
        forall|i: int, j: int| 0 <= i < j < final(v)@.len() ==> #[trigger] key_then_le(key, order, final(v)@[i], final(v)@[j]),
{
    let o: ByKeyThen<T, K, F, L> = ByKeyThen { key, tie, order: Ghost(order), marker: core::marker::PhantomData };
    proof {
        assert(key_major(key, o));
    }
    sort_parts(v, &frags, Ghost(marks), key, &o);
    proof {
        assert forall|i: int, j: int| 0 <= i < j < v@.len() implies #[trigger] key_then_le(key, order, v@[i], v@[j]) by {
            assert(o.le(v@[i], v@[j]));
        }
    }
}

/// Sorts `v` by `key`, and by `compare` among equal keys, spread over `cpu`
/// workers: the presort goes by `key`; when all keys are equal, the sort by
/// `compare` alone is left, done serially.
pub fn par_sort_by_one_key_then_by<
    T: Copy + Send + Sync,
    K: SortKey + Send + Sync,
    F1: KeyFn<T, K> + Send + Sync,
    F2: Fn(&T, &T) -> Ordering + Copy + Send + Sync,
>(v: &mut Vec<T>, cpu: usize, key: F1, compare: F2)
    requires
        key_fn_valid(key),
        compare_fn_valid(compare),
    ensures
        final(v)@.to_multiset() == old(v)@.to_multiset(),
        sorted_by_one_key_then(final(v)@, key, compare),
{
    if v.len() == 0 {
        return;
    }
    let workers = match CPUCount::should_parallel(v.len(), cpu) {
        Some(count) => count,
        None => {
            sort_vec_by_one_key_then_by(v, &mut Vec::new(), key, compare);
            return;
        },
    };
    match par_pre_sort(v, workers, key) {
        Some(marks) => {
            let frags = fragment_by_marks(v.len(), &marks);
            let tie = move |a: &T, b: &T| -> (r: bool)
                requires
                    compare_fn_valid(compare),
                ensures
                    r == compare_le(compare, *a, *b),
                { compare_le_exec(&compare, a, b) };
            let ghost order = |a: T, b: T| compare_le(compare, a, b);
            proof {
                lemma_compare_le_total(compare);
                assert(le_fn_is(tie, order));
            }
            sort_parts_by_key_then(v, &frags, Ghost(marks@), key, tie, Ghost(order));
            proof {
                assert forall|i: int, j: int| 0 <= i < j < v@.len() implies {
                    ||| #[trigger] key_int(key, v@[i]) < #[trigger] key_int(key, v@[j])
                    ||| key_int(key, v@[i]) == key_int(key, v@[j]) && compare_le(compare, v@[i], v@[j])
                } by {
                    assert(key_then_le(key, order, v@[i], v@[j]));
                }
            }
        },
        None => {
            // all keys are equal: only `compare` orders
            sort_vec_by_one_key_then_by(v, &mut Vec::new(), key, compare);
        },
    }
}

} // verus!
