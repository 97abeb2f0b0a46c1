//! Bin sort by a key, then by a tie order among equal keys.
use vstd::prelude::*;
use crate::sort::key::{SortKey, KeyFn, key_fn_valid, key_int};
use crate::sort::bin_layout::{BinLayout, BIN_SORT_MIN, keys_all_equal};
use crate::sort::order::{
    ElemOrder, ByKeyThen, ByTie, key_then_le, le_fn_is, is_total_le, sorted_range, pick, copy_range,
    insertion_sort, lemma_sorted_copy, fit_buffer,
};
use crate::sort::merge::merge_sort_range;
use crate::sort::spread::{
    spread, bin_items, bins_prefix, bin_bounds, bins_done, key_major, keys_in_range,
    lemma_bins_done_start, lemma_bins_done_extend, lemma_bins_done_finish, lemma_end_bins_nonempty,
    lemma_region_single_key, lemma_region_from,
};
use crate::sort::serial::one_key::range_framed;

verus! {

/// The order of a key, then `order` tested by `tie`.
pub open spec fn by_key_then<T, K, F, L>(key: F, tie: L, order: spec_fn(T, T) -> bool) -> ByKeyThen<T, K, F, L> {
    ByKeyThen { key, tie, order: Ghost(order), marker: core::marker::PhantomData }
}

/// The order `order` tested by `tie`.
pub open spec fn by_tie<T, L>(tie: L, order: spec_fn(T, T) -> bool) -> ByTie<T, L> {
    ByTie { tie, order: Ghost(order) }
}

/// Sorts `data[lo..hi)` by `key1`, then by `order` (tested by `tie`) among
/// equal keys, using `scratch[lo..hi)` as room. The result ends in
/// `scratch[lo..hi)` when `to_scratch`, else in `data[lo..hi)`.
pub fn sort_range_by_key_then<T: Copy, K1: SortKey, F1: KeyFn<T, K1>, L: Fn(&T, &T) -> bool + Copy>(
    data: &mut Vec<T>,
    scratch: &mut Vec<T>,
    lo: usize,
    hi: usize,
    key1: F1,
    tie: L,
    Ghost(order): Ghost<spec_fn(T, T) -> bool>,
    to_scratch: bool,
)
    requires
        key_fn_valid(key1),
        le_fn_is(tie, order),
        is_total_le(order),
        lo <= hi <= old(data).len(),
        old(scratch).len() == old(data).len(),
    ensures
        range_framed(old(data)@, old(scratch)@, final(data)@, final(scratch)@, lo as int, hi as int),
        pick(to_scratch, final(data)@, final(scratch)@).subrange(lo as int, hi as int).to_multiset()
            == old(data)@.subrange(lo as int, hi as int).to_multiset(),
        sorted_range(by_key_then::<T, K1, F1, L>(key1, tie, order), pick(to_scratch, final(data)@, final(scratch)@), lo as int, hi as int),
    decreases hi - lo,
{
    let ghost s = data@.subrange(lo as int, hi as int);
    let ghost old_data = data@;
    let ghost old_scratch = scratch@;
    let o: ByKeyThen<T, K1, F1, L> = ByKeyThen { key: key1, tie, order: Ghost(order), marker: core::marker::PhantomData };
    assert(o == by_key_then::<T, K1, F1, L>(key1, tie, order));
    let ot: ByTie<T, L> = ByTie { tie, order: Ghost(order) };
    if hi - lo < BIN_SORT_MIN {
        insertion_sort(&o, data, lo, hi);
        if to_scratch {
            copy_range(data, scratch, lo, hi);
            proof {
                lemma_sorted_copy(o, data@, scratch@, lo as int, hi as int);
            }
        }
        return;
    }
    let layout = match BinLayout::with_keys_in(data.as_slice(), lo, hi, key1) {
        Some(layout) => layout,
        None => {
            // all keys are equal: sort by the tie order
            merge_sort_range(&ot, data, scratch, lo, hi, to_scratch);
            proof {
                let out = pick(to_scratch, data@, scratch@);
                assert forall|i: int, j: int| lo <= i < j < hi implies #[trigger] o.le(out[i], out[j]) by {
                    let ki = lemma_region_from(s, out, lo as int, hi as int, i);
                    let kj = lemma_region_from(s, out, lo as int, hi as int, j);
                    assert(ot.le(out[i], out[j]));
                    assert(key_int(key1, s[ki]) == key_int(key1, s[kj]));
                }
            }
            return;
        }
    };
    proof {
        assert forall|i: int| 0 <= i < s.len() implies #[trigger] layout.in_range(key_int(key1, s[i])) by {
            layout.lemma_in_range(key_int(key1, s[i]));
        }
    }
    let bounds = spread(&layout, key1, data, scratch, lo, hi);
    let ghost n = layout.bin_count();
    proof {
        lemma_end_bins_nonempty(layout, key1, s);
        assert(bounds@[1] == bounds@[0] + bin_items(layout, key1, s, 0).len()) by {
            assert(bins_prefix(layout, key1, s, 1) =~= bins_prefix(layout, key1, s, 0) + bin_items(layout, key1, s, 0));
            assert(bins_prefix(layout, key1, s, 0) =~= Seq::<T>::empty());
        }
        assert(bounds@[n] == bounds@[n - 1] + bin_items(layout, key1, s, n - 1).len()) by {
            assert(bins_prefix(layout, key1, s, n) == bins_prefix(layout, key1, s, n - 1) + bin_items(layout, key1, s, n - 1));
        }
    }
    let single_key_bins = layout.bin_width_is_one();
    // sort each bin, passing the data back to the other buffer
    let count = layout.count();
    let mut b: usize = 0;
    proof {
        lemma_bins_done_start(layout, key1, o, s, pick(to_scratch, data@, scratch@), lo as int);
    }
    while b < count
        invariant
            key_fn_valid(key1),
            le_fn_is(tie, order),
            is_total_le(order),
            ot == by_tie::<T, L>(tie, order),
            layout.wf(),
            single_key_bins == (layout.power == 0),
            count == n,
            n == layout.bin_count(),
            o == by_key_then::<T, K1, F1, L>(key1, tie, order),
            0 <= b <= n,
            lo <= hi <= old_data.len(),
            old_scratch.len() == old_data.len(),
            s == old_data.subrange(lo as int, hi as int),
            n >= 2,
            bounds@[1] >= lo + 1,
            bounds@[n - 1] + 1 <= hi,
            keys_in_range(layout, key1, s),
            bin_bounds(layout, key1, s, bounds@, lo as int),
            range_framed(old_data, old_scratch, data@, scratch@, lo as int, hi as int),
            forall|d: int| b <= d < n ==> #[trigger] scratch@.subrange(bounds@[d] as int, bounds@[d + 1] as int)
                == bin_items(layout, key1, s, d),
            bins_done(layout, key1, o, s, pick(to_scratch, data@, scratch@), lo as int, bounds@[b as int] as int, b as int),
        decreases n - b,
    {
        let start = bounds[b];
        let end = bounds[b + 1];
        let ghost data_before = data@;
        let ghost scratch_before = scratch@;
        proof {
            assert(bounds@[b as int] <= bounds@[b + 1] <= bounds@[n]);
            if b == 0 {
                assert(bounds@[1] <= bounds@[n - 1]);
            } else {
                assert(bounds@[1] <= bounds@[b as int]);
            }
        }
        if single_key_bins {
            // every element of the bin has the same key
            merge_sort_range(&ot, scratch, data, start, end, !to_scratch);
            proof {
                let out = pick(to_scratch, data@, scratch@);
                assert forall|i: int, j: int| start <= i < j < end implies #[trigger] o.le(out[i], out[j]) by {
                    assert(ot.le(out[i], out[j]));
                    lemma_region_single_key(layout, key1, s, out, start as int, end as int, b as int, i, j);
                }
            }
        } else {
            sort_range_by_key_then(scratch, data, start, end, key1, tie, Ghost(order), !to_scratch);
        }
        proof {
            let out = pick(to_scratch, data@, scratch@);
            let out_before = pick(to_scratch, data_before, scratch_before);
            assert(out.subrange(lo as int, start as int) =~= out_before.subrange(lo as int, start as int));
            assert forall|i: int, j: int| lo <= i < j < start implies #[trigger] o.le(out[i], out[j]) by {
                assert(out[i] == out_before[i]);
                assert(out[j] == out_before[j]);
            }
            assert forall|i: int| lo <= i < start implies #[trigger] layout.bin_of(key_int(key1, out[i])) < b by {
                assert(out[i] == out_before[i]);
            }
            assert(key_major(key1, o));
            lemma_bins_done_extend(layout, key1, o, s, out, lo as int, start as int, end as int, b as int);
            assert forall|d: int| b + 1 <= d < n implies #[trigger] scratch@.subrange(bounds@[d] as int, bounds@[d + 1] as int)
                == bin_items(layout, key1, s, d) by {
                assert(bounds@[b + 1] <= bounds@[d] <= bounds@[d + 1]);
                assert(scratch@.subrange(bounds@[d] as int, bounds@[d + 1] as int)
                    =~= scratch_before.subrange(bounds@[d] as int, bounds@[d + 1] as int));
            }
        }
        b = b + 1;
    }
    proof {
        lemma_bins_done_finish(layout, key1, o, s, pick(to_scratch, data@, scratch@), lo as int, hi as int);
    }
}

/// Sorts all of `v` by `key1`, then by `order` (tested by `tie`). Short vectors are sorted directly; longer ones
/// by bins, with `buffer` resized to `v` as room.
pub fn sort_vec_by_key_then<T: Copy, K1: SortKey, F1: KeyFn<T, K1>, L: Fn(&T, &T) -> bool + Copy>(
    v: &mut Vec<T>,
    buffer: &mut Vec<T>,
    key1: F1,
    tie: L,
    Ghost(order): Ghost<spec_fn(T, T) -> bool>,
)
    requires
        key_fn_valid(key1),
        le_fn_is(tie, order),
        is_total_le(order),
    ensures
        final(v)@.to_multiset() == old(v)@.to_multiset(),
        forall|i: int, j: int| 0 <= i < j < final(v)@.len() ==> #[trigger] key_then_le(key1, order, final(v)@[i], final(v)@[j]),
        final(buffer)@.len() == if old(v)@.len() < BIN_SORT_MIN { old(buffer)@.len() } else { old(v)@.len() },
        old(v)@.len() < BIN_SORT_MIN ==> final(buffer)@ == old(buffer)@,
{
    let o: ByKeyThen<T, K1, F1, L> = ByKeyThen { key: key1, tie, order: Ghost(order), marker: core::marker::PhantomData };
    let len = v.len();
    if len < BIN_SORT_MIN {
        insertion_sort(&o, v, 0, len);
    } else {
        fit_buffer(buffer, v);
        sort_range_by_key_then(v, buffer, 0, len, key1, tie, Ghost(order), false);
    }
    proof {
        assert(v@.subrange(0, len as int) =~= v@);
        assert(old(v)@.subrange(0, len as int) =~= old(v)@);
        assert forall|i: int, j: int| 0 <= i < j < v@.len() implies #[trigger] key_then_le(key1, order, v@[i], v@[j]) by {
            assert(o.le(v@[i], v@[j]));
        }
    }
}

} // verus!
