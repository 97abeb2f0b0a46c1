//! Bin sort by one key, passing the data back and forth between two buffers.
use vstd::prelude::*;
use crate::sort::key::{SortKey, KeyFn, key_fn_valid, key_int};
use crate::sort::bin_layout::{BinLayout, BIN_SORT_MIN};
use crate::sort::order::{ElemOrder, ByKey, by_key, sorted_range, sorted_by_one_key, pick, copy_range, insertion_sort, lemma_sorted_copy, fit_buffer};
use crate::sort::spread::{
    spread, bin_items, bin_bounds, bins_done, key_major, keys_in_range, lemma_bins_done_start,
    lemma_bins_done_extend, lemma_bins_done_finish, lemma_bin_single_key, lemma_end_bins_nonempty,
};

use crate::sort::stable::{same_key_order, key_class, lemma_by_key_classes, lemma_same_key_order_refl, lemma_laid_bins_prefix, lemma_bins_prefix_same_key_order, lemma_same_key_order_concat, lemma_same_key_order_trans};

verus! {

/// A sort of `data[lo..hi)` leaves everything else in `data` and `scratch` as it was.
pub open spec fn range_framed<T>(old_data: Seq<T>, old_scratch: Seq<T>, data: Seq<T>, scratch: Seq<T>, lo: int, hi: int) -> bool {
    &&& data.len() == old_data.len()
    &&& scratch.len() == old_scratch.len()
    &&& forall|k: int| 0 <= k < lo || hi <= k < old_data.len() ==> data[k] == old_data[k]
    &&& forall|k: int| 0 <= k < lo || hi <= k < old_scratch.len() ==> scratch[k] == old_scratch[k]
}

/// A bin of one key value is sorted by that key.
pub proof fn lemma_single_key_bin_sorted<T, K: SortKey, F: KeyFn<T, K>>(
    layout: BinLayout<K>,
    key: F,
    s: Seq<T>,
    out: Seq<T>,
    pos: int,
    b: int,
)
    requires
        layout.power == 0,
        0 <= pos,
        pos + bin_items(layout, key, s, b).len() <= out.len(),
        out.subrange(pos, pos + bin_items(layout, key, s, b).len()) == bin_items(layout, key, s, b),
    ensures
        sorted_range(by_key::<K, F>(key), out, pos, pos + bin_items(layout, key, s, b).len()),
{
    let items = bin_items(layout, key, s, b);
    assert forall|i: int, j: int| pos <= i < j < pos + items.len() implies #[trigger] by_key::<K, F>(key).le(out[i], out[j]) by {
        assert(out[i] == items[i - pos]);
        assert(out[j] == items[j - pos]);
        lemma_bin_single_key(layout, key, s, b, i - pos, j - pos);
    }
}

/// Bins of one key value each, laid end to end, are sorted by that key.
pub proof fn lemma_single_key_bins_done<T, K: SortKey, F: KeyFn<T, K>>(
    layout: BinLayout<K>,
    key: F,
    s: Seq<T>,
    out: Seq<T>,
    bounds: Seq<usize>,
    lo: int,
    c: int,
)
    requires
        0 <= c <= layout.bin_count(),
        0 <= lo,
        layout.wf(),
        layout.power == 0,
        bin_bounds(layout, key, s, bounds, lo),
        bounds[layout.bin_count()] <= out.len(),
        forall|d: int| 0 <= d < layout.bin_count() ==> #[trigger] out.subrange(bounds[d] as int, bounds[d + 1] as int)
            == bin_items(layout, key, s, d),
    ensures
        bins_done(layout, key, by_key::<K, F>(key), s, out, lo, bounds[c] as int, c),
    decreases c,
{
    let o = by_key::<K, F>(key);
    let n = layout.bin_count();
    if c == 0 {
        lemma_bins_done_start(layout, key, o, s, out, lo);
        assert(bounds[0] == lo + crate::sort::spread::bins_prefix(layout, key, s, 0).len());
    } else {
        let d = c - 1;
        lemma_single_key_bins_done(layout, key, s, out, bounds, lo, d);
        assert(out.subrange(bounds[d] as int, bounds[d + 1] as int) == bin_items(layout, key, s, d));
        assert(bounds[d] <= bounds[d + 1] <= bounds[n]);
        assert(bounds[d] >= lo) by {
            assert(bounds[0] == lo + crate::sort::spread::bins_prefix(layout, key, s, 0).len());
            assert(bounds[0] <= bounds[d]);
        }
        lemma_single_key_bin_sorted(layout, key, s, out, bounds[d] as int, d);
        lemma_bins_done_extend(layout, key, o, s, out, lo, bounds[d] as int, bounds[d + 1] as int, d);
    }
}

/// Sorts `data[lo..hi)` by `key`, using `scratch[lo..hi)` as room. The result
/// ends in `scratch[lo..hi)` when `to_scratch`, else in `data[lo..hi)`.
pub fn sort_range_by_one_key<T: Copy, K: SortKey, F: KeyFn<T, K>>(
    data: &mut Vec<T>,
    scratch: &mut Vec<T>,
    lo: usize,
    hi: usize,
    key: F,
    to_scratch: bool,
)
    requires
        key_fn_valid(key),
        lo <= hi <= old(data).len(),
        old(scratch).len() == old(data).len(),
    ensures
        range_framed(old(data)@, old(scratch)@, final(data)@, final(scratch)@, lo as int, hi as int),
        pick(to_scratch, final(data)@, final(scratch)@).subrange(lo as int, hi as int).to_multiset()
            == old(data)@.subrange(lo as int, hi as int).to_multiset(),
        sorted_range(by_key::<K, F>(key), pick(to_scratch, final(data)@, final(scratch)@), lo as int, hi as int),
        same_key_order(key, old(data)@.subrange(lo as int, hi as int), pick(to_scratch, final(data)@, final(scratch)@).subrange(lo as int, hi as int)),
    decreases hi - lo,
{
    let ghost s = data@.subrange(lo as int, hi as int);
    let ghost old_data = data@;
    let ghost old_scratch = scratch@;
    let o: ByKey<K, F> = ByKey { key, marker: core::marker::PhantomData };
    assert(o == by_key::<K, F>(key));
    if hi - lo < BIN_SORT_MIN {
        insertion_sort(&o, data, lo, hi);
        proof {
            lemma_by_key_classes(key, old_data.subrange(lo as int, hi as int), data@.subrange(lo as int, hi as int));
        }
        if to_scratch {
            copy_range(data, scratch, lo, hi);
            proof {
                lemma_sorted_copy(o, data@, scratch@, lo as int, hi as int);
            }
        }
        return;
    }
    let layout = match BinLayout::with_keys_in(data.as_slice(), lo, hi, key) {
        Some(layout) => layout,
        None => {
            // all keys are equal: the range is already sorted
            proof {
                assert forall|i: int, j: int| lo <= i < j < hi implies #[trigger] o.le(data@[i], data@[j]) by {
                    assert(s[i - lo] == data@[i]);
                    assert(s[j - lo] == data@[j]);
                }
            }
            proof {
                lemma_same_key_order_refl(key, s, data@.subrange(lo as int, hi as int));
            }
            if to_scratch {
                copy_range(data, scratch, lo, hi);
                proof {
                    lemma_sorted_copy(o, data@, scratch@, lo as int, hi as int);
                }
            }
            return;
        }
    };
    proof {
        assert forall|i: int| 0 <= i < s.len() implies #[trigger] layout.in_range(key_int(key, s[i])) by {
            layout.lemma_in_range(key_int(key, s[i]));
        }
    }
    let bounds = spread(&layout, key, data, scratch, lo, hi);
    let ghost n = layout.bin_count();
    proof {
        lemma_end_bins_nonempty(layout, key, s);
        assert(bounds@[1] == bounds@[0] + bin_items(layout, key, s, 0).len()) by {
            assert(crate::sort::spread::bins_prefix(layout, key, s, 1) =~= crate::sort::spread::bins_prefix(layout, key, s, 0) + bin_items(layout, key, s, 0));
            assert(crate::sort::spread::bins_prefix(layout, key, s, 0) =~= Seq::<T>::empty());
        }
        assert(bounds@[n] == bounds@[n - 1] + bin_items(layout, key, s, n - 1).len()) by {
            assert(crate::sort::spread::bins_prefix(layout, key, s, n) == crate::sort::spread::bins_prefix(layout, key, s, n - 1) + bin_items(layout, key, s, n - 1));
        }
    }
    if layout.bin_width_is_one() {
        // every bin holds one key value: the spread is already sorted
        proof {
            lemma_single_key_bins_done(layout, key, s, scratch@, bounds@, lo as int, n);
            lemma_bins_done_finish(layout, key, o, s, scratch@, lo as int, hi as int);
            lemma_laid_bins_prefix(layout, key, s, scratch@, bounds@, lo as int, n);
            lemma_bins_prefix_same_key_order(layout, key, s);
        }
        if !to_scratch {
            copy_range(scratch, data, lo, hi);
            proof {
                lemma_sorted_copy(o, scratch@, data@, lo as int, hi as int);
            }
        }
        return;
    }
    // sort each bin, passing the data back to the other buffer
    let count = layout.count();
    let mut b: usize = 0;
    proof {
        lemma_bins_done_start(layout, key, o, s, pick(to_scratch, data@, scratch@), lo as int);
        assert(bounds@[0] == lo + crate::sort::spread::bins_prefix(layout, key, s, 0).len());
        assert forall|x: T| #[trigger] pick(to_scratch, data@, scratch@).subrange(lo as int, bounds@[0] as int).filter(key_class(key, x))
            == crate::sort::spread::bins_prefix(layout, key, s, 0).filter(key_class(key, x)) by {
            reveal(Seq::filter);
        }
    }
    while b < count
        invariant
            key_fn_valid(key),
            layout.wf(),
            count == n,
            n == layout.bin_count(),
            o == by_key::<K, F>(key),
            0 <= b <= n,
            lo <= hi <= old_data.len(),
            old_scratch.len() == old_data.len(),
            s == old_data.subrange(lo as int, hi as int),
            n >= 2,
            bounds@[1] >= lo + 1,
            bounds@[n - 1] + 1 <= hi,
            keys_in_range(layout, key, s),
            bin_bounds(layout, key, s, bounds@, lo as int),
            range_framed(old_data, old_scratch, data@, scratch@, lo as int, hi as int),
            forall|d: int| b <= d < n ==> #[trigger] scratch@.subrange(bounds@[d] as int, bounds@[d + 1] as int)
                == bin_items(layout, key, s, d),
            bins_done(layout, key, o, s, pick(to_scratch, data@, scratch@), lo as int, bounds@[b as int] as int, b as int),
            same_key_order(key, crate::sort::spread::bins_prefix(layout, key, s, b as int),
                pick(to_scratch, data@, scratch@).subrange(lo as int, bounds@[b as int] as int)),
        decreases n - b,
    {
        let start = bounds[b];
        let end = bounds[b + 1];
        let ghost data_before = data@;
        let ghost scratch_before = scratch@;
        proof {
            assert(bounds@[b as int] <= bounds@[b + 1] <= bounds@[n]);
            if b == 0 {
                assert(bounds@[1] <= bounds@[n - 1]);
            } else {
                assert(bounds@[1] <= bounds@[b as int]);
            }
        }
        sort_range_by_one_key(scratch, data, start, end, key, !to_scratch);
        proof {
            let out = pick(to_scratch, data@, scratch@);
            let out_before = pick(to_scratch, data_before, scratch_before);
            assert(out.subrange(lo as int, start as int) =~= out_before.subrange(lo as int, start as int));
            assert forall|i: int, j: int| lo <= i < j < start implies #[trigger] o.le(out[i], out[j]) by {
                assert(out[i] == out_before[i]);
                assert(out[j] == out_before[j]);
            }
            assert forall|i: int| lo <= i < start implies #[trigger] layout.bin_of(key_int(key, out[i])) < b by {
                assert(out[i] == out_before[i]);
            }
            assert(key_major(key, o));
            lemma_bins_done_extend(layout, key, o, s, out, lo as int, start as int, end as int, b as int);
            assert(scratch_before.subrange(start as int, end as int) == bin_items(layout, key, s, b as int));
            lemma_same_key_order_concat(key, crate::sort::spread::bins_prefix(layout, key, s, b as int), bin_items(layout, key, s, b as int),
                out.subrange(lo as int, start as int), out.subrange(start as int, end as int));
            assert(crate::sort::spread::bins_prefix(layout, key, s, b + 1)
                == crate::sort::spread::bins_prefix(layout, key, s, b as int) + bin_items(layout, key, s, b as int));
            assert(out.subrange(lo as int, end as int) =~= out.subrange(lo as int, start as int) + out.subrange(start as int, end as int));
            assert(bounds@[b + 1] == end);
            assert forall|d: int| b + 1 <= d < n implies #[trigger] scratch@.subrange(bounds@[d] as int, bounds@[d + 1] as int)
                == bin_items(layout, key, s, d) by {
                assert(bounds@[b + 1] <= bounds@[d] <= bounds@[d + 1]);
                assert(scratch@.subrange(bounds@[d] as int, bounds@[d + 1] as int)
                    =~= scratch_before.subrange(bounds@[d] as int, bounds@[d + 1] as int));
            }
        }
        b = b + 1;
    }
    proof {
        lemma_bins_done_finish(layout, key, o, s, pick(to_scratch, data@, scratch@), lo as int, hi as int);
        lemma_bins_prefix_same_key_order(layout, key, s);
        lemma_same_key_order_trans(key, s, crate::sort::spread::bins_prefix(layout, key, s, n),
            pick(to_scratch, data@, scratch@).subrange(lo as int, hi as int));
    }
}

/// Sorts all of `v` by `key`. Short vectors are sorted directly; longer ones
/// by bins, with `buffer` resized to `v` as room.
pub fn sort_vec_by_one_key<T: Copy, K: SortKey, F: KeyFn<T, K>>(v: &mut Vec<T>, buffer: &mut Vec<T>, key: F)
    requires
        key_fn_valid(key),
    ensures
        final(v)@.to_multiset() == old(v)@.to_multiset(),
        sorted_by_one_key(final(v)@, key),
        final(buffer)@.len() == if old(v)@.len() < BIN_SORT_MIN { old(buffer)@.len() } else { old(v)@.len() },
        old(v)@.len() < BIN_SORT_MIN ==> final(buffer)@ == old(buffer)@,
        same_key_order(key, old(v)@, final(v)@),
{
    let o: ByKey<K, F> = ByKey { key, marker: core::marker::PhantomData };
    let len = v.len();
    if len < BIN_SORT_MIN {
        insertion_sort(&o, v, 0, len);
        proof {
            lemma_by_key_classes(key, old(v)@.subrange(0, len as int), v@.subrange(0, len as int));
        }
    } else {
        fit_buffer(buffer, v);
        sort_range_by_one_key(v, buffer, 0, len, key, false);
    }
    proof {
        assert(v@.subrange(0, len as int) =~= v@);
        assert(old(v)@.subrange(0, len as int) =~= old(v)@);
        assert forall|i: int, j: int| 0 <= i < j < v@.len() implies #[trigger] key_int(key, v@[i]) <= #[trigger] key_int(key, v@[j]) by {
            assert(o.le(v@[i], v@[j]));
        }
    }
}

} // verus!
