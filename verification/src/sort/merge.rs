//! Merge sort under any element order, passing data between two buffers.
use vstd::prelude::*;
use crate::sort::bin_layout::BIN_SORT_MIN;
use crate::sort::order::{ElemOrder, ByTie, le_fn_is, is_total_le, sorted_range, pick, copy_range, insertion_sort, lemma_sorted_copy, fit_buffer};
use crate::sort::serial::one_key::range_framed;

verus! {

broadcast use vstd::seq_lib::group_to_multiset_ensures;

/// Merges the sorted ranges `src[lo..mid)` and `src[mid..hi)` into `dst[lo..hi)`.
pub fn merge_ranges<T: Copy, O: ElemOrder<T>>(o: &O, src: &Vec<T>, dst: &mut Vec<T>, lo: usize, mid: usize, hi: usize)
    requires
        o.valid(),
        lo <= mid <= hi <= src.len(),
        old(dst).len() == src.len(),
        sorted_range(*o, src@, lo as int, mid as int),
        sorted_range(*o, src@, mid as int, hi as int),
    ensures
        final(dst).len() == src.len(),
        forall|k: int| 0 <= k < lo || hi <= k < src.len() ==> final(dst)@[k] == old(dst)@[k],
        final(dst)@.subrange(lo as int, hi as int).to_multiset() == src@.subrange(lo as int, hi as int).to_multiset(),
        sorted_range(*o, final(dst)@, lo as int, hi as int),
{
    let ghost orig = dst@;
    let mut i: usize = lo;
    let mut j: usize = mid;
    let mut k: usize = lo;
    proof {
        assert(dst@.subrange(lo as int, lo as int) =~= Seq::<T>::empty());
        assert(src@.subrange(lo as int, lo as int) =~= Seq::<T>::empty());
        assert(src@.subrange(mid as int, mid as int) =~= Seq::<T>::empty());
    }
    while k < hi
        invariant
            o.valid(),
            lo <= i <= mid <= j <= hi <= src.len(),
            k == i + j - mid,
            dst.len() == src.len(),
            sorted_range(*o, src@, lo as int, mid as int),
            sorted_range(*o, src@, mid as int, hi as int),
            forall|p: int| 0 <= p < lo || hi <= p < src.len() ==> dst@[p] == orig[p],
            dst@.subrange(lo as int, k as int).to_multiset()
                == src@.subrange(lo as int, i as int).to_multiset().add(src@.subrange(mid as int, j as int).to_multiset()),
            sorted_range(*o, dst@, lo as int, k as int),
            forall|p: int, q: int| lo <= p < k && i <= q < mid ==> #[trigger] o.le(dst@[p], src@[q]),
            forall|p: int, q: int| lo <= p < k && j <= q < hi ==> #[trigger] o.le(dst@[p], src@[q]),
        decreases hi - k,
    {
        let take_left = if i < mid && j < hi {
            o.le_exec(&src[i], &src[j])
        } else {
            i < mid
        };
        let ghost before = dst@;
        if take_left {
            let x = src[i];
            dst.set(k, x);
            proof {
                assert(dst@.subrange(lo as int, k + 1) =~= before.subrange(lo as int, k as int).push(x));
                assert(src@.subrange(lo as int, i + 1) =~= src@.subrange(lo as int, i as int).push(x));
                assert(dst@.subrange(lo as int, k + 1).to_multiset() =~= src@.subrange(lo as int, i + 1).to_multiset().add(src@.subrange(mid as int, j as int).to_multiset()));
                assert forall|p: int, q: int| lo <= p < k + 1 && i + 1 <= q < mid implies #[trigger] o.le(dst@[p], src@[q]) by {
                    if p < k {
                        assert(dst@[p] == before[p]);
                    }
                }
                assert forall|p: int, q: int| lo <= p < k + 1 && j <= q < hi implies #[trigger] o.le(dst@[p], src@[q]) by {
                    if p < k {
                        assert(dst@[p] == before[p]);
                    } else if q > j {
                        o.lemma_transitive(src@[i as int], src@[j as int], src@[q]);
                    }
                }
                assert forall|a: int, b: int| lo <= a < b < k + 1 implies #[trigger] o.le(dst@[a], dst@[b]) by {
                    assert(dst@[a] == before[a]);
                    if b < k {
                        assert(dst@[b] == before[b]);
                    }
                }
            }
            i = i + 1;
        } else {
            let x = src[j];
            dst.set(k, x);
            proof {
                if i < mid {
                    o.lemma_total(src@[i as int], src@[j as int]);
                }
                assert(dst@.subrange(lo as int, k + 1) =~= before.subrange(lo as int, k as int).push(x));
                assert(src@.subrange(mid as int, j + 1) =~= src@.subrange(mid as int, j as int).push(x));
                assert(dst@.subrange(lo as int, k + 1).to_multiset() =~= src@.subrange(lo as int, i as int).to_multiset().add(src@.subrange(mid as int, j + 1).to_multiset()));
                assert forall|p: int, q: int| lo <= p < k + 1 && i <= q < mid implies #[trigger] o.le(dst@[p], src@[q]) by {
                    if p < k {
                        assert(dst@[p] == before[p]);
                    } else if q > i {
                        o.lemma_transitive(src@[j as int], src@[i as int], src@[q]);
                    }
                }
                assert forall|p: int, q: int| lo <= p < k + 1 && j + 1 <= q < hi implies #[trigger] o.le(dst@[p], src@[q]) by {
                    if p < k {
                        assert(dst@[p] == before[p]);
                    }
                }
                assert forall|a: int, b: int| lo <= a < b < k + 1 implies #[trigger] o.le(dst@[a], dst@[b]) by {
                    assert(dst@[a] == before[a]);
                    if b < k {
                        assert(dst@[b] == before[b]);
                    }
                }
            }
            j = j + 1;
        }
        k = k + 1;
    }
    proof {
        vstd::seq_lib::lemma_multiset_commutative(src@.subrange(lo as int, mid as int), src@.subrange(mid as int, hi as int));
        assert(src@.subrange(lo as int, hi as int) =~= src@.subrange(lo as int, mid as int) + src@.subrange(mid as int, hi as int));
    }
}

/// Sorts `data[lo..hi)` under `o`, using `scratch[lo..hi)` as room. The result
/// ends in `scratch[lo..hi)` when `to_scratch`, else in `data[lo..hi)`.
pub fn merge_sort_range<T: Copy, O: ElemOrder<T>>(
    o: &O,
    data: &mut Vec<T>,
    scratch: &mut Vec<T>,
    lo: usize,
    hi: usize,
    to_scratch: bool,
)
    requires
        o.valid(),
        lo <= hi <= old(data).len(),
        old(scratch).len() == old(data).len(),
    ensures
        range_framed(old(data)@, old(scratch)@, final(data)@, final(scratch)@, lo as int, hi as int),
        pick(to_scratch, final(data)@, final(scratch)@).subrange(lo as int, hi as int).to_multiset()
            == old(data)@.subrange(lo as int, hi as int).to_multiset(),
        sorted_range(*o, pick(to_scratch, final(data)@, final(scratch)@), lo as int, hi as int),
    decreases hi - lo,
{
    if hi - lo < BIN_SORT_MIN {
        insertion_sort(o, data, lo, hi);
        if to_scratch {
            copy_range(data, scratch, lo, hi);
            proof {
                lemma_sorted_copy(*o, data@, scratch@, lo as int, hi as int);
            }
        }
        return;
    }
    let ghost old_data = data@;
    let ghost old_scratch = scratch@;
    let mid = lo + (hi - lo) / 2;
    merge_sort_range(o, data, scratch, lo, mid, !to_scratch);
    let ghost data1 = data@;
    let ghost scratch1 = scratch@;
    merge_sort_range(o, data, scratch, mid, hi, !to_scratch);
    let ghost data2 = data@;
    let ghost scratch2 = scratch@;
    proof {
        let h1 = pick(!to_scratch, data1, scratch1);
        let h2 = pick(!to_scratch, data2, scratch2);
        assert(h2.subrange(lo as int, mid as int) =~= h1.subrange(lo as int, mid as int));
        lemma_sorted_copy(*o, h1, h2, lo as int, mid as int);
        assert(data1.subrange(mid as int, hi as int) =~= old_data.subrange(mid as int, hi as int));
        vstd::seq_lib::lemma_multiset_commutative(h2.subrange(lo as int, mid as int), h2.subrange(mid as int, hi as int));
        assert(h2.subrange(lo as int, hi as int) =~= h2.subrange(lo as int, mid as int) + h2.subrange(mid as int, hi as int));
        vstd::seq_lib::lemma_multiset_commutative(old_data.subrange(lo as int, mid as int), old_data.subrange(mid as int, hi as int));
        assert(old_data.subrange(lo as int, hi as int) =~= old_data.subrange(lo as int, mid as int) + old_data.subrange(mid as int, hi as int));
    }
    if to_scratch {
        merge_ranges(o, data, scratch, lo, mid, hi);
    } else {
        merge_ranges(o, scratch, data, lo, mid, hi);
    }
}

/// Sorts all of `v` under `order`, tested by `tie`.
pub fn sort_vec_by_tie<T: Copy, L: Fn(&T, &T) -> bool + Copy>(v: &mut Vec<T>, tie: L, Ghost(order): Ghost<spec_fn(T, T) -> bool>)
    requires
        le_fn_is(tie, order),
        is_total_le(order),
    ensures
        final(v)@.to_multiset() == old(v)@.to_multiset(),
        forall|i: int, j: int| 0 <= i < j < final(v)@.len() ==> #[trigger] order(final(v)@[i], final(v)@[j]),
{
    let o: ByTie<T, L> = ByTie { tie, order: Ghost(order) };
    let len = v.len();
    let mut buffer: Vec<T> = Vec::new();
    fit_buffer(&mut buffer, v);
    merge_sort_range(&o, v, &mut buffer, 0, len, false);
    proof {
        assert(v@.subrange(0, len as int) =~= v@);
        assert(old(v)@.subrange(0, len as int) =~= old(v)@);
        assert forall|i: int, j: int| 0 <= i < j < v@.len() implies #[trigger] order(v@[i], v@[j]) by {
            assert(o.le(v@[i], v@[j]));
        }
    }
}

} // verus!
