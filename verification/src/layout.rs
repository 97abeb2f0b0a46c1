//! A store of bins: lay out the bins of a key over a set of items, place the
//! items bin by bin, then sort them with a comparator.
use vstd::prelude::*;
use core::cmp::Ordering;
use crate::sort::key::{SortKey, KeyFn, key_fn_valid};
use crate::sort::bin_layout::{BinLayout, MAX_BINS_COUNT, power_for};
use crate::sort::spread::{bins_prefix, bin_bounds, keys_in_range, count_bins, bin_starts, place_in_bins, bin_items, lemma_bins_prefix_multiset};
use crate::sort::order::{le_fn_is, is_total_le};
use crate::sort::compare::{compare_fn_valid, compare_le, compare_le_exec, lemma_compare_le_total};
use crate::sort::merge::sort_vec_by_tie;

verus! {

broadcast use vstd::seq_lib::group_to_multiset_ensures;

/// One bin: where it starts, and a cursor or count.
#[derive(Clone, Copy, Debug)]
pub struct Bin {
    pub offset: usize,
    pub data: usize,
}

/// The bins of a key range, with their places.
pub struct BinStore<U: Copy> {
    pub layout: BinLayout<U>,
    pub bins: Vec<Bin>,
}

/// The number of bins a store for `count` items may use: `count`, kept
/// between 2 and `MAX_BINS_COUNT`.
pub open spec fn store_bins_limit(count: int) -> int {
    if count < 2 {
        2
    } else if count > MAX_BINS_COUNT {
        MAX_BINS_COUNT as int
    } else {
        count
    }
}

impl<U: SortKey> BinStore<U> {
    /// The store has one bin per bin of its layout.
    pub open spec fn wf(&self) -> bool {
        &&& self.layout.wf()
        &&& self.bins@.len() == self.layout.bin_count()
    }

    /// No bin has been laid out yet.
    pub open spec fn bins_fresh(&self) -> bool {
        forall|b: int| 0 <= b < self.bins@.len() ==> #[trigger] self.bins@[b].offset == 0 && self.bins@[b].data == 0
    }

    /// Each bin starts where the earlier bins of `items` end, and its cursor is at its start.
    pub open spec fn laid_out_for<T, F: Fn(&T) -> U>(&self, key: F, items: Seq<T>) -> bool {
        forall|b: int| 0 <= b < self.bins@.len() ==> {
            &&& #[trigger] self.bins@[b].offset == bins_prefix(self.layout, key, items, b).len()
            &&& self.bins@[b].data == self.bins@[b].offset
        }
    }

    /// A store for keys from `min` to `max`, for `count` items; `None` unless
    /// `min < max`.
    pub fn new(min: U, max: U, count: usize) -> (r: Option<Self>)
        ensures
            r is None <==> !(min.key_value() < max.key_value()),
            r matches Some(st) ==> {
                &&& st.wf()
                &&& st.bins_fresh()
                &&& st.layout.min_key == min
                &&& st.layout.max_key == max
                &&& st.layout.power == power_for(st.layout.span(), store_bins_limit(count as int))
            },
    {
        if !min.key_lt(max) {
            return None;
        }
        let limit = if count < 2 {
            2
        } else if count > MAX_BINS_COUNT {
            MAX_BINS_COUNT
        } else {
            count
        };
        let layout = BinLayout::new(min, max, limit);
        let bin_count = layout.index(max) + 1;
        let mut bins: Vec<Bin> = Vec::new();
        let mut b: usize = 0;
        while b < bin_count
            invariant
                b <= bin_count,
                bins@.len() == b,
                forall|c: int| 0 <= c < b ==> #[trigger] bins@[c].offset == 0 && bins@[c].data == 0,
            decreases bin_count - b,
        {
            bins.push(Bin { offset: 0, data: 0 });
            b = b + 1;
        }
        Some(BinStore { layout, bins })
    }

    /// Lays out the bins of `items`: each bin gets the place where it starts.
    pub fn layout_bins<T, F: KeyFn<T, U>>(&mut self, items: &[T], key: F)
        requires
            old(self).wf(),
            old(self).bins_fresh(),
            key_fn_valid(key),
            keys_in_range(old(self).layout, key, items@),
        ensures
            final(self).wf(),
            final(self).layout == old(self).layout,
            final(self).laid_out_for(key, items@),
    {
        assert(items@.subrange(0, items@.len() as int) =~= items@);
        let counts = count_bins(&self.layout, key, items, 0, items.len());
        let bounds = bin_starts(&self.layout, key, Ghost(items@), &counts, 0);
        let count = self.bins.len();
        let mut b: usize = 0;
        while b < count
            invariant
                self.wf(),
                self.layout == old(self).layout,
                count == self.bins@.len(),
                b <= count,
                bin_bounds(self.layout, key, items@, bounds@, 0),
                forall|c: int| 0 <= c < b ==> {
                    &&& #[trigger] self.bins@[c].offset == bins_prefix(self.layout, key, items@, c).len()
                    &&& self.bins@[c].data == self.bins@[c].offset
                },
            decreases count - b,
        {
            let start = bounds[b];
            self.bins.set(b, Bin { offset: start, data: start });
            b = b + 1;
        }
    }
}

/// Places each item of `items` in its bin, bins in order.
fn place_by_bins<T: Copy, U: SortKey, F: KeyFn<T, U>>(store: &BinStore<U>, items: &Vec<T>, key: F) -> (r: Vec<T>)
    requires
        store.wf(),
        key_fn_valid(key),
        keys_in_range(store.layout, key, items@),
        store.laid_out_for(key, items@),
    ensures
        r@.to_multiset() == items@.to_multiset(),
{
    let ghost s = items@;
    let ghost n = store.layout.bin_count();
    let len = items.len();
    let mut result: Vec<T> = Vec::new();
    let mut i: usize = 0;
    while i < len
        invariant
            i <= len,
            len == items.len(),
            result@.len() == i,
        decreases len - i,
    {
        result.push(items[i]);
        i = i + 1;
    }
    let mut bounds: Vec<usize> = Vec::new();
    let mut b: usize = 0;
    let count = store.bins.len();
    proof {
        lemma_bins_prefix_multiset(store.layout, key, s);
        assert(bins_prefix(store.layout, key, s, n).to_multiset().len() == bins_prefix(store.layout, key, s, n).len());
    }
    while b < count
        invariant
            store.wf(),
            store.laid_out_for(key, s),
            count == n,
            n == store.layout.bin_count(),
            b <= count,
            bounds@.len() == b,
            forall|c: int| 0 <= c < b ==> #[trigger] bounds@[c] == bins_prefix(store.layout, key, s, c).len(),
        decreases count - b,
    {
        bounds.push(store.bins[b].offset);
        b = b + 1;
    }
    bounds.push(len);
    proof {
        assert(s.subrange(0, len as int) =~= s);
        assert forall|c: int, d: int| 0 <= c <= d <= n implies #[trigger] bounds@[c] <= #[trigger] bounds@[d] by {
            crate::sort::spread::lemma_bins_prefix_len_monotone(store.layout, key, s, c, d);
        }
        assert(bin_bounds(store.layout, key, s, bounds@, 0));
    }
    place_in_bins(&store.layout, key, items, &mut result, 0, len, &bounds);
    proof {
        assert(result@.subrange(0, len as int) =~= result@);
        crate::sort::spread::lemma_bins_laid_multiset(store.layout, key, s, result@, bounds@);
    }
    result
}

impl<U: SortKey> BinStore<U> {
    /// Places the `count` items of `items` bin by bin, then sorts them by `compare`.
    pub fn into_sorted_by_bins_vec<T: Copy, F: KeyFn<T, U>, C: Fn(&T, &T) -> Ordering + Copy>(
        self,
        count: usize,
        items: Vec<T>,
        key: F,
        compare: C,
    ) -> (r: Vec<T>)
        requires
            self.wf(),
            count == items@.len(),
            key_fn_valid(key),
            keys_in_range(self.layout, key, items@),
            self.laid_out_for(key, items@),
            compare_fn_valid(compare),
        ensures
            r@.to_multiset() == items@.to_multiset(),
            forall|i: int, j: int| 0 <= i < j < r@.len() ==> #[trigger] compare_le(compare, r@[i], r@[j]),
    {
        let mut result = place_by_bins(&self, &items, key);
        let tie = move |a: &T, b: &T| -> (r: bool)
            requires
                compare_fn_valid(compare),
            ensures
                r == compare_le(compare, *a, *b),
            { compare_le_exec(&compare, a, b) };
        let ghost order = |a: T, b: T| compare_le(compare, a, b);
        proof {
            lemma_compare_le_total(compare);
            assert(le_fn_is(tie, order));
        }
        sort_vec_by_tie(&mut result, tie, Ghost(order));
        proof {
            assert forall|i: int, j: int| 0 <= i < j < result@.len() implies #[trigger] compare_le(compare, result@[i], result@[j]) by {
                assert(order(result@[i], result@[j]));
            }
        }
        result
    }
}

} // verus!
