//! Distributing a range into bins by key: a stable counting sort on the bin
//! index.
use vstd::prelude::*;
use crate::sort::key::{SortKey, KeyFn, key_fn_valid, key_int, key_of};
use crate::sort::bin_layout::{BinLayout, is_min_key, is_max_key};
use crate::sort::order::{ElemOrder, sorted_range};
use vstd::multiset::Multiset;
use vstd::arithmetic::power2::pow2;

verus! {

broadcast use vstd::seq_lib::group_to_multiset_ensures;

/// The test "the key of `t` falls in bin `b`".
pub open spec fn in_bin<T, K: SortKey, F: Fn(&T) -> K>(layout: BinLayout<K>, key: F, b: int) -> spec_fn(T) -> bool {
    |t: T| layout.bin_of(key_int(key, t)) == b
}

/// The elements of `s` whose key falls in bin `b`, in their order in `s`.
pub open spec fn bin_items<T, K: SortKey, F: Fn(&T) -> K>(layout: BinLayout<K>, key: F, s: Seq<T>, b: int) -> Seq<T> {
    s.filter(in_bin(layout, key, b))
}

/// Bins `0 .. n` of `s`, one after the other.
pub open spec fn bins_prefix<T, K: SortKey, F: Fn(&T) -> K>(layout: BinLayout<K>, key: F, s: Seq<T>, n: int) -> Seq<T>
    decreases n,
{
    if n <= 0 {
        Seq::empty()
    } else {
        bins_prefix(layout, key, s, n - 1) + bin_items(layout, key, s, n - 1)
    }
}

/// Every key in `s` lies within the layout.
pub open spec fn keys_in_range<T, K: SortKey, F: Fn(&T) -> K>(layout: BinLayout<K>, key: F, s: Seq<T>) -> bool {
    forall|i: int| 0 <= i < s.len() ==> #[trigger] layout.in_range(key_int(key, s[i]))
}

/// Appending `x` to `s` appends `x` to its own bin and to no other.
pub proof fn lemma_bin_items_push<T, K: SortKey, F: Fn(&T) -> K>(layout: BinLayout<K>, key: F, s: Seq<T>, x: T, b: int)
    ensures
        bin_items(layout, key, s.push(x), b) == if layout.bin_of(key_int(key, x)) == b {
            bin_items(layout, key, s, b).push(x)
        } else {
            bin_items(layout, key, s, b)
        },
{
    s.lemma_filter_push(x, in_bin(layout, key, b));
}

/// Every element of bin `b` has its key in bin `b`.
pub proof fn lemma_bin_items_in_bin<T, K: SortKey, F: Fn(&T) -> K>(layout: BinLayout<K>, key: F, s: Seq<T>, b: int, i: int)
    requires
        0 <= i < bin_items(layout, key, s, b).len(),
    ensures
        layout.bin_of(key_int(key, bin_items(layout, key, s, b)[i])) == b,
{
    s.lemma_filter_pred(in_bin(layout, key, b), i);
}

/// A bin of a prefix is no longer than the same bin of the whole.
pub proof fn lemma_bin_items_prefix_len<T, K: SortKey, F: Fn(&T) -> K>(layout: BinLayout<K>, key: F, s: Seq<T>, j: int, b: int)
    requires
        0 <= j <= s.len(),
    ensures
        bin_items(layout, key, s.subrange(0, j), b).len() <= bin_items(layout, key, s, b).len(),
{
    let p = in_bin(layout, key, b);
    assert(s =~= s.subrange(0, j) + s.subrange(j, s.len() as int));
    Seq::filter_distributes_over_add(s.subrange(0, j), s.subrange(j, s.len() as int), p);
}

/// Appending `x` adds `x` once to the bins before `n` when its bin is below `n`.
pub proof fn lemma_bins_prefix_push<T, K: SortKey, F: Fn(&T) -> K>(layout: BinLayout<K>, key: F, s: Seq<T>, x: T, n: int)
    requires
        n >= 0,
    ensures
        bins_prefix(layout, key, s.push(x), n).to_multiset() == if 0 <= layout.bin_of(key_int(key, x)) < n {
            bins_prefix(layout, key, s, n).to_multiset().insert(x)
        } else {
            bins_prefix(layout, key, s, n).to_multiset()
        },
    decreases n,
{
    if n > 0 {
        lemma_bins_prefix_push(layout, key, s, x, n - 1);
        lemma_bin_items_push(layout, key, s, x, n - 1);
        vstd::seq_lib::lemma_multiset_commutative(bins_prefix(layout, key, s.push(x), n - 1), bin_items(layout, key, s.push(x), n - 1));
        vstd::seq_lib::lemma_multiset_commutative(bins_prefix(layout, key, s, n - 1), bin_items(layout, key, s, n - 1));
        broadcast use vstd::multiset::group_multiset_axioms;
        let m1 = bins_prefix(layout, key, s, n - 1).to_multiset();
        let m2 = bin_items(layout, key, s, n - 1).to_multiset();
        if layout.bin_of(key_int(key, x)) == n - 1 {
            assert(m1.add(m2.insert(x)) =~= m1.add(m2).insert(x));
        } else if 0 <= layout.bin_of(key_int(key, x)) < n - 1 {
            assert(m1.insert(x).add(m2) =~= m1.add(m2).insert(x));
        }
    } else {
        assert(bins_prefix(layout, key, s.push(x), n) =~= Seq::<T>::empty());
    }
}

/// The bins, laid end to end, hold exactly the elements of `s`.
pub proof fn lemma_bins_prefix_multiset<T, K: SortKey, F: Fn(&T) -> K>(layout: BinLayout<K>, key: F, s: Seq<T>)
    requires
        layout.wf(),
        keys_in_range(layout, key, s),
    ensures
        bins_prefix(layout, key, s, layout.bin_count()).to_multiset() == s.to_multiset(),
    decreases s.len(),
{
    if s.len() == 0 {
        lemma_bins_prefix_empty(layout, key, s, layout.bin_count());
        assert(s.to_multiset() =~= Multiset::<T>::empty());
    } else {
        let t = s.drop_last();
        let x = s.last();
        assert(s =~= t.push(x));
        assert(keys_in_range(layout, key, t)) by {
            assert forall|i: int| 0 <= i < t.len() implies #[trigger] layout.in_range(key_int(key, t[i])) by {
                assert(t[i] == s[i]);
                assert(layout.in_range(key_int(key, s[i])));
            }
        }
        lemma_bins_prefix_multiset(layout, key, t);
        layout.lemma_bin_of_monotone(layout.min_key.key_value(), layout.max_key.key_value());
        lemma_bins_prefix_push(layout, key, t, x, layout.bin_count());
        assert(layout.in_range(key_int(key, s[s.len() - 1])));
        layout.lemma_bin_of_monotone(layout.min_key.key_value(), key_int(key, x));
    }
}

/// The bins of an empty sequence are empty.
pub proof fn lemma_bins_prefix_empty<T, K: SortKey, F: Fn(&T) -> K>(layout: BinLayout<K>, key: F, s: Seq<T>, n: int)
    requires
        s.len() == 0,
    ensures
        bins_prefix(layout, key, s, n).len() == 0,
    decreases n,
{
    if n > 0 {
        lemma_bins_prefix_empty(layout, key, s, n - 1);
        s.lemma_filter_len(in_bin(layout, key, n - 1));
    }
}

/// More bins are never shorter.
pub proof fn lemma_bins_prefix_len_monotone<T, K: SortKey, F: Fn(&T) -> K>(layout: BinLayout<K>, key: F, s: Seq<T>, a: int, b: int)
    requires
        0 <= a <= b,
    ensures
        bins_prefix(layout, key, s, a).len() <= bins_prefix(layout, key, s, b).len(),
    decreases b - a,
{
    if a < b {
        lemma_bins_prefix_len_monotone(layout, key, s, a, b - 1);
    }
}

/// `out[lo..pos)` holds bins `0 .. b` of `s`: the same elements, sorted
/// under `o`, and all with keys in bins below `b`.
pub open spec fn bins_done<T, K: SortKey, F: Fn(&T) -> K, O: ElemOrder<T>>(
    layout: BinLayout<K>,
    key: F,
    o: O,
    s: Seq<T>,
    out: Seq<T>,
    lo: int,
    pos: int,
    b: int,
) -> bool {
    &&& out.subrange(lo, pos).to_multiset() == bins_prefix(layout, key, s, b).to_multiset()
    &&& sorted_range(o, out, lo, pos)
    &&& forall|i: int| lo <= i < pos ==> #[trigger] layout.bin_of(key_int(key, out[i])) < b
}

/// `o` puts smaller keys first.
pub open spec fn key_major<T, K: SortKey, F: Fn(&T) -> K, O: ElemOrder<T>>(key: F, o: O) -> bool {
    forall|x: T, y: T| key_int(key, x) < key_int(key, y) ==> #[trigger] o.le(x, y)
}

/// Nothing is done before the first bin.
pub proof fn lemma_bins_done_start<T, K: SortKey, F: Fn(&T) -> K, O: ElemOrder<T>>(
    layout: BinLayout<K>,
    key: F,
    o: O,
    s: Seq<T>,
    out: Seq<T>,
    lo: int,
)
    requires
        0 <= lo <= out.len(),
    ensures
        bins_done(layout, key, o, s, out, lo, lo, 0),
{
    assert(out.subrange(lo, lo) =~= Seq::<T>::empty());
    assert(bins_prefix(layout, key, s, 0) =~= Seq::<T>::empty());
}

/// Appending the sorted bin `b` at `out[pos..pos2)` gives bins `0 ..= b`.
pub proof fn lemma_bins_done_extend<T, K: SortKey, F: Fn(&T) -> K, O: ElemOrder<T>>(
    layout: BinLayout<K>,
    key: F,
    o: O,
    s: Seq<T>,
    out: Seq<T>,
    lo: int,
    pos: int,
    pos2: int,
    b: int,
)
    requires
        layout.wf(),
        0 <= b,
        0 <= lo <= pos <= pos2 <= out.len(),
        bins_done(layout, key, o, s, out, lo, pos, b),
        out.subrange(pos, pos2).to_multiset() == bin_items(layout, key, s, b).to_multiset(),
        sorted_range(o, out, pos, pos2),
        key_major(key, o),
    ensures
        bins_done(layout, key, o, s, out, lo, pos2, b + 1),
{
    let region = out.subrange(pos, pos2);
    assert(out.subrange(lo, pos2) =~= out.subrange(lo, pos) + region);
    vstd::seq_lib::lemma_multiset_commutative(out.subrange(lo, pos), region);
    vstd::seq_lib::lemma_multiset_commutative(bins_prefix(layout, key, s, b), bin_items(layout, key, s, b));
    assert forall|j: int| pos <= j < pos2 implies #[trigger] layout.bin_of(key_int(key, out[j])) == b by {
        assert(region[j - pos] == out[j]);
        assert(region.to_multiset().count(out[j]) > 0);
        assert(bin_items(layout, key, s, b).contains(out[j]));
        let k = choose|k: int| 0 <= k < bin_items(layout, key, s, b).len() && bin_items(layout, key, s, b)[k] == out[j];
        lemma_bin_items_in_bin(layout, key, s, b, k);
    }
    assert forall|i: int, j: int| lo <= i < j < pos2 implies #[trigger] o.le(out[i], out[j]) by {
        if i < pos && pos <= j {
            assert(layout.bin_of(key_int(key, out[i])) < b);
            assert(layout.bin_of(key_int(key, out[j])) == b);
            if key_int(key, out[j]) <= key_int(key, out[i]) {
                layout.lemma_bin_of_ordered(key_int(key, out[j]), key_int(key, out[i]));
            }
        }
    }
    assert forall|i: int| lo <= i < pos2 implies #[trigger] layout.bin_of(key_int(key, out[i])) < b + 1 by {
        if i >= pos {
            assert(layout.bin_of(key_int(key, out[i])) == b);
        }
    }
}

/// When all bins are done, the range holds the elements of `s`, sorted.
pub proof fn lemma_bins_done_finish<T, K: SortKey, F: Fn(&T) -> K, O: ElemOrder<T>>(
    layout: BinLayout<K>,
    key: F,
    o: O,
    s: Seq<T>,
    out: Seq<T>,
    lo: int,
    hi: int,
)
    requires
        layout.wf(),
        keys_in_range(layout, key, s),
        bins_done(layout, key, o, s, out, lo, hi, layout.bin_count()),
    ensures
        out.subrange(lo, hi).to_multiset() == s.to_multiset(),
        sorted_range(o, out, lo, hi),
{
    lemma_bins_prefix_multiset(layout, key, s);
}

/// When every bin is one key value wide, all elements of a bin share one key.
pub proof fn lemma_bin_single_key<T, K: SortKey, F: Fn(&T) -> K>(layout: BinLayout<K>, key: F, s: Seq<T>, b: int, i: int, j: int)
    requires
        layout.power == 0,
        0 <= i < bin_items(layout, key, s, b).len(),
        0 <= j < bin_items(layout, key, s, b).len(),
    ensures
        key_int(key, bin_items(layout, key, s, b)[i]) == key_int(key, bin_items(layout, key, s, b)[j]),
{
    lemma_bin_items_in_bin(layout, key, s, b, i);
    lemma_bin_items_in_bin(layout, key, s, b, j);
    assert(pow2(0) == 1) by {
        vstd::arithmetic::power2::lemma2_to64();
    }
}

/// The first bin holds the smallest key and the last bin the largest, so
/// neither is empty.
pub proof fn lemma_end_bins_nonempty<T, K: SortKey, F: Fn(&T) -> K>(layout: BinLayout<K>, key: F, s: Seq<T>)
    requires
        layout.wf(),
        is_min_key(key, s, layout.min_key.key_value()),
        is_max_key(key, s, layout.max_key.key_value()),
    ensures
        bin_items(layout, key, s, 0).len() >= 1,
        bin_items(layout, key, s, layout.bin_count() - 1).len() >= 1,
{
    let i = choose|i: int| 0 <= i < s.len() && #[trigger] key_int(key, s[i]) == layout.min_key.key_value();
    let j = choose|j: int| 0 <= j < s.len() && #[trigger] key_int(key, s[j]) == layout.max_key.key_value();
    assert(layout.bin_of(layout.min_key.key_value()) == 0) by {
        vstd::arithmetic::power2::lemma_pow2_pos(layout.power as nat);
        vstd::arithmetic::div_mod::lemma_div_by_multiple(0, pow2(layout.power as nat) as int);
    }
    s.lemma_filter_contains(in_bin(layout, key, 0), i);
    s.lemma_filter_contains(in_bin(layout, key, layout.bin_count() - 1), j);
}

/// The elements of a range holding the same multiset as bin `b` all lie in bin `b`.
pub proof fn lemma_region_in_bin<T, K: SortKey, F: Fn(&T) -> K>(layout: BinLayout<K>, key: F, s: Seq<T>, out: Seq<T>, pos: int, pos2: int, b: int, i: int)
    requires
        0 <= pos <= i < pos2 <= out.len(),
        out.subrange(pos, pos2).to_multiset() == bin_items(layout, key, s, b).to_multiset(),
    ensures
        layout.bin_of(key_int(key, out[i])) == b,
{
    let region = out.subrange(pos, pos2);
    assert(region[i - pos] == out[i]);
    assert(region.to_multiset().count(out[i]) > 0);
    assert(bin_items(layout, key, s, b).contains(out[i]));
    let k = choose|k: int| 0 <= k < bin_items(layout, key, s, b).len() && bin_items(layout, key, s, b)[k] == out[i];
    lemma_bin_items_in_bin(layout, key, s, b, k);
}

/// In a layout one key value per bin wide, a range holding bin `b` has one key.
pub proof fn lemma_region_single_key<T, K: SortKey, F: Fn(&T) -> K>(layout: BinLayout<K>, key: F, s: Seq<T>, out: Seq<T>, pos: int, pos2: int, b: int, i: int, j: int)
    requires
        layout.power == 0,
        0 <= pos <= i < pos2 <= out.len(),
        pos <= j < pos2,
        out.subrange(pos, pos2).to_multiset() == bin_items(layout, key, s, b).to_multiset(),
    ensures
        key_int(key, out[i]) == key_int(key, out[j]),
{
    lemma_region_in_bin(layout, key, s, out, pos, pos2, b, i);
    lemma_region_in_bin(layout, key, s, out, pos, pos2, b, j);
    assert(pow2(0) == 1) by {
        vstd::arithmetic::power2::lemma2_to64();
    }
}

/// A range holding the same multiset as `s` holds only elements of `s`.
pub proof fn lemma_region_from<T>(s: Seq<T>, out: Seq<T>, pos: int, pos2: int, i: int) -> (k: int)
    requires
        0 <= pos <= i < pos2 <= out.len(),
        out.subrange(pos, pos2).to_multiset() == s.to_multiset(),
    ensures
        0 <= k < s.len(),
        s[k] == out[i],
{
    let region = out.subrange(pos, pos2);
    assert(region[i - pos] == out[i]);
    assert(region.to_multiset().count(out[i]) > 0);
    assert(s.contains(out[i]));
    choose|k: int| 0 <= k < s.len() && s[k] == out[i]
}

/// `bounds` cut a range starting at `lo` into the bins of `s`: bin `b`
/// starts at `bounds[b]` and ends at `bounds[b + 1]`.
pub open spec fn bin_bounds<T, K: SortKey, F: Fn(&T) -> K>(layout: BinLayout<K>, key: F, s: Seq<T>, bounds: Seq<usize>, lo: int) -> bool {
    &&& bounds.len() == layout.bin_count() + 1
    &&& forall|b: int| 0 <= b <= layout.bin_count() ==> #[trigger] bounds[b] == lo + bins_prefix(layout, key, s, b).len()
    &&& bounds[layout.bin_count()] == lo + s.len()
    &&& forall|a: int, b: int| 0 <= a <= b <= layout.bin_count() ==> #[trigger] bounds[a] <= #[trigger] bounds[b]
}

/// Bins laid end to end in `out` according to `bounds` hold the elements of `s`.
pub proof fn lemma_bins_laid_multiset<T, K: SortKey, F: Fn(&T) -> K>(layout: BinLayout<K>, key: F, s: Seq<T>, out: Seq<T>, bounds: Seq<usize>)
    requires
        layout.wf(),
        keys_in_range(layout, key, s),
        bin_bounds(layout, key, s, bounds, 0),
        out.len() == s.len(),
        forall|b: int| 0 <= b < layout.bin_count() ==> #[trigger] out.subrange(bounds[b] as int, bounds[b + 1] as int)
            == bin_items(layout, key, s, b),
    ensures
        out.to_multiset() == s.to_multiset(),
{
    layout.lemma_bin_of_monotone(layout.min_key.key_value(), layout.max_key.key_value());
    lemma_bins_laid_prefix(layout, key, s, out, bounds, layout.bin_count());
    lemma_bins_prefix_multiset(layout, key, s);
    assert(out.subrange(0, out.len() as int) =~= out);
}

/// The first `c` bins of `out` are the first `c` bins of `s`.
pub proof fn lemma_bins_laid_prefix<T, K: SortKey, F: Fn(&T) -> K>(layout: BinLayout<K>, key: F, s: Seq<T>, out: Seq<T>, bounds: Seq<usize>, c: int)
    requires
        layout.wf(),
        0 <= c <= layout.bin_count(),
        bin_bounds(layout, key, s, bounds, 0),
        out.len() == s.len(),
        forall|b: int| 0 <= b < layout.bin_count() ==> #[trigger] out.subrange(bounds[b] as int, bounds[b + 1] as int)
            == bin_items(layout, key, s, b),
    ensures
        out.subrange(0, bounds[c] as int) == bins_prefix(layout, key, s, c),
    decreases c,
{
    if c == 0 {
        assert(bounds[0] == bins_prefix(layout, key, s, 0).len());
        assert(out.subrange(0, 0) =~= bins_prefix(layout, key, s, 0));
    } else {
        let d = c - 1;
        lemma_bins_laid_prefix(layout, key, s, out, bounds, d);
        assert(bounds[d] <= bounds[d + 1] <= bounds[layout.bin_count()]);
        assert(out.subrange(bounds[d] as int, bounds[d + 1] as int) == bin_items(layout, key, s, d));
        assert(out.subrange(0, bounds[c] as int) =~= out.subrange(0, bounds[d] as int) + out.subrange(bounds[d] as int, bounds[d + 1] as int));
    }
}

/// In bins `0 .. m` laid end to end, the element at `i` lies in a bin below `c`
/// exactly when `i` falls before the end of bin `c - 1`.
pub proof fn lemma_bins_prefix_position<T, K: SortKey, F: Fn(&T) -> K>(layout: BinLayout<K>, key: F, s: Seq<T>, m: int, i: int, c: int)
    requires
        0 <= c <= m,
        0 <= i < bins_prefix(layout, key, s, m).len(),
    ensures
        i < bins_prefix(layout, key, s, c).len() ==> layout.bin_of(key_int(key, bins_prefix(layout, key, s, m)[i])) < c,
        i >= bins_prefix(layout, key, s, c).len() ==> layout.bin_of(key_int(key, bins_prefix(layout, key, s, m)[i])) >= c,
    decreases m,
{
    let p = bins_prefix(layout, key, s, m - 1);
    let items = bin_items(layout, key, s, m - 1);
    assert(bins_prefix(layout, key, s, m) == p + items);
    if i < p.len() {
        assert(bins_prefix(layout, key, s, m)[i] == p[i]);
        if c <= m - 1 {
            lemma_bins_prefix_position(layout, key, s, m - 1, i, c);
        } else {
            lemma_bins_prefix_position(layout, key, s, m - 1, i, m - 1);
        }
    } else {
        assert(bins_prefix(layout, key, s, m)[i] == items[i - p.len()]);
        lemma_bin_items_in_bin(layout, key, s, m - 1, i - p.len());
        if c <= m - 1 {
            lemma_bins_prefix_len_monotone(layout, key, s, c, m - 1);
        }
    }
}

/// Counts the elements of each bin in `src[lo..hi)`.
pub fn count_bins<T, K: SortKey, F: KeyFn<T, K>>(layout: &BinLayout<K>, key: F, src: &[T], lo: usize, hi: usize) -> (counts: Vec<usize>)
    requires
        layout.wf(),
        key_fn_valid(key),
        lo <= hi <= src@.len(),
        keys_in_range(*layout, key, src@.subrange(lo as int, hi as int)),
    ensures
        counts.len() == layout.bin_count(),
        forall|b: int| 0 <= b < layout.bin_count() ==> #[trigger] counts@[b] == bin_items(*layout, key, src@.subrange(lo as int, hi as int), b).len(),
{
    let ghost s = src@.subrange(lo as int, hi as int);
    let ghost n = layout.bin_count();
    let count = layout.count();
    // count the elements of each bin
    let mut counts: Vec<usize> = vec![0; count];
    let mut j: usize = lo;
    proof {
        assert forall|b: int| 0 <= b < n implies #[trigger] counts@[b] == bin_items(*layout, key, src@.subrange(lo as int, lo as int), b).len() by {
            assert(src@.subrange(lo as int, lo as int) =~= Seq::<T>::empty());
            src@.subrange(lo as int, lo as int).lemma_filter_len(in_bin(*layout, key, b));
        }
    }
    while j < hi
        invariant
            layout.wf(),
            key_fn_valid(key),
            lo <= j <= hi <= src@.len(),
            n == layout.bin_count(),
            count == n,
            counts.len() == n,
            s == src@.subrange(lo as int, hi as int),
            keys_in_range(*layout, key, s),
            forall|b: int| 0 <= b < n ==> #[trigger] counts@[b] == bin_items(*layout, key, src@.subrange(lo as int, j as int), b).len(),
        decreases hi - j,
    {
        assert(s[j - lo] == src@[j as int]);
        assert(layout.in_range(key_int(key, s[j - lo])));
        let b = layout.index(key_of(key, &src[j]));
        proof {
            let pre = src@.subrange(lo as int, j as int);
            assert(src@.subrange(lo as int, j + 1) =~= pre.push(src@[j as int]));
            assert forall|c: int| 0 <= c < n implies bin_items(*layout, key, src@.subrange(lo as int, j + 1), c).len()
                == bin_items(*layout, key, pre, c).len() + (if c == b { 1int } else { 0int }) by {
                lemma_bin_items_push(*layout, key, pre, src@[j as int], c);
            }
            pre.lemma_filter_len(in_bin(*layout, key, b as int));
        }
        let c = counts[b];
        counts.set(b, c + 1);
        j = j + 1;
    }
    assert(src@.subrange(lo as int, j as int) == s);
    counts
}

/// Where each bin of `s` starts when the bins are laid end to end from `lo`,
/// given the size of each bin; the last entry is where the last bin ends.
pub fn bin_starts<T, K: SortKey, F: Fn(&T) -> K>(layout: &BinLayout<K>, key: F, Ghost(s): Ghost<Seq<T>>, counts: &Vec<usize>, lo: usize) -> (bounds: Vec<usize>)
    requires
        layout.wf(),
        keys_in_range(*layout, key, s),
        lo + s.len() <= usize::MAX,
        counts.len() == layout.bin_count(),
        forall|b: int| 0 <= b < layout.bin_count() ==> #[trigger] counts@[b] == bin_items(*layout, key, s, b).len(),
    ensures
        bin_bounds(*layout, key, s, bounds@, lo as int),
{
    let ghost n = layout.bin_count();
    let count = layout.count();
    let mut bounds: Vec<usize> = Vec::new();
    bounds.push(lo);
    let mut b: usize = 0;
    proof {
        lemma_bins_prefix_multiset(*layout, key, s);
        assert(bins_prefix(*layout, key, s, n).to_multiset().len() == bins_prefix(*layout, key, s, n).len());
        assert(s.to_multiset().len() == s.len());
        assert(bins_prefix(*layout, key, s, 0) =~= Seq::<T>::empty());
    }
    while b < count
        invariant
            layout.wf(),
            lo + s.len() <= usize::MAX,
            n == layout.bin_count(),
            count == n,
            counts.len() == n,
            0 <= b <= n,
            bounds.len() == b + 1,
            bins_prefix(*layout, key, s, n).len() == s.len(),
            forall|c: int| 0 <= c < n ==> #[trigger] counts@[c] == bin_items(*layout, key, s, c).len(),
            forall|c: int| 0 <= c <= b ==> #[trigger] bounds@[c] == lo + bins_prefix(*layout, key, s, c).len(),
            forall|c: int, d: int| 0 <= c <= d <= b ==> #[trigger] bounds@[c] <= #[trigger] bounds@[d],
        decreases n - b,
    {
        proof {
            lemma_bins_prefix_len_monotone(*layout, key, s, b + 1, n);
        }
        let start = bounds[b];
        let next = start + counts[b];
        bounds.push(next);
        b = b + 1;
    }
    bounds
}

/// Copies each element of `src[lo..hi)` to the next free place of its bin in
/// `dst`, the bins of `dst` starting at `bounds`.
pub fn place_in_bins<T: Copy, K: SortKey, F: KeyFn<T, K>>(
    layout: &BinLayout<K>,
    key: F,
    src: &Vec<T>,
    dst: &mut Vec<T>,
    lo: usize,
    hi: usize,
    bounds: &Vec<usize>,
)
    requires
        layout.wf(),
        key_fn_valid(key),
        lo <= hi <= src.len(),
        old(dst).len() == src.len(),
        keys_in_range(*layout, key, src@.subrange(lo as int, hi as int)),
        bin_bounds(*layout, key, src@.subrange(lo as int, hi as int), bounds@, lo as int),
    ensures
        final(dst).len() == src.len(),
        forall|k: int| 0 <= k < lo || hi <= k < src.len() ==> final(dst)@[k] == old(dst)@[k],
        forall|b: int|
            0 <= b < layout.bin_count() ==> #[trigger] final(dst)@.subrange(bounds@[b] as int, bounds@[b + 1] as int)
                == bin_items(*layout, key, src@.subrange(lo as int, hi as int), b),
{
    let ghost s = src@.subrange(lo as int, hi as int);
    let ghost n = layout.bin_count();
    let count = layout.count();
    let mut counts: Vec<usize> = Vec::new();
    let mut b: usize = 0;
    while b < count
        invariant
            n == layout.bin_count(),
            count == n,
            bounds.len() == n + 1,
            0 <= b <= n,
            counts.len() == b,
            forall|c: int| 0 <= c < b ==> #[trigger] counts@[c] == bounds@[c],
        decreases n - b,
    {
        counts.push(bounds[b]);
        b = b + 1;
    }
    // place each element at its bin's cursor
    let ghost old_dst = dst@;
    let mut j: usize = lo;
    proof {
        assert forall|c: int| 0 <= c < n implies #[trigger] dst@.subrange(counts@[c] as int, counts@[c] as int)
            == bin_items(*layout, key, src@.subrange(lo as int, lo as int), c) by {
            assert(src@.subrange(lo as int, lo as int) =~= Seq::<T>::empty());
            assert(dst@.subrange(counts@[c] as int, counts@[c] as int) =~= Seq::<T>::empty());
            assert(bin_items(*layout, key, Seq::<T>::empty(), c) =~= Seq::<T>::empty()) by {
                reveal(Seq::filter);
            }
        }
        assert forall|c: int| 0 <= c < n implies #[trigger] counts@[c] == bounds@[c] + bin_items(*layout, key, src@.subrange(lo as int, lo as int), c).len() by {
            assert(src@.subrange(lo as int, lo as int) =~= Seq::<T>::empty());
            assert(bin_items(*layout, key, Seq::<T>::empty(), c) =~= Seq::<T>::empty()) by {
                reveal(Seq::filter);
            }
        }
    }
    while j < hi
        invariant
            layout.wf(),
            key_fn_valid(key),
            lo <= j <= hi <= src.len(),
            dst.len() == src.len(),
            n == layout.bin_count(),
            count == n,
            counts.len() == n,
            s == src@.subrange(lo as int, hi as int),
            keys_in_range(*layout, key, s),
            bin_bounds(*layout, key, s, bounds@, lo as int),
            forall|k: int| 0 <= k < lo || hi <= k < src.len() ==> dst@[k] == old_dst[k],
            forall|c: int| 0 <= c < n ==> #[trigger] counts@[c] == bounds@[c] + bin_items(*layout, key, src@.subrange(lo as int, j as int), c).len(),
            forall|c: int| 0 <= c < n ==> #[trigger] dst@.subrange(bounds@[c] as int, counts@[c] as int)
                == bin_items(*layout, key, src@.subrange(lo as int, j as int), c),
        decreases hi - j,
    {
        assert(s[j - lo] == src@[j as int]);
        assert(layout.in_range(key_int(key, s[j - lo])));
        let x = src[j];
        let b = layout.index(key_of(key, &x));
        let ghost pre = src@.subrange(lo as int, j as int);
        let ghost before = dst@;
        proof {
            assert(src@.subrange(lo as int, j + 1) =~= pre.push(x));
            assert(src@.subrange(lo as int, j + 1) =~= s.subrange(0, j + 1 - lo));
            lemma_bin_items_push(*layout, key, pre, x, b as int);
            lemma_bin_items_prefix_len(*layout, key, s, j + 1 - lo, b as int);
            assert(bins_prefix(*layout, key, s, b + 1) == bins_prefix(*layout, key, s, b as int) + bin_items(*layout, key, s, b as int));
            assert(bounds@[b + 1] == bounds@[b as int] + bin_items(*layout, key, s, b as int).len());
        }
        let p = counts[b];
        dst.set(p, x);
        counts.set(b, p + 1);
        proof {
            assert forall|c: int| 0 <= c < n implies #[trigger] counts@[c] == bounds@[c] + bin_items(*layout, key, src@.subrange(lo as int, j + 1), c).len() by {
                lemma_bin_items_push(*layout, key, pre, x, c);
            }
            assert forall|c: int| 0 <= c < n implies #[trigger] dst@.subrange(bounds@[c] as int, counts@[c] as int)
                == bin_items(*layout, key, src@.subrange(lo as int, j + 1), c) by {
                lemma_bin_items_push(*layout, key, pre, x, c);
                if c == b {
                    assert(dst@.subrange(bounds@[c] as int, counts@[c] as int)
                        =~= before.subrange(bounds@[c] as int, p as int).push(x));
                } else {
                    lemma_bin_items_prefix_len(*layout, key, s, j - lo, c);
                    assert(pre =~= s.subrange(0, j - lo));
                    assert(bins_prefix(*layout, key, s, c + 1) == bins_prefix(*layout, key, s, c) + bin_items(*layout, key, s, c));
                    assert(bounds@[c + 1] == bounds@[c] + bin_items(*layout, key, s, c).len());
                    if c < b {
                        assert(bounds@[c + 1] <= bounds@[b as int]);
                    } else {
                        assert(bounds@[b + 1] <= bounds@[c]);
                    }
                    assert(dst@.subrange(bounds@[c] as int, counts@[c] as int)
                        =~= before.subrange(bounds@[c] as int, counts@[c] as int));
                }
            }
        }
        j = j + 1;
    }
    proof {
        assert forall|c: int| 0 <= c < n implies #[trigger] dst@.subrange(bounds@[c] as int, bounds@[c + 1] as int)
            == bin_items(*layout, key, s, c) by {
            assert(src@.subrange(lo as int, j as int) == s);
            assert(counts@[c] == bounds@[c] + bin_items(*layout, key, s, c).len());
            assert(bins_prefix(*layout, key, s, c + 1) == bins_prefix(*layout, key, s, c) + bin_items(*layout, key, s, c));
            assert(bounds@[c + 1] == lo + bins_prefix(*layout, key, s, c + 1).len());
            assert(bounds@[c] == lo + bins_prefix(*layout, key, s, c).len());
            assert(counts@[c] == bounds@[c + 1]);
            assert(dst@.subrange(bounds@[c] as int, counts@[c] as int) == bin_items(*layout, key, src@.subrange(lo as int, j as int), c));
        }
    }
}

/// Copies `src[lo..hi)` into `dst[lo..hi)` grouped by bin: bin after bin,
/// and inside a bin in the order of `src`. Returns where each bin starts,
/// followed by `hi`.
pub fn spread<T: Copy, K: SortKey, F: KeyFn<T, K>>(
    layout: &BinLayout<K>,
    key: F,
    src: &Vec<T>,
    dst: &mut Vec<T>,
    lo: usize,
    hi: usize,
) -> (bounds: Vec<usize>)
    requires
        layout.wf(),
        key_fn_valid(key),
        lo <= hi <= src.len(),
        old(dst).len() == src.len(),
        keys_in_range(*layout, key, src@.subrange(lo as int, hi as int)),
    ensures
        final(dst).len() == src.len(),
        forall|k: int| 0 <= k < lo || hi <= k < src.len() ==> final(dst)@[k] == old(dst)@[k],
        bin_bounds(*layout, key, src@.subrange(lo as int, hi as int), bounds@, lo as int),
        forall|b: int|
            0 <= b < layout.bin_count() ==> #[trigger] final(dst)@.subrange(bounds@[b] as int, bounds@[b + 1] as int)
                == bin_items(*layout, key, src@.subrange(lo as int, hi as int), b),
{
    let counts = count_bins(layout, key, src.as_slice(), lo, hi);
    let bounds = bin_starts(layout, key, Ghost(src@.subrange(lo as int, hi as int)), &counts, lo);
    place_in_bins(layout, key, src, dst, lo, hi, &bounds);
    bounds
}

} // verus!
