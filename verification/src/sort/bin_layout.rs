//! How keys are mapped to bins: the bin of a key is its distance from the
//! smallest key, shifted right by `power`.
use vstd::prelude::*;
use vstd::arithmetic::power2::{pow2, lemma_pow2_pos, lemma_pow2_adds, lemma_pow2_subtracts, lemma_pow2_strictly_increases};
use vstd::arithmetic::div_mod::{lemma_div_is_ordered, lemma_multiply_divide_lt, lemma_div_pos_is_pos, lemma_div_by_multiple, lemma_div_is_ordered_by_denominator};
use vstd::bits::lemma_u64_shr_is_div;
use crate::sort::key::{SortKey, KeyFn, key_fn_valid, key_int, key_of};
use crate::sort::log2::{floor_log2, ceil_log2, ilog2_floor_u64, ilog2_usize, lemma_floor_log2_bounds, lemma_ceil_log2_succ, lemma_floor_log2_lt};

verus! {

/// The largest number of bins is `2^MAX_BINS_POWER`.
pub const MAX_BINS_POWER: u32 = 8;

/// The largest number of bins that one pass distributes into.
pub const MAX_BINS_COUNT: usize = 256;

/// Slices shorter than this are sorted directly, without bins.
pub const BIN_SORT_MIN: usize = 64;

/// The bins of one pass: keys from `min_key` to `max_key`, each bin
/// `2^power` key values wide.
#[derive(Debug, Clone, Copy)]
pub struct BinLayout<K: Copy> {
    pub min_key: K,
    pub max_key: K,
    pub power: usize,
    pub bin_width_is_one: bool,
}

/// The shift of a layout for keys `span` apart and at most `max_bins_count`
/// bins: 0 when every key value gets its own bin, else
/// `ceil(log2(span + 1)) - floor(log2(max_bins_count))`, and never below 0.
pub open spec fn power_for(span: int, max_bins_count: int) -> int {
    if span < max_bins_count {
        0
    } else {
        let scale = ceil_log2((span + 1) as nat) as int;
        let bins_log = floor_log2(max_bins_count as nat) as int;
        if scale > bins_log {
            scale - bins_log
        } else {
            0
        }
    }
}

impl<K: SortKey> BinLayout<K> {
    /// The distance between the smallest and the largest key.
    pub open spec fn span(self) -> int {
        self.max_key.key_value() - self.min_key.key_value()
    }

    /// The bin of key value `v`.
    pub open spec fn bin_of(self, v: int) -> int {
        (v - self.min_key.key_value()) / (pow2(self.power as nat) as int)
    }

    /// The number of bins: one past the bin of the largest key.
    pub open spec fn bin_count(self) -> int {
        self.bin_of(self.max_key.key_value()) + 1
    }

    /// Whether key value `v` falls into one of the bins: it is no smaller than
    /// the smallest key, and its bin is no later than that of the largest.
    pub open spec fn in_range(self, v: int) -> bool {
        self.min_key.key_value() <= v && self.bin_of(v) < self.bin_count()
    }

    /// Every key between the smallest and the largest falls into a bin.
    pub proof fn lemma_in_range(self, v: int)
        requires
            self.wf(),
            self.min_key.key_value() <= v <= self.max_key.key_value(),
        ensures
            self.in_range(v),
    {
        self.lemma_bin_of_monotone(v, self.max_key.key_value());
    }

    /// The layout is well formed.
    pub open spec fn wf(self) -> bool {
        &&& self.min_key.key_value() <= self.max_key.key_value()
        &&& self.power < 64
        &&& self.bin_count() <= usize::MAX
        &&& self.bin_width_is_one == (self.power == 0)
    }

    /// Whether every bin holds a single key value.
    pub fn bin_width_is_one(&self) -> (r: bool)
        ensures
            r == self.bin_width_is_one,
    {
        self.bin_width_is_one
    }

    /// The bin of `value`.
    pub fn index(&self, value: K) -> (r: usize)
        requires
            self.wf(),
            self.min_key.key_value() <= value.key_value(),
            self.bin_of(value.key_value()) <= usize::MAX,
        ensures
            r == self.bin_of(value.key_value()),
            self.in_range(value.key_value()) ==> r < self.bin_count(),
    {
        let offset = value.difference(self.min_key);
        let shift = self.power as u64;
        let bin = offset >> shift;
        proof {
            lemma_u64_shr_is_div(offset, shift);
            lemma_pow2_pos(self.power as nat);
            lemma_div_pos_is_pos(offset as int, pow2(self.power as nat) as int);
        }
        bin as usize
    }

    /// The number of bins.
    pub fn count(&self) -> (r: usize)
        requires
            self.wf(),
        ensures
            r == self.bin_count(),
            1 <= r,
    {
        self.index(self.max_key) + 1
    }

    /// Larger keys never go to earlier bins.
    pub proof fn lemma_bin_of_monotone(self, a: int, b: int)
        requires
            self.wf(),
            self.min_key.key_value() <= a <= b,
        ensures
            0 <= self.bin_of(a) <= self.bin_of(b),
    {
        lemma_pow2_pos(self.power as nat);
        lemma_div_is_ordered(a - self.min_key.key_value(), b - self.min_key.key_value(), pow2(self.power as nat) as int);
        lemma_div_pos_is_pos(a - self.min_key.key_value(), pow2(self.power as nat) as int);
    }

    /// Larger key values never go to earlier bins, inside or outside the range.
    pub proof fn lemma_bin_of_ordered(self, a: int, b: int)
        requires
            a <= b,
        ensures
            self.bin_of(a) <= self.bin_of(b),
    {
        lemma_pow2_pos(self.power as nat);
        lemma_div_is_ordered(a - self.min_key.key_value(), b - self.min_key.key_value(), pow2(self.power as nat) as int);
    }

    /// A layout for keys from `min_key` to `max_key` with at most
    /// `max_bins_count` bins.
    pub fn new(min_key: K, max_key: K, max_bins_count: usize) -> (r: Self)
        requires
            min_key.key_value() <= max_key.key_value(),
            1 <= max_bins_count,
            max_bins_count >= 2 || max_key.key_value() - min_key.key_value() < 0x8000_0000_0000_0000,
        ensures
            r.min_key == min_key,
            r.max_key == max_key,
            r.power == power_for(r.span(), max_bins_count as int),
            r.bin_width_is_one == (r.span() < max_bins_count),
            r.wf(),
            r.bin_count() <= max_bins_count,
            max_bins_count >= 2 && r.span() >= 1 ==> r.bin_count() >= 2,
    {
        let length = max_key.difference(min_key);
        if length < max_bins_count as u64 {
            let r = BinLayout { min_key, max_key, power: 0, bin_width_is_one: true };
            proof {
                assert(pow2(0) == 1) by {
                    vstd::arithmetic::power2::lemma2_to64();
                }
            }
            return r;
        }
        let scale = ilog2_floor_u64(length) + 1;
        let bins_log = ilog2_usize(max_bins_count);
        let power = scale.saturating_sub(bins_log) as usize;
        let r = BinLayout { min_key, max_key, power, bin_width_is_one: false };
        proof {
            let s = length as nat;
            let f = floor_log2(s);
            let b = bins_log as nat;
            lemma_ceil_log2_succ(s);
            lemma_floor_log2_bounds(s);
            lemma_floor_log2_bounds(max_bins_count as nat);
            // the scale exceeds the logarithm of the bin count
            if f + 1 <= b {
                if f + 1 < b {
                    lemma_pow2_strictly_increases(f + 1, b);
                }
                assert(false);
            }
            let p = (f + 1 - b) as nat;
            assert(power == p);
            lemma_pow2_adds(p, b);
            lemma_pow2_pos(p);
            lemma_pow2_pos(b);
            // span / 2^p < 2^b <= max_bins_count
            lemma_multiply_divide_lt(s as int, pow2(p) as int, pow2(b) as int);
            // span / 2^p >= 2^(b - 1) >= 1 when b >= 1
            if b >= 1 {
                lemma_pow2_adds(p, (b - 1) as nat);
                lemma_div_is_ordered((pow2(p) * pow2((b - 1) as nat)) as int, s as int, pow2(p) as int);
                lemma_div_by_multiple(pow2((b - 1) as nat) as int, pow2(p) as int);
                lemma_pow2_pos((b - 1) as nat);
                assert(pow2(p) * pow2((b - 1) as nat) == pow2((b - 1) as nat) * pow2(p)) by (nonlinear_arith);
            }
            if max_bins_count < 2 {
                vstd::arithmetic::power2::lemma2_to64_rest();
                assert(pow2(63) == 0x8000_0000_0000_0000);
                assert(s == max_key.key_value() - min_key.key_value());
                assert(s >= 1);
                lemma_floor_log2_lt(s, 63);
            }
            if max_bins_count >= 2 {
                assert(b >= 1) by {
                    if b == 0 {
                        vstd::arithmetic::power2::lemma2_to64();
                    }
                }
            }
        }
        r
    }
}

/// All elements of `s` have the same key.
pub open spec fn keys_all_equal<T, K: SortKey, F: Fn(&T) -> K>(key: F, s: Seq<T>) -> bool {
    forall|i: int, j: int| 0 <= i < s.len() && 0 <= j < s.len() ==> #[trigger] key_int(key, s[i]) == #[trigger] key_int(key, s[j])
}

/// `k` is the smallest key value in `s`.
pub open spec fn is_min_key<T, K: SortKey, F: Fn(&T) -> K>(key: F, s: Seq<T>, k: int) -> bool {
    &&& exists|i: int| 0 <= i < s.len() && #[trigger] key_int(key, s[i]) == k
    &&& forall|i: int| 0 <= i < s.len() ==> k <= #[trigger] key_int(key, s[i])
}

/// `k` is the largest key value in `s`.
pub open spec fn is_max_key<T, K: SortKey, F: Fn(&T) -> K>(key: F, s: Seq<T>, k: int) -> bool {
    &&& exists|i: int| 0 <= i < s.len() && #[trigger] key_int(key, s[i]) == k
    &&& forall|i: int| 0 <= i < s.len() ==> #[trigger] key_int(key, s[i]) <= k
}

/// The smallest and the largest key of `s[lo..hi)`.
pub fn min_max_keys<T, K: SortKey, F: KeyFn<T, K>>(s: &[T], lo: usize, hi: usize, key: F) -> (r: (K, K))
    requires
        lo < hi <= s@.len(),
        key_fn_valid(key),
    ensures
        is_min_key(key, s@.subrange(lo as int, hi as int), r.0.key_value()),
        is_max_key(key, s@.subrange(lo as int, hi as int), r.1.key_value()),
{
    let ghost t = s@.subrange(lo as int, hi as int);
    let first = key_of(key, &s[lo]);
    let mut min_key = first;
    let mut max_key = first;
    let mut i: usize = lo + 1;
    assert(key_int(key, t[0]) == first.key_value());
    while i < hi
        invariant
            lo < i <= hi <= s@.len(),
            key_fn_valid(key),
            t == s@.subrange(lo as int, hi as int),
            exists|a: int| 0 <= a < i - lo && #[trigger] key_int(key, t[a]) == min_key.key_value(),
            exists|a: int| 0 <= a < i - lo && #[trigger] key_int(key, t[a]) == max_key.key_value(),
            forall|a: int| 0 <= a < i - lo ==> min_key.key_value() <= #[trigger] key_int(key, t[a]) <= max_key.key_value(),
        decreases hi - i,
    {
        let k = key_of(key, &s[i]);
        assert(t[i - lo] == s@[i as int]);
        if k.key_lt(min_key) {
            min_key = k;
        }
        if max_key.key_lt(k) {
            max_key = k;
        }
        i = i + 1;
    }
    (min_key, max_key)
}

impl<K: SortKey> BinLayout<K> {
    /// The layout of the keys of `s[lo..hi)`, or `None` when the range is
    /// empty or all its keys are equal (then there is nothing to distribute).
    pub fn with_keys_in<T, F: KeyFn<T, K>>(s: &[T], lo: usize, hi: usize, key: F) -> (r: Option<Self>)
        requires
            lo <= hi <= s@.len(),
            key_fn_valid(key),
        ensures
            r is None <==> keys_all_equal(key, s@.subrange(lo as int, hi as int)),
            r matches Some(l) ==> {
                &&& l.wf()
                &&& is_min_key(key, s@.subrange(lo as int, hi as int), l.min_key.key_value())
                &&& is_max_key(key, s@.subrange(lo as int, hi as int), l.max_key.key_value())
                &&& l.power == power_for(l.span(), MAX_BINS_COUNT as int)
                &&& l.bin_width_is_one == (l.span() < MAX_BINS_COUNT)
                &&& l.bin_count() >= 2
            },
    {
        if lo == hi {
            return None;
        }
        let (min_key, max_key) = min_max_keys(s, lo, hi, key);
        let ghost t = s@.subrange(lo as int, hi as int);
        if !min_key.key_lt(max_key) {
            assert(keys_all_equal(key, t)) by {
                assert forall|i: int, j: int| 0 <= i < t.len() && 0 <= j < t.len() implies #[trigger] key_int(key, t[i]) == #[trigger] key_int(key, t[j]) by {
                }
            }
            return None;
        }
        assert(!keys_all_equal(key, t)) by {
            let i = choose|i: int| 0 <= i < t.len() && #[trigger] key_int(key, t[i]) == min_key.key_value();
            let j = choose|j: int| 0 <= j < t.len() && #[trigger] key_int(key, t[j]) == max_key.key_value();
            assert(key_int(key, t[i]) != key_int(key, t[j]));
        }
        Some(Self::new(min_key, max_key, MAX_BINS_COUNT))
    }

    /// The layout of the keys of `array`, or `None` when `array` is empty or
    /// all its keys are equal.
    pub fn with_keys<T, F: KeyFn<T, K>>(array: &[T], key: F) -> (r: Option<Self>)
        requires
            key_fn_valid(key),
        ensures
            r is None <==> keys_all_equal(key, array@),
            r matches Some(l) ==> {
                &&& l.wf()
                &&& is_min_key(key, array@, l.min_key.key_value())
                &&& is_max_key(key, array@, l.max_key.key_value())
                &&& l.power == power_for(l.span(), MAX_BINS_COUNT as int)
                &&& l.bin_width_is_one == (l.span() < MAX_BINS_COUNT)
                &&& l.bin_count() >= 2
            },
    {
        let r = Self::with_keys_in(array, 0, array.len(), key);
        assert(array@.subrange(0, array@.len() as int) =~= array@);
        r
    }
}

} // verus!
