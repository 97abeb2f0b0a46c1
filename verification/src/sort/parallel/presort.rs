//! Presorting for the parallel sorts: every fragment is distributed into
//! bins on its own, then the pieces of each bin are gathered from all
//! fragments, bin after bin. The result is the same stable distribution as
//! one pass over the whole vector, and the marks between bins cut it into
//! parts that can be sorted independently.
use vstd::prelude::*;
use crate::sort::key::{SortKey, KeyFn, key_fn_valid, key_int};
use crate::sort::bin_layout::{BinLayout, MAX_BINS_COUNT, is_min_key, is_max_key, keys_all_equal, power_for};
use crate::sort::spread::{bin_items, bins_prefix, bin_bounds, keys_in_range, lemma_bins_prefix_multiset, lemma_bins_prefix_position, lemma_bins_prefix_len_monotone};
use crate::sort::parallel::par_min_max::par_min_max;
use crate::sort::order::fit_buffer;
use crate::sort::parallel::fragmentation::{tiles, fragment_by_count};
use crate::sort::parallel::spread_jobs::{SpreadJob, par_run_jobs};
use crate::sort::parallel::part_sort::{copy_part, put_part};

verus! {

broadcast use vstd::seq_lib::group_to_multiset_ensures;

/// A piece `[start, end)` of a buffer holding elements of bin `index`.
#[derive(Clone, Copy, Debug)]
pub struct IdRange {
    pub index: usize,
    pub start: usize,
    pub end: usize,
}

/// The pieces of `buf` named by `ids` for bin `c`, one after the other.
pub open spec fn gather<T>(buf: Seq<T>, ids: Seq<IdRange>, c: int) -> Seq<T>
    decreases ids.len(),
{
    if ids.len() == 0 {
        Seq::empty()
    } else {
        let rest = gather(buf, ids.drop_last(), c);
        if ids.last().index == c {
            rest + buf.subrange(ids.last().start as int, ids.last().end as int)
        } else {
            rest
        }
    }
}

/// The pieces `rs` of `buf`, one after the other.
pub open spec fn pieces<T>(buf: Seq<T>, rs: Seq<(usize, usize)>) -> Seq<T>
    decreases rs.len(),
{
    if rs.len() == 0 {
        Seq::empty()
    } else {
        pieces(buf, rs.drop_last()) + buf.subrange(rs.last().0 as int, rs.last().1 as int)
    }
}

/// The groups `gs` of pieces of `buf`, one after the other.
pub open spec fn groups_concat<T>(buf: Seq<T>, gs: Seq<Vec<(usize, usize)>>) -> Seq<T>
    decreases gs.len(),
{
    if gs.len() == 0 {
        Seq::empty()
    } else {
        groups_concat(buf, gs.drop_last()) + pieces(buf, gs.last()@)
    }
}

/// Every id names a nonempty piece ending by `e`, for a bin below `n`.
pub open spec fn ids_within(ids: Seq<IdRange>, e: int, n: int) -> bool {
    forall|k: int| 0 <= k < ids.len() ==> #[trigger] ids[k].start < ids[k].end && ids[k].end <= e && ids[k].index < n
}

/// Where the first `f` fragments end.
pub open spec fn covered(frags: Seq<(usize, usize)>, f: int) -> int {
    if f <= 0 {
        0
    } else {
        frags[f - 1].1 as int
    }
}

/// Changing `buf` at or after `e` changes no piece that ends by `e`.
pub proof fn lemma_gather_frame<T>(buf1: Seq<T>, buf2: Seq<T>, ids: Seq<IdRange>, c: int, e: int)
    requires
        e <= buf1.len(),
        e <= buf2.len(),
        buf1.subrange(0, e) == buf2.subrange(0, e),
        forall|k: int| 0 <= k < ids.len() ==> #[trigger] ids[k].start <= ids[k].end && ids[k].end <= e,
    ensures
        gather(buf1, ids, c) == gather(buf2, ids, c),
    decreases ids.len(),
{
    if ids.len() > 0 {
        let last = ids.last();
        assert(ids.drop_last().len() == ids.len() - 1);
        assert forall|k: int| 0 <= k < ids.drop_last().len() implies #[trigger] ids.drop_last()[k].start <= ids.drop_last()[k].end
            && ids.drop_last()[k].end <= e by {
            assert(ids.drop_last()[k] == ids[k]);
        }
        lemma_gather_frame(buf1, buf2, ids.drop_last(), c, e);
        assert(ids[ids.len() - 1] == last);
        assert(ids[ids.len() - 1].start <= ids[ids.len() - 1].end && ids[ids.len() - 1].end <= e);
        assert(buf1.subrange(last.start as int, last.end as int) =~= buf2.subrange(last.start as int, last.end as int)) by {
            assert forall|k: int| last.start <= k < last.end implies #[trigger] buf1[k] == buf2[k] by {
                assert(buf1.subrange(0, e)[k] == buf2.subrange(0, e)[k]);
                assert(buf1.subrange(0, e)[k] == buf1[k]);
                assert(buf2.subrange(0, e)[k] == buf2[k]);
            }
        }
    }
}

/// The pieces of the nonempty bins below `c` of `s` spread from `base` on,
/// bin after bin, each with its bin.
pub open spec fn frag_ids<T, K: SortKey, F: Fn(&T) -> K>(layout: BinLayout<K>, key: F, s: Seq<T>, base: int, c: int) -> Seq<IdRange>
    decreases c,
{
    if c <= 0 {
        Seq::empty()
    } else {
        let rest = frag_ids(layout, key, s, base, c - 1);
        let lo = base + bins_prefix(layout, key, s, c - 1).len();
        let hi = base + bins_prefix(layout, key, s, c).len();
        if lo < hi {
            rest.push(IdRange { index: (c - 1) as usize, start: lo as usize, end: hi as usize })
        } else {
            rest
        }
    }
}

/// The pieces of the first `f` fragments of `s`, fragment after fragment,
/// each fragment spread in place.
pub open spec fn all_ids<T, K: SortKey, F: Fn(&T) -> K>(layout: BinLayout<K>, key: F, s: Seq<T>, frags: Seq<(usize, usize)>, f: int) -> Seq<IdRange>
    decreases f,
{
    if f <= 0 {
        Seq::empty()
    } else {
        all_ids(layout, key, s, frags, f - 1)
            + frag_ids(layout, key, s.subrange(frags[f - 1].0 as int, frags[f - 1].1 as int), frags[f - 1].0 as int, layout.bin_count())
    }
}

/// `buf[a..)` holds `s` spread by bin: bin `d` of `s` right after bins `0..d`.
pub open spec fn spread_at<T, K: SortKey, F: Fn(&T) -> K>(layout: BinLayout<K>, key: F, buf: Seq<T>, s: Seq<T>, a: int) -> bool {
    &&& bins_prefix(layout, key, s, layout.bin_count()).len() == s.len()
    &&& forall|d: int| 0 <= d < layout.bin_count() ==> #[trigger] buf.subrange(
        a + bins_prefix(layout, key, s, d).len(),
        a + bins_prefix(layout, key, s, d + 1).len(),
    ) == bin_items(layout, key, s, d)
}

/// `ids` name consecutive nonempty ranges that cover `[lo, hi)` in order.
pub open spec fn ranges_tile(ids: Seq<IdRange>, lo: int, hi: int) -> bool {
    &&& ids.len() == 0 ==> lo == hi
    &&& ids.len() > 0 ==> ids[0].start == lo && ids[ids.len() - 1].end == hi
    &&& forall|k: int| 0 <= k < ids.len() ==> (#[trigger] ids[k]).start < ids[k].end
    &&& forall|k: int| 0 <= k < ids.len() - 1 ==> (#[trigger] ids[k]).end == ids[k + 1].start
}

/// Ranges that tile `[lo, mid)` followed by ranges that tile `[mid, hi)` tile `[lo, hi)`.
pub proof fn lemma_ranges_tile_concat(a: Seq<IdRange>, b: Seq<IdRange>, lo: int, mid: int, hi: int)
    requires
        ranges_tile(a, lo, mid),
        ranges_tile(b, mid, hi),
    ensures
        ranges_tile(a + b, lo, hi),
{
    let c = a + b;
    assert forall|k: int| 0 <= k < c.len() implies (#[trigger] c[k]).start < c[k].end by {
        if k >= a.len() {
            assert(c[k] == b[k - a.len()]);
        }
    }
    assert forall|k: int| 0 <= k < c.len() - 1 implies (#[trigger] c[k]).end == c[k + 1].start by {
        if k + 1 < a.len() {
        } else if k + 1 == a.len() {
            assert(c[k + 1] == b[0]);
        } else {
            assert(c[k] == b[k - a.len()]);
            assert(c[k + 1] == b[k + 1 - a.len()]);
        }
    }
    if a.len() == 0 {
        assert(c =~= b);
    } else if b.len() == 0 {
        assert(c =~= a);
    } else {
        assert(c[c.len() - 1] == b[b.len() - 1]);
    }
}

/// The pieces of one fragment spread at `base` tile `[base, base + s.len())`.
pub proof fn lemma_frag_ids_tile<T, K: SortKey, F: Fn(&T) -> K>(layout: BinLayout<K>, key: F, s: Seq<T>, base: int, c: int)
    requires
        0 <= base,
        0 <= c <= layout.bin_count(),
        bins_prefix(layout, key, s, layout.bin_count()).len() == s.len(),
        base + s.len() <= usize::MAX,
    ensures
        ranges_tile(frag_ids(layout, key, s, base, c), base, base + bins_prefix(layout, key, s, c).len()),
    decreases c,
{
    if c > 0 {
        lemma_frag_ids_tile(layout, key, s, base, c - 1);
        lemma_bins_prefix_len_monotone(layout, key, s, c - 1, c);
        lemma_bins_prefix_len_monotone(layout, key, s, c, layout.bin_count());
        let lo = base + bins_prefix(layout, key, s, c - 1).len();
        let hi = base + bins_prefix(layout, key, s, c).len();
        if lo < hi {
            let one = seq![IdRange { index: (c - 1) as usize, start: lo as usize, end: hi as usize }];
            lemma_ranges_tile_concat(frag_ids(layout, key, s, base, c - 1), one, base, lo, hi);
            assert(frag_ids(layout, key, s, base, c) =~= frag_ids(layout, key, s, base, c - 1) + one);
        }
    }
}

/// The pieces of the first `f` fragments tile `[0, covered(frags, f))`.
pub proof fn lemma_all_ids_tile<T, K: SortKey, F: Fn(&T) -> K>(layout: BinLayout<K>, key: F, s: Seq<T>, frags: Seq<(usize, usize)>, f: int)
    requires
        layout.wf(),
        tiles(frags, s.len() as int),
        keys_in_range(layout, key, s),
        0 <= f <= frags.len(),
    ensures
        ranges_tile(all_ids(layout, key, s, frags, f), 0, covered(frags, f)),
    decreases f,
{
    if f > 0 {
        lemma_all_ids_tile(layout, key, s, frags, f - 1);
        let a = frags[f - 1].0 as int;
        let b = frags[f - 1].1 as int;
        lemma_tiles_end(frags, s.len() as int, f - 1);
        assert(a <= b);
        if f > 1 {
            assert(frags[f - 2].1 == frags[f - 1].0);
        }
        let part = s.subrange(a, b);
        assert(keys_in_range(layout, key, part)) by {
            assert forall|i: int| 0 <= i < part.len() implies #[trigger] layout.in_range(key_int(key, part[i])) by {
                assert(part[i] == s[a + i]);
                assert(layout.in_range(key_int(key, s[a + i])));
            }
        }
        lemma_bins_prefix_multiset(layout, key, part);
        assert(bins_prefix(layout, key, part, layout.bin_count()).to_multiset().len()
            == bins_prefix(layout, key, part, layout.bin_count()).len());
        assert(part.to_multiset().len() == part.len());
        layout.lemma_bin_of_monotone(layout.min_key.key_value(), layout.max_key.key_value());
        lemma_frag_ids_tile(layout, key, part, a, layout.bin_count());
        lemma_ranges_tile_concat(all_ids(layout, key, s, frags, f - 1), frag_ids(layout, key, part, a, layout.bin_count()), 0, a, b);
    }
}

/// Fragments that tile a range come in order.
pub proof fn lemma_tiles_ordered(frags: Seq<(usize, usize)>, len: int, g: int, h: int)
    requires
        tiles(frags, len),
        0 <= g < h < frags.len(),
    ensures
        frags[g].1 <= frags[h].0,
    decreases h - g,
{
    if g + 1 < h {
        lemma_tiles_ordered(frags, len, g + 1, h);
    }
}

/// Adds `a` to every bound.
pub fn shift_bounds(bounds: &Vec<usize>, a: usize, top: usize) -> (r: Vec<usize>)
    requires
        forall|i: int| 0 <= i < bounds@.len() ==> a + #[trigger] bounds@[i] <= top,
    ensures
        r@.len() == bounds@.len(),
        forall|i: int| 0 <= i < bounds@.len() ==> #[trigger] r@[i] == a + bounds@[i],
{
    let mut r: Vec<usize> = Vec::new();
    let mut i: usize = 0;
    while i < bounds.len()
        invariant
            i <= bounds@.len(),
            r@.len() == i,
            forall|k: int| 0 <= k < bounds@.len() ==> a + #[trigger] bounds@[k] <= top,
            forall|k: int| 0 <= k < i ==> #[trigger] r@[k] == a + bounds@[k],
        decreases bounds@.len() - i,
    {
        r.push(a + bounds[i]);
        i = i + 1;
    }
    r
}

/// Spreads every fragment of `src`, each on a worker of rayon's pool, into its
/// place in `buf`, and lists, fragment after fragment and bin after bin, the
/// nonempty pieces of each bin.
#[verifier::spinoff_prover]
#[verifier::rlimit(40)]
pub fn spread_fragments<T: Copy + Send, K: SortKey + Sync, F: KeyFn<T, K> + Send + Sync>(
    layout: &BinLayout<K>,
    key: F,
    src: &Vec<T>,
    buf: &mut Vec<T>,
    frags: &Vec<(usize, usize)>,
) -> (ids: Vec<IdRange>)
    requires
        layout.wf(),
        key_fn_valid(key),
        old(buf).len() == src.len(),
        tiles(frags@, src@.len() as int),
        keys_in_range(*layout, key, src@),
    ensures
        final(buf).len() == src.len(),
        forall|k: int| 0 <= k < ids@.len() ==> #[trigger] ids@[k].start < ids@[k].end && ids@[k].end <= src@.len()
            && ids@[k].index < layout.bin_count(),
        forall|c: int| 0 <= c < layout.bin_count() ==> #[trigger] gather(final(buf)@, ids@, c) == bin_items(*layout, key, src@, c),
        ids@ == all_ids(*layout, key, src@, frags@, frags@.len() as int),
        ranges_tile(ids@, 0, src@.len() as int),
        forall|g: int| 0 <= g < frags@.len() ==> #[trigger] spread_at(*layout, key, final(buf)@,
            src@.subrange(frags@[g].0 as int, frags@[g].1 as int), frags@[g].0 as int),
{
    let ghost n = layout.bin_count();
    let ghost s = src@;
    let count = layout.count();
    let mut jobs: Vec<SpreadJob<T>> = Vec::new();
    let mut j: usize = 0;
    while j < frags.len()
        invariant
            s == src@,
            tiles(frags@, s.len() as int),
            keys_in_range(*layout, key, s),
            j <= frags@.len(),
            jobs@.len() == j,
            forall|g: int| 0 <= g < j ==> (#[trigger] jobs@[g]).src@ == s.subrange(frags@[g].0 as int, frags@[g].1 as int),
            forall|g: int| 0 <= g < j ==> (#[trigger] jobs@[g]).ready(*layout, key),
        decreases frags@.len() - j,
    {
        let (a, b) = frags[j];
        proof {
            lemma_tiles_end(frags@, s.len() as int, j as int);
            assert(frags@[j as int].0 <= frags@[j as int].1);
        }
        let part = copy_part(src, a, b);
        let room = copy_part(src, a, b);
        proof {
            assert forall|i: int| 0 <= i < part@.len() implies #[trigger] layout.in_range(key_int(key, part@[i])) by {
                assert(part@[i] == s[a + i]);
            }
        }
        jobs.push(SpreadJob { src: part, buf: room, bounds: Vec::new() });
        j = j + 1;
    }
    par_run_jobs(layout, key, &mut jobs);
    let mut ids: Vec<IdRange> = Vec::new();
    let mut f: usize = 0;
    proof {
        assert forall|c: int| 0 <= c < n implies #[trigger] gather(buf@, ids@, c) == bin_items(*layout, key, s.subrange(0, 0), c) by {
            assert(s.subrange(0, 0) =~= Seq::<T>::empty());
            assert(bin_items(*layout, key, Seq::<T>::empty(), c) =~= Seq::<T>::empty()) by {
                reveal(Seq::filter);
            }
        }
    }
    while f < frags.len()
        invariant
            layout.wf(),
            key_fn_valid(key),
            n == layout.bin_count(),
            count == n,
            s == src@,
            buf.len() == src.len(),
            tiles(frags@, s.len() as int),
            keys_in_range(*layout, key, s),
            f <= frags@.len(),
            ids_within(ids@, covered(frags@, f as int), n),
            forall|c: int| 0 <= c < n ==> #[trigger] gather(buf@, ids@, c)
                == bin_items(*layout, key, s.subrange(0, covered(frags@, f as int)), c),
            jobs@.len() == frags@.len(),
            forall|g: int| 0 <= g < frags@.len() ==> (#[trigger] jobs@[g]).src@ == s.subrange(frags@[g].0 as int, frags@[g].1 as int),
            forall|g: int| 0 <= g < frags@.len() ==> (#[trigger] jobs@[g]).done(*layout, key),
            ids@ == all_ids(*layout, key, s, frags@, f as int),
            forall|g: int| 0 <= g < f ==> #[trigger] spread_at(*layout, key, buf@,
                s.subrange(frags@[g].0 as int, frags@[g].1 as int), frags@[g].0 as int),
        decreases frags@.len() - f,
    {
        let (a, b) = frags[f];
        let ghost e = covered(frags@, f as int);
        proof {
            assert(a == e) by {
                if f > 0 {
                    assert(frags@[f - 1].1 == frags@[f as int].0);
                }
            }
            assert(frags@[f as int].0 <= frags@[f as int].1);
            assert(b <= s.len()) by {
                lemma_tiles_end(frags@, s.len() as int, f as int);
            }
            assert forall|i: int| 0 <= i < s.subrange(a as int, b as int).len() implies #[trigger] layout.in_range(key_int(key, s.subrange(a as int, b as int)[i])) by {
                assert(s.subrange(a as int, b as int)[i] == s[a + i]);
            }
        }
        let ghost buf_before = buf@;
        let ghost ids_before = ids@;
        assert(a == e);
        let ghost frag = s.subrange(a as int, b as int);
        let ghost job = jobs@[f as int];
        proof {
            assert(job.src@ == frag);
            assert(job.done(*layout, key));
            assert(job.buf@.len() == b - a);
            assert forall|i: int| 0 <= i < job.bounds@.len() implies a + #[trigger] job.bounds@[i] <= b by {
                assert(job.bounds@[i] <= job.bounds@[n]);
            }
        }
        put_part(buf, a, &jobs[f].buf);
        let bounds = shift_bounds(&jobs[f].bounds, a, b);
        proof {
            assert forall|d: int| 0 <= d < n implies #[trigger] buf@.subrange(bounds@[d] as int, bounds@[d + 1] as int)
                == bin_items(*layout, key, frag, d) by {
                let lo = job.bounds@[d] as int;
                let hi = job.bounds@[d + 1] as int;
                assert(lo <= hi <= b - a);
                assert(buf@.subrange(a + lo, a + hi) =~= buf@.subrange(a as int, b as int).subrange(lo, hi));
                assert(buf@.subrange(a as int, a + job.buf@.len()) == job.buf@);
            }
            assert(bin_bounds(*layout, key, frag, bounds@, a as int)) by {
                assert forall|x: int, y: int| 0 <= x <= y <= n implies #[trigger] bounds@[x] <= #[trigger] bounds@[y] by {
                    assert(job.bounds@[x] <= job.bounds@[y]);
                }
            }
            assert(spread_at(*layout, key, buf@, frag, a as int)) by {
                assert forall|d: int| 0 <= d < n implies #[trigger] buf@.subrange(
                    a + bins_prefix(*layout, key, frag, d).len(),
                    a + bins_prefix(*layout, key, frag, d + 1).len(),
                ) == bin_items(*layout, key, frag, d) by {
                    assert(bounds@[d] == a + bins_prefix(*layout, key, frag, d).len());
                    assert(bounds@[d + 1] == a + bins_prefix(*layout, key, frag, d + 1).len());
                }
                assert(bounds@[n] == a + bins_prefix(*layout, key, frag, n).len());
            }
            assert forall|g: int| 0 <= g < f implies #[trigger] spread_at(*layout, key, buf@,
                s.subrange(frags@[g].0 as int, frags@[g].1 as int), frags@[g].0 as int) by {
                let fg = s.subrange(frags@[g].0 as int, frags@[g].1 as int);
                let ag = frags@[g].0 as int;
                lemma_tiles_ordered(frags@, s.len() as int, g, f as int);
                lemma_tiles_end(frags@, s.len() as int, g);
                assert(frags@[g].0 <= frags@[g].1);
                assert(fg.len() == frags@[g].1 - frags@[g].0);
                assert(spread_at(*layout, key, buf_before, fg, ag));
                assert(bins_prefix(*layout, key, fg, n).len() == fg.len());
                assert forall|d: int| 0 <= d < n implies #[trigger] buf@.subrange(
                    ag + bins_prefix(*layout, key, fg, d).len(),
                    ag + bins_prefix(*layout, key, fg, d + 1).len(),
                ) == bin_items(*layout, key, fg, d) by {
                    lemma_bins_prefix_len_monotone(*layout, key, fg, d, d + 1);
                    lemma_bins_prefix_len_monotone(*layout, key, fg, d + 1, n);
                    assert(spread_at(*layout, key, buf_before, fg, ag));
                    let lo = ag + bins_prefix(*layout, key, fg, d).len();
                    let hi = ag + bins_prefix(*layout, key, fg, d + 1).len();
                    assert(hi <= a);
                    assert(buf@.subrange(lo, hi) =~= buf_before.subrange(lo, hi));
                    assert(spread_at(*layout, key, buf_before, fg, ag));
                }
            }
        }
        let ghost buf_mid = buf@;
        proof {
            assert forall|k: int| 0 <= k < ids@.len() implies #[trigger] ids@[k].start < ids@[k].end && ids@[k].end <= b
                && ids@[k].index < n by {
                assert(ids_within(ids_before, a as int, n));
            }
            assert forall|c: int| 0 <= c < n implies #[trigger] gather(buf@, ids_before, c) == gather(buf_before, ids_before, c) by {
                assert(buf@.subrange(0, a as int) =~= buf_before.subrange(0, a as int));
                lemma_gather_frame(buf@, buf_before, ids_before, c, a as int);
            }
        }
        let mut c: usize = 0;
        while c < count
            invariant
                layout.wf(),
                n == layout.bin_count(),
                count == n,
                c <= n,
                a <= b <= s.len(),
                buf@.len() == s.len(),
                bin_bounds(*layout, key, s.subrange(a as int, b as int), bounds@, a as int),
                forall|d: int| 0 <= d < n ==> #[trigger] buf@.subrange(bounds@[d] as int, bounds@[d + 1] as int)
                    == bin_items(*layout, key, s.subrange(a as int, b as int), d),
                ids@.len() >= ids_before.len(),
                ids_within(ids@, b as int, n as int),
                forall|k: int| ids_before.len() <= k < ids@.len() ==> #[trigger] ids@[k].index < c,
                forall|d: int| 0 <= d < n ==> #[trigger] gather(buf@, ids@, d) == gather(buf@, ids_before, d)
                    + if d < c { bin_items(*layout, key, s.subrange(a as int, b as int), d) } else { Seq::empty() },
                buf@ == buf_mid,
                ids@ == ids_before + frag_ids(*layout, key, s.subrange(a as int, b as int), a as int, c as int),
            decreases n - c,
        {
            let start = bounds[c];
            let end = bounds[c + 1];
            let ghost ids_mid = ids@;
            proof {
                assert(bounds@[c as int] <= bounds@[c + 1] <= bounds@[n]);
            }
            if start < end {
                ids.push(IdRange { index: c, start, end });
            }
            proof {
                let fr = s.subrange(a as int, b as int);
                assert(start == a + bins_prefix(*layout, key, fr, c as int).len());
                assert(end == a + bins_prefix(*layout, key, fr, c + 1).len());
                assert(ids@ =~= ids_before + frag_ids(*layout, key, fr, a as int, c + 1));
                let piece = buf@.subrange(bounds@[c as int] as int, bounds@[c + 1] as int);
                assert(piece == bin_items(*layout, key, s.subrange(a as int, b as int), c as int));
                assert forall|d: int| 0 <= d < n implies #[trigger] gather(buf@, ids@, d) == gather(buf@, ids_before, d)
                    + if d < c + 1 { bin_items(*layout, key, s.subrange(a as int, b as int), d) } else { Seq::empty() } by {
                    let items = bin_items(*layout, key, s.subrange(a as int, b as int), d);
                    let old_g = gather(buf@, ids_before, d);
                    let mid = gather(buf@, ids_mid, d);
                    if start < end {
                        assert(ids@.drop_last() =~= ids_mid);
                        assert(ids@.last().index == c);
                        if d == c {
                            assert(mid =~= old_g);
                            assert(gather(buf@, ids@, d) == mid + piece);
                        } else {
                            assert(gather(buf@, ids@, d) == mid);
                            if d < c {
                                assert(mid == old_g + items);
                            } else {
                                assert(mid =~= old_g);
                                assert(old_g + Seq::<T>::empty() =~= old_g);
                            }
                        }
                    } else {
                        assert(ids@ == ids_mid);
                        if d == c {
                            assert(piece =~= Seq::<T>::empty());
                            assert(mid =~= old_g);
                            assert(old_g + items =~= old_g);
                        } else if d > c {
                            assert(mid =~= old_g);
                            assert(old_g + Seq::<T>::empty() =~= old_g);
                        }
                    }
                }
            }
            c = c + 1;
        }
        proof {
            assert(b == frags@[f as int].1);
            assert forall|d: int| 0 <= d < n implies #[trigger] gather(buf@, ids@, d)
                == bin_items(*layout, key, s.subrange(0, b as int), d) by {
                assert(s.subrange(0, b as int) =~= s.subrange(0, a as int) + s.subrange(a as int, b as int));
                Seq::filter_distributes_over_add(s.subrange(0, a as int), s.subrange(a as int, b as int), crate::sort::spread::in_bin(*layout, key, d));
            }
        }
        let ghost f_old = f;
        f = f + 1;
        assert(covered(frags@, f as int) == frags@[f_old as int].1);
    }
    proof {
        if frags@.len() == 0 {
            assert(s.len() == 0);
        } else {
            assert(frags@[frags@.len() - 1].1 == s.len());
            assert(f == frags@.len());
            assert(covered(frags@, f as int) == s.len());
        }
        assert(covered(frags@, f as int) == s.len());
        assert(ids_within(ids@, s.len() as int, n));
        assert(s.subrange(0, covered(frags@, f as int)) =~= s);
        lemma_all_ids_tile(*layout, key, s, frags@, frags@.len() as int);
    }
    ids
}

/// The last fragment of a tiling ends the range, and so no fragment ends later.
pub proof fn lemma_tiles_end(frags: Seq<(usize, usize)>, len: int, f: int)
    requires
        tiles(frags, len),
        0 <= f < frags.len(),
    ensures
        frags[f].1 <= len,
    decreases frags.len() - f,
{
    if f < frags.len() - 1 {
        lemma_tiles_end(frags, len, f + 1);
        assert(frags[f].1 == frags[f + 1].0);
    }
}

/// Appending an id to the list appends its piece to the gathering of its bin.
pub proof fn lemma_gather_push<T>(buf: Seq<T>, ids: Seq<IdRange>, k: int, c: int)
    requires
        0 <= k < ids.len(),
    ensures
        gather(buf, ids.take(k + 1), c) == gather(buf, ids.take(k), c) + if ids[k].index == c {
            buf.subrange(ids[k].start as int, ids[k].end as int)
        } else {
            Seq::empty()
        },
{
    assert(ids.take(k + 1).drop_last() =~= ids.take(k));
    assert(ids.take(k + 1).last() == ids[k]);
    if ids[k].index != c {
        assert(gather(buf, ids.take(k), c) + Seq::<T>::empty() =~= gather(buf, ids.take(k), c));
    }
}

/// The pieces that `ids` name for bin `c`, in their order in `ids`.
pub open spec fn bin_pieces(ids: Seq<IdRange>, c: int) -> Seq<(usize, usize)>
    decreases ids.len(),
{
    if ids.len() == 0 {
        Seq::empty()
    } else {
        let rest = bin_pieces(ids.drop_last(), c);
        if ids.last().index == c {
            rest.push((ids.last().start, ids.last().end))
        } else {
            rest
        }
    }
}

/// Collects, bin by bin, the pieces that `ids` name for the bin, dropping bins
/// without pieces. Returns the groups and, as a ghost, the bin of each group.
#[verifier::spinoff_prover]
pub fn group_by_bin<T, K: SortKey, F: Fn(&T) -> K>(
    layout: &BinLayout<K>,
    key: F,
    ids: &Vec<IdRange>,
    Ghost(buf): Ghost<Seq<T>>,
    Ghost(s): Ghost<Seq<T>>,
) -> (r: (Vec<Vec<(usize, usize)>>, Ghost<Seq<int>>))
    requires
        layout.wf(),
        forall|k: int| 0 <= k < ids@.len() ==> #[trigger] ids@[k].start < ids@[k].end && ids@[k].end <= buf.len(),
        forall|c: int| 0 <= c < layout.bin_count() ==> #[trigger] gather(buf, ids@, c) == bin_items(*layout, key, s, c),
    ensures
        r.1@.len() == r.0@.len(),
        forall|g: int| 0 <= g < r.0@.len() ==> #[trigger] r.0@[g]@.len() > 0,
        forall|g: int, q: int| 0 <= g < r.0@.len() && 0 <= q < r.0@[g]@.len() ==>
            #[trigger] r.0@[g]@[q].0 <= r.0@[g]@[q].1 && r.0@[g]@[q].1 <= buf.len(),
        forall|g: int, h: int| 0 <= g < h < r.1@.len() ==> #[trigger] r.1@[g] < #[trigger] r.1@[h],
        forall|g: int| 0 <= g < r.1@.len() ==> 0 <= #[trigger] r.1@[g] < layout.bin_count(),
        groups_concat(buf, r.0@) == bins_prefix(*layout, key, s, layout.bin_count()),
        forall|h: int| 0 <= h < r.0@.len() ==> #[trigger] groups_concat(buf, r.0@.take(h + 1))
            == bins_prefix(*layout, key, s, r.1@[h] + 1),
        forall|g: int| 0 <= g < r.1@.len() ==> #[trigger] bin_items(*layout, key, s, r.1@[g]).len() > 0,
        forall|c: int| 0 <= c < layout.bin_count() && #[trigger] bin_items(*layout, key, s, c).len() > 0 ==>
            exists|g: int| 0 <= g < r.1@.len() && r.1@[g] == c,
        forall|g: int| 0 <= g < r.0@.len() ==> (#[trigger] r.0@[g])@ == bin_pieces(ids@, r.1@[g]),
{
    let ghost n = layout.bin_count();
    let count = layout.count();
    let mut groups: Vec<Vec<(usize, usize)>> = Vec::new();
    let ghost mut gbins: Seq<int> = Seq::empty();
    let mut c: usize = 0;
    proof {
        assert(groups_concat(buf, groups@) =~= bins_prefix(*layout, key, s, 0));
    }
    while c < count
        invariant
            layout.wf(),
            n == layout.bin_count(),
            count == n,
            c <= n,
            forall|k: int| 0 <= k < ids@.len() ==> #[trigger] ids@[k].start < ids@[k].end && ids@[k].end <= buf.len(),
            forall|d: int| 0 <= d < n ==> #[trigger] gather(buf, ids@, d) == bin_items(*layout, key, s, d),
            gbins.len() == groups@.len(),
            forall|g: int| 0 <= g < groups@.len() ==> #[trigger] groups@[g]@.len() > 0,
            forall|g: int, q: int| 0 <= g < groups@.len() && 0 <= q < groups@[g]@.len() ==>
                #[trigger] groups@[g]@[q].0 <= groups@[g]@[q].1 && groups@[g]@[q].1 <= buf.len(),
            forall|g: int, h: int| 0 <= g < h < gbins.len() ==> #[trigger] gbins[g] < #[trigger] gbins[h],
            forall|g: int| 0 <= g < gbins.len() ==> 0 <= #[trigger] gbins[g] < c,
            groups_concat(buf, groups@) == bins_prefix(*layout, key, s, c as int),
            forall|h: int| 0 <= h < groups@.len() ==> #[trigger] groups_concat(buf, groups@.take(h + 1))
                == bins_prefix(*layout, key, s, gbins[h] + 1),
            forall|g: int| 0 <= g < gbins.len() ==> #[trigger] bin_items(*layout, key, s, gbins[g]).len() > 0,
            forall|d: int| 0 <= d < c && #[trigger] bin_items(*layout, key, s, d).len() > 0 ==>
                exists|g: int| 0 <= g < gbins.len() && gbins[g] == d,
            forall|g: int| 0 <= g < groups@.len() ==> (#[trigger] groups@[g])@ == bin_pieces(ids@, gbins[g]),
        decreases n - c,
    {
        let mut group: Vec<(usize, usize)> = Vec::new();
        let mut k: usize = 0;
        proof {
            assert(ids@.take(0) =~= Seq::<IdRange>::empty());
            assert(pieces(buf, group@) =~= gather(buf, ids@.take(0), c as int));
        }
        while k < ids.len()
            invariant
                k <= ids@.len(),
                forall|j: int| 0 <= j < ids@.len() ==> #[trigger] ids@[j].start < ids@[j].end && ids@[j].end <= buf.len(),
                pieces(buf, group@) == gather(buf, ids@.take(k as int), c as int),
                group@ == bin_pieces(ids@.take(k as int), c as int),
                forall|q: int| 0 <= q < group@.len() ==> #[trigger] group@[q].0 < group@[q].1 && group@[q].1 <= buf.len(),
            decreases ids@.len() - k,
        {
            let id = ids[k];
            let ghost before = group@;
            assert(ids@[k as int].start < ids@[k as int].end && ids@[k as int].end <= buf.len());
            proof {
                lemma_gather_push(buf, ids@, k as int, c as int);
                assert(ids@.take(k + 1).drop_last() =~= ids@.take(k as int));
                assert(ids@.take(k + 1).last() == ids@[k as int]);
            }
            if id.index == c {
                group.push((id.start, id.end));
                proof {
                    assert(group@.drop_last() =~= before);
                }
            } else {
                proof {
                    assert(pieces(buf, before) + Seq::<T>::empty() =~= pieces(buf, before));
                }
            }
            k = k + 1;
        }
        proof {
            assert(ids@.take(ids@.len() as int) =~= ids@);
            assert(pieces(buf, group@) == bin_items(*layout, key, s, c as int));
            assert(bins_prefix(*layout, key, s, c + 1) == bins_prefix(*layout, key, s, c as int) + bin_items(*layout, key, s, c as int));
        }
        if group.len() > 0 {
            let ghost groups_before = groups@;
            proof {
                let last = group@.last();
                assert(group@[group@.len() - 1].0 < group@[group@.len() - 1].1);
                assert(pieces(buf, group@).len() >= last.1 - last.0);
            }
            groups.push(group);
            proof {
                let ghost gbins_before = gbins;
                gbins = gbins.push(c as int);
                assert forall|d: int| 0 <= d < c + 1 && #[trigger] bin_items(*layout, key, s, d).len() > 0 implies
                    exists|g: int| 0 <= g < gbins.len() && gbins[g] == d by {
                    if d < c {
                        let g = choose|g: int| 0 <= g < gbins_before.len() && gbins_before[g] == d;
                        assert(gbins[g] == d);
                    } else {
                        assert(gbins[gbins.len() - 1] == d);
                    }
                }
                assert(groups@.drop_last() =~= groups_before);
                assert forall|h: int| 0 <= h < groups@.len() implies #[trigger] groups_concat(buf, groups@.take(h + 1))
                    == bins_prefix(*layout, key, s, gbins[h] + 1) by {
                    if h < groups_before.len() {
                        assert(groups@.take(h + 1) =~= groups_before.take(h + 1));
                    } else {
                        assert(groups@.take(h + 1) =~= groups@);
                    }
                }
                assert forall|g: int, q: int| 0 <= g < groups@.len() && 0 <= q < groups@[g]@.len() implies
                    #[trigger] groups@[g]@[q].0 <= groups@[g]@[q].1 && groups@[g]@[q].1 <= buf.len() by {
                    if g < groups_before.len() {
                        assert(groups@[g] == groups_before[g]);
                    }
                }
                assert(group@ == bin_pieces(ids@, c as int));
                assert forall|g: int| 0 <= g < groups@.len() implies (#[trigger] groups@[g])@ == bin_pieces(ids@, gbins[g]) by {
                    if g < groups_before.len() {
                        assert(groups@[g] == groups_before[g]);
                    }
                }
            }
        } else {
            proof {
                assert(pieces(buf, group@) =~= Seq::<T>::empty());
                assert(bins_prefix(*layout, key, s, c + 1) =~= bins_prefix(*layout, key, s, c as int));
            }
        }
        c = c + 1;
    }
    (groups, Ghost(gbins))
}

/// Every piece of `rs` lies within a buffer of length `len`.
pub open spec fn pieces_within(rs: Seq<(usize, usize)>, len: int) -> bool {
    forall|q: int| 0 <= q < rs.len() ==> #[trigger] rs[q].0 <= rs[q].1 && rs[q].1 <= len
}

/// Pieces within the buffer add up their lengths.
pub proof fn lemma_pieces_len<T>(buf: Seq<T>, rs: Seq<(usize, usize)>, q: int)
    requires
        pieces_within(rs, buf.len() as int),
        0 <= q < rs.len(),
    ensures
        pieces(buf, rs.take(q + 1)).len() == pieces(buf, rs.take(q)).len() + (rs[q].1 - rs[q].0),
        pieces(buf, rs.take(q + 1)) == pieces(buf, rs.take(q)) + buf.subrange(rs[q].0 as int, rs[q].1 as int),
{
    assert(rs.take(q + 1).drop_last() =~= rs.take(q));
    assert(rs.take(q + 1).last() == rs[q]);
}

/// Copies the pieces `ranges` of `src`, one after the other, to `dst` from
/// `offset` on. Returns their total length.
pub fn copy_ranges<T: Copy>(dst: &mut Vec<T>, src: &Vec<T>, ranges: &Vec<(usize, usize)>, offset: usize) -> (length: usize)
    requires
        pieces_within(ranges@, src@.len() as int),
        offset + pieces(src@, ranges@).len() <= old(dst).len(),
    ensures
        final(dst).len() == old(dst).len(),
        length == pieces(src@, ranges@).len(),
        final(dst)@.subrange(offset as int, offset + length) == pieces(src@, ranges@),
        forall|k: int| 0 <= k < offset || offset + length <= k < old(dst).len() ==> final(dst)@[k] == old(dst)@[k],
{
    let ghost orig = dst@;
    let mut written: usize = 0;
    let mut q: usize = 0;
    proof {
        assert(ranges@.take(0) =~= Seq::<(usize, usize)>::empty());
        assert(ranges@.take(ranges@.len() as int) =~= ranges@);
        lemma_pieces_prefix_len(src@, ranges@, 0, ranges@.len() as int);
    }
    while q < ranges.len()
        invariant
            pieces_within(ranges@, src@.len() as int),
            offset + pieces(src@, ranges@).len() <= dst.len(),
            dst.len() == orig.len(),
            q <= ranges@.len(),
            written == pieces(src@, ranges@.take(q as int)).len(),
            written <= pieces(src@, ranges@).len(),
            dst@.subrange(offset as int, offset + written) == pieces(src@, ranges@.take(q as int)),
            forall|k: int| 0 <= k < offset || offset + written <= k < orig.len() ==> dst@[k] == orig[k],
        decreases ranges@.len() - q,
    {
        let (start, end) = ranges[q];
        proof {
            assert(ranges@[q as int].0 <= ranges@[q as int].1 && ranges@[q as int].1 <= src@.len());
            lemma_pieces_len(src@, ranges@, q as int);
            lemma_pieces_prefix_len(src@, ranges@, q + 1, ranges@.len() as int);
            assert(ranges@.take(ranges@.len() as int) =~= ranges@);
        }
        let ghost before = dst@;
        let mut i: usize = start;
        while i < end
            invariant
                start <= i <= end <= src@.len(),
                offset + written + (end - start) <= dst.len(),
                dst.len() == orig.len(),
                forall|k: int| 0 <= k < offset + written + (i - start) ==> k < offset + written ==> dst@[k] == before[k],
                forall|k: int| offset + written + (i - start) <= k < orig.len() ==> dst@[k] == before[k],
                forall|k: int| start <= k < i ==> #[trigger] dst@[offset + written + (k - start)] == src@[k],
            decreases end - i,
        {
            dst.set(offset + written + (i - start), src[i]);
            i = i + 1;
        }
        proof {
            assert(dst@.subrange(offset as int, offset + written + (end - start))
                =~= before.subrange(offset as int, offset + written) + src@.subrange(start as int, end as int)) by {
                assert forall|k: int| 0 <= k < written + (end - start) implies
                    #[trigger] dst@.subrange(offset as int, offset + written + (end - start))[k]
                    == (before.subrange(offset as int, offset + written) + src@.subrange(start as int, end as int))[k] by {
                    if k >= written {
                        assert(dst@[offset + written + ((k - written + start) - start)] == src@[k - written + start]);
                    }
                }
            }
        }
        written = written + (end - start);
        q = q + 1;
    }
    proof {
        assert(ranges@.take(q as int) =~= ranges@);
    }
    written
}

/// A prefix of the pieces is no longer than all of them.
pub proof fn lemma_pieces_prefix_len<T>(buf: Seq<T>, rs: Seq<(usize, usize)>, a: int, b: int)
    requires
        pieces_within(rs, buf.len() as int),
        0 <= a <= b <= rs.len(),
    ensures
        pieces(buf, rs.take(a)).len() <= pieces(buf, rs.take(b)).len(),
    decreases b - a,
{
    if a < b {
        lemma_pieces_prefix_len(buf, rs, a, b - 1);
        lemma_pieces_len(buf, rs, b - 1);
    }
}

/// The groups taken up to `g + 1` add group `g` to those taken up to `g`.
pub proof fn lemma_groups_take<T>(buf: Seq<T>, gs: Seq<Vec<(usize, usize)>>, g: int)
    requires
        0 <= g < gs.len(),
    ensures
        groups_concat(buf, gs.take(g + 1)) == groups_concat(buf, gs.take(g)) + pieces(buf, gs[g]@),
{
    assert(gs.take(g + 1).drop_last() =~= gs.take(g));
    assert(gs.take(g + 1).last() == gs[g]);
}

/// A prefix of the groups is no longer than more of them.
pub proof fn lemma_groups_prefix_len<T>(buf: Seq<T>, gs: Seq<Vec<(usize, usize)>>, a: int, b: int)
    requires
        0 <= a <= b <= gs.len(),
    ensures
        groups_concat(buf, gs.take(a)).len() <= groups_concat(buf, gs.take(b)).len(),
    decreases b - a,
{
    if a < b {
        lemma_groups_prefix_len(buf, gs, a, b - 1);
        lemma_groups_take(buf, gs, b - 1);
    }
}

/// Copies the groups of pieces of `src` to the start of `dst`, one after the
/// other. Returns where each group but the last ends.
pub fn copy_groups<T: Copy>(dst: &mut Vec<T>, src: &Vec<T>, groups: &Vec<Vec<(usize, usize)>>) -> (marks: Vec<usize>)
    requires
        forall|g: int| 0 <= g < groups@.len() ==> #[trigger] pieces_within(groups@[g]@, src@.len() as int),
        groups_concat(src@, groups@).len() <= old(dst).len(),
    ensures
        final(dst).len() == old(dst).len(),
        final(dst)@.subrange(0, groups_concat(src@, groups@).len() as int) == groups_concat(src@, groups@),
        forall|k: int| groups_concat(src@, groups@).len() <= k < old(dst).len() ==> final(dst)@[k] == old(dst)@[k],
        marks@.len() == if groups@.len() == 0 { 0 } else { groups@.len() - 1 },
        forall|h: int| 0 <= h < marks@.len() ==> #[trigger] marks@[h] == groups_concat(src@, groups@.take(h + 1)).len(),
{
    let ghost orig = dst@;
    let mut marks: Vec<usize> = Vec::new();
    let mut base: usize = 0;
    let mut g: usize = 0;
    let count = groups.len();
    proof {
        assert(groups@.take(0) =~= Seq::<Vec<(usize, usize)>>::empty());
        assert(groups@.take(groups@.len() as int) =~= groups@);
    }
    while g < count
        invariant
            count == groups@.len(),
            forall|h: int| 0 <= h < groups@.len() ==> #[trigger] pieces_within(groups@[h]@, src@.len() as int),
            groups_concat(src@, groups@).len() <= dst.len(),
            groups@.take(groups@.len() as int) == groups@,
            dst.len() == orig.len(),
            g <= count,
            base == groups_concat(src@, groups@.take(g as int)).len(),
            dst@.subrange(0, base as int) == groups_concat(src@, groups@.take(g as int)),
            forall|k: int| base <= k < orig.len() ==> dst@[k] == orig[k],
            marks@.len() == if g == 0 { 0 } else { g - 1 },
            forall|h: int| 0 <= h < marks@.len() ==> #[trigger] marks@[h] == groups_concat(src@, groups@.take(h + 1)).len(),
        decreases count - g,
    {
        proof {
            lemma_groups_take(src@, groups@, g as int);
            lemma_groups_prefix_len(src@, groups@, g + 1, groups@.len() as int);
        }
        let ghost before = dst@;
        let length = copy_ranges(dst, src, &groups[g], base);
        proof {
            assert(dst@.subrange(0, base + length) =~= dst@.subrange(0, base as int) + dst@.subrange(base as int, base + length));
            assert(dst@.subrange(0, base as int) =~= before.subrange(0, base as int));
        }
        if g > 0 {
            marks.push(base);
        }
        base = base + length;
        g = g + 1;
    }
    marks
}

/// `marks` cut `s` into parts: every key before a mark is smaller than every
/// key from the mark on.
pub open spec fn marks_separate<T, K: SortKey, F: Fn(&T) -> K>(key: F, s: Seq<T>, marks: Seq<usize>) -> bool {
    &&& forall|a: int, b: int| 0 <= a <= b < marks.len() ==> #[trigger] marks[a] <= #[trigger] marks[b]
    &&& forall|h: int| 0 <= h < marks.len() ==> #[trigger] marks[h] <= s.len()
    &&& forall|h: int, i: int, j: int|
        #![trigger marks[h], key_int(key, s[i]), key_int(key, s[j])]
        0 <= h < marks.len() && 0 <= i < marks[h] <= j < s.len() ==> key_int(key, s[i]) < key_int(key, s[j])
}

impl<K: SortKey> BinLayout<K> {
    /// Spreads each fragment of `src` into its place in `buf`, the fragments
    /// on rayon's pool, then collects the pieces of each nonempty bin from all
    /// fragments, fragment after fragment. Returns the groups and, as a ghost,
    /// the bin of each group.
    pub fn par_spread<T: Copy + Send, F: KeyFn<T, K> + Send + Sync>(
        &self,
        frags: &Vec<(usize, usize)>,
        src: &Vec<T>,
        buf: &mut Vec<T>,
        key: F,
    ) -> (r: (Vec<Vec<(usize, usize)>>, Ghost<Seq<int>>))
        where
            K: Sync,
        requires
            self.wf(),
            key_fn_valid(key),
            old(buf).len() == src.len(),
            tiles(frags@, src@.len() as int),
            keys_in_range(*self, key, src@),
        ensures
            final(buf).len() == src.len(),
            r.1@.len() == r.0@.len(),
            forall|g: int| 0 <= g < r.0@.len() ==> #[trigger] pieces_within(r.0@[g]@, src@.len() as int),
            forall|g: int, h: int| 0 <= g < h < r.1@.len() ==> #[trigger] r.1@[g] < #[trigger] r.1@[h],
            forall|g: int| 0 <= g < r.1@.len() ==> 0 <= #[trigger] r.1@[g] < self.bin_count(),
            groups_concat(final(buf)@, r.0@) == bins_prefix(*self, key, src@, self.bin_count()),
            forall|h: int| 0 <= h < r.0@.len() ==> #[trigger] groups_concat(final(buf)@, r.0@.take(h + 1))
                == bins_prefix(*self, key, src@, r.1@[h] + 1),
            forall|g: int| 0 <= g < r.1@.len() ==> #[trigger] bin_items(*self, key, src@, r.1@[g]).len() > 0,
            forall|c: int| 0 <= c < self.bin_count() && #[trigger] bin_items(*self, key, src@, c).len() > 0 ==>
                exists|g: int| 0 <= g < r.1@.len() && r.1@[g] == c,
            forall|g: int| 0 <= g < r.0@.len() ==> (#[trigger] r.0@[g])@
                == bin_pieces(all_ids(*self, key, src@, frags@, frags@.len() as int), r.1@[g]),
            forall|g: int| 0 <= g < frags@.len() ==> #[trigger] spread_at(*self, key, final(buf)@,
                src@.subrange(frags@[g].0 as int, frags@[g].1 as int), frags@[g].0 as int),
            ranges_tile(all_ids(*self, key, src@, frags@, frags@.len() as int), 0, src@.len() as int),
    {
        let ids = spread_fragments(self, key, src, buf, frags);
        let r = group_by_bin(self, key, &ids, Ghost(buf@), Ghost(src@));
        proof {
            lemma_all_ids_tile(*self, key, src@, frags@, frags@.len() as int);
            if frags@.len() > 0 {
                assert(covered(frags@, frags@.len() as int) == src@.len());
            }
            assert forall|g: int| 0 <= g < r.0@.len() implies #[trigger] pieces_within(r.0@[g]@, src@.len() as int) by {
                assert forall|q: int| 0 <= q < r.0@[g]@.len() implies #[trigger] r.0@[g]@[q].0 <= r.0@[g]@[q].1
                    && r.0@[g]@[q].1 <= src@.len() by {
                }
            }
        }
        r
    }
}

/// The number of bins a presort on `cpu` workers may use: four per worker,
/// and at most `MAX_BINS_COUNT`.
pub open spec fn presort_bins(cpu: int) -> int {
    if cpu >= 64 {
        MAX_BINS_COUNT as int
    } else {
        cpu * 4
    }
}

/// `layout` is the one that a presort on `cpu` workers uses for `s`: from the
/// smallest to the largest key of `s`, with at most `presort_bins(cpu)` bins.
pub open spec fn presort_layout<T, K: SortKey, F: Fn(&T) -> K>(layout: BinLayout<K>, key: F, s: Seq<T>, cpu: int) -> bool {
    &&& layout.wf()
    &&& is_min_key(key, s, layout.min_key.key_value())
    &&& is_max_key(key, s, layout.max_key.key_value())
    &&& layout.power == power_for(layout.span(), presort_bins(cpu))
}

/// `marks` are, in ascending order, exactly the places in `s` where the bin
/// of the key changes.
pub open spec fn bin_boundaries<T, K: SortKey, F: Fn(&T) -> K>(layout: BinLayout<K>, key: F, s: Seq<T>, marks: Seq<usize>) -> bool {
    &&& forall|a: int, b: int| 0 <= a < b < marks.len() ==> #[trigger] marks[a] < #[trigger] marks[b]
    &&& forall|h: int| 0 <= h < marks.len() ==> 0 < #[trigger] marks[h] < s.len()
        && layout.bin_of(key_int(key, s[marks[h] - 1])) != layout.bin_of(key_int(key, s[marks[h] as int]))
    &&& forall|m: int| 0 < m < s.len() && #[trigger] layout.bin_of(key_int(key, s[m - 1])) != layout.bin_of(key_int(key, s[m])) ==>
        exists|h: int| 0 <= h < marks.len() && marks[h] == m
}

/// The ends of all nonempty bins but the last are the places where the bin
/// changes in the distribution of `s` by bins.
pub proof fn lemma_marks_are_bin_boundaries<T, K: SortKey, F: Fn(&T) -> K>(
    layout: BinLayout<K>,
    key: F,
    s: Seq<T>,
    gbins: Seq<int>,
    marks: Seq<usize>,
)
    requires
        layout.wf(),
        forall|g: int, h: int| 0 <= g < h < gbins.len() ==> #[trigger] gbins[g] < #[trigger] gbins[h],
        forall|g: int| 0 <= g < gbins.len() ==> 0 <= #[trigger] gbins[g] < layout.bin_count(),
        forall|g: int| 0 <= g < gbins.len() ==> #[trigger] bin_items(layout, key, s, gbins[g]).len() > 0,
        forall|c: int| 0 <= c < layout.bin_count() && #[trigger] bin_items(layout, key, s, c).len() > 0 ==>
            exists|g: int| 0 <= g < gbins.len() && gbins[g] == c,
        marks.len() == if gbins.len() == 0 { 0 } else { gbins.len() - 1 },
        forall|h: int| 0 <= h < marks.len() ==> #[trigger] marks[h] == bins_prefix(layout, key, s, gbins[h] + 1).len(),
    ensures
        bin_boundaries(layout, key, bins_prefix(layout, key, s, layout.bin_count()), marks),
{
    let n = layout.bin_count();
    let out = bins_prefix(layout, key, s, n);
    assert forall|a: int, b: int| 0 <= a < b < marks.len() implies #[trigger] marks[a] < #[trigger] marks[b] by {
        lemma_bins_prefix_len_monotone(layout, key, s, gbins[a] + 1, gbins[b]);
        assert(bins_prefix(layout, key, s, gbins[b] + 1).len()
            == bins_prefix(layout, key, s, gbins[b]).len() + bin_items(layout, key, s, gbins[b]).len());
    }
    assert forall|h: int| 0 <= h < marks.len() implies 0 < #[trigger] marks[h] < out.len()
        && layout.bin_of(key_int(key, out[marks[h] - 1])) != layout.bin_of(key_int(key, out[marks[h] as int])) by {
        let c = gbins[h] + 1;
        assert(bins_prefix(layout, key, s, c).len()
            == bins_prefix(layout, key, s, gbins[h]).len() + bin_items(layout, key, s, gbins[h]).len());
        assert(gbins[h] < gbins[h + 1]);
        lemma_bins_prefix_len_monotone(layout, key, s, c, gbins[h + 1]);
        assert(bins_prefix(layout, key, s, gbins[h + 1] + 1).len()
            == bins_prefix(layout, key, s, gbins[h + 1]).len() + bin_items(layout, key, s, gbins[h + 1]).len());
        lemma_bins_prefix_len_monotone(layout, key, s, gbins[h + 1] + 1, n);
        let m = marks[h] as int;
        lemma_bins_prefix_position(layout, key, s, n, m - 1, c);
        lemma_bins_prefix_position(layout, key, s, n, m, c);
    }
    assert forall|m: int| 0 < m < out.len() && #[trigger] layout.bin_of(key_int(key, out[m - 1])) != layout.bin_of(key_int(key, out[m])) implies
        exists|h: int| 0 <= h < marks.len() && marks[h] == m by {
        let b1 = layout.bin_of(key_int(key, out[m - 1]));
        let b2 = layout.bin_of(key_int(key, out[m]));
        lemma_bins_prefix_position(layout, key, s, n, m - 1, n);
        lemma_bins_prefix_position(layout, key, s, n, m - 1, 0);
        lemma_bins_prefix_position(layout, key, s, n, m, n);
        lemma_bins_prefix_position(layout, key, s, n, m, 0);
        // the bins do not go down
        lemma_bins_prefix_position(layout, key, s, n, m - 1, b2 + 1);
        lemma_bins_prefix_position(layout, key, s, n, m, b2);
        lemma_bins_prefix_position(layout, key, s, n, m, b2 + 1);
        assert(b1 < b2);
        // `m` is where bin `b1` ends
        lemma_bins_prefix_position(layout, key, s, n, m - 1, b1 + 1);
        lemma_bins_prefix_position(layout, key, s, n, m - 1, b1);
        lemma_bins_prefix_position(layout, key, s, n, m, b1 + 1);
        assert(m == bins_prefix(layout, key, s, b1 + 1).len());
        // both bins hold an element
        assert(bins_prefix(layout, key, s, b1 + 1).len()
            == bins_prefix(layout, key, s, b1).len() + bin_items(layout, key, s, b1).len());
        assert(bin_items(layout, key, s, b1).len() > 0);
        lemma_bins_prefix_position(layout, key, s, n, m, b2 + 1);
        assert(m < bins_prefix(layout, key, s, b2 + 1).len());
        assert(bins_prefix(layout, key, s, b2 + 1).len()
            == bins_prefix(layout, key, s, b2).len() + bin_items(layout, key, s, b2).len());
        assert(bin_items(layout, key, s, b2).len() > 0);
        let g1 = choose|g: int| 0 <= g < gbins.len() && gbins[g] == b1;
        let g2 = choose|g: int| 0 <= g < gbins.len() && gbins[g] == b2;
        if g2 <= g1 {
            if g2 < g1 {
                assert(gbins[g2] < gbins[g1]);
            }
            assert(false);
        }
        assert(marks[g1] == m);
    }
}

/// The first pass of a parallel sort by `key`, on `cpu` workers: distributes
/// `v` into at most `4 * cpu` bins (and at most `MAX_BINS_COUNT`), fragment by
/// fragment, and gathers the bins back into `v`. Returns `None` when all keys
/// are equal, else the marks between the nonempty bins.
pub fn par_pre_sort<T: Copy + Send + Sync, K: SortKey + Send + Sync, F: KeyFn<T, K> + Send + Sync>(
    v: &mut Vec<T>,
    cpu: usize,
    key: F,
) -> (r: Option<Vec<usize>>)
    requires
        old(v)@.len() >= 1,
        cpu >= 1,
        key_fn_valid(key),
    ensures
        r is None <==> keys_all_equal(key, old(v)@),
        r is None ==> final(v)@ == old(v)@,
        final(v)@.len() == old(v)@.len(),
        final(v)@.to_multiset() == old(v)@.to_multiset(),
        r matches Some(marks) ==> marks_separate(key, final(v)@, marks@),
        r matches Some(marks) ==> exists|layout: BinLayout<K>| {
            &&& #[trigger] presort_layout(layout, key, old(v)@, cpu as int)
            &&& final(v)@ == bins_prefix(layout, key, old(v)@, layout.bin_count())
            &&& bin_boundaries(layout, key, final(v)@, marks@)
        },
{
    let (min_key, max_key) = par_min_max(v, key);
    let ghost s = v@;
    if !min_key.key_lt(max_key) {
        proof {
            assert forall|i: int, j: int| 0 <= i < s.len() && 0 <= j < s.len() implies #[trigger] key_int(key, s[i]) == #[trigger] key_int(key, s[j]) by {
            }
        }
        return None;
    }
    proof {
        let i = choose|i: int| 0 <= i < s.len() && #[trigger] key_int(key, s[i]) == min_key.key_value();
        let j = choose|j: int| 0 <= j < s.len() && #[trigger] key_int(key, s[j]) == max_key.key_value();
        assert(key_int(key, s[i]) != key_int(key, s[j]));
    }
    let max_bins_count = if cpu >= 64 { MAX_BINS_COUNT } else { cpu * 4 };
    let layout = BinLayout::new(min_key, max_key, max_bins_count);
    let ghost n = layout.bin_count();
    let mut buffer: Vec<T> = Vec::new();
    fit_buffer(&mut buffer, v);
    let frags = fragment_by_count(v.len(), cpu);
    proof {
        assert forall|i: int| 0 <= i < s.len() implies #[trigger] layout.in_range(key_int(key, s[i])) by {
            layout.lemma_in_range(key_int(key, s[i]));
        }
    }
    let (groups, Ghost(gbins)) = layout.par_spread(&frags, v, &mut buffer, key);
    proof {
        lemma_bins_prefix_multiset(layout, key, s);
        assert(bins_prefix(layout, key, s, n).to_multiset().len() == bins_prefix(layout, key, s, n).len());
    }
    let marks = copy_groups(v, &buffer, &groups);
    proof {
        let out = bins_prefix(layout, key, s, n);
        assert(v@ =~= out) by {
            assert(v@.subrange(0, out.len() as int) == out);
            assert forall|k: int| 0 <= k < v@.len() implies v@[k] == out[k] by {
                assert(v@.subrange(0, out.len() as int)[k] == v@[k]);
            }
        }
        assert forall|h: int| 0 <= h < marks@.len() implies #[trigger] marks@[h] == bins_prefix(layout, key, s, gbins[h] + 1).len() by {
        }
        assert forall|a: int, b: int| 0 <= a <= b < marks@.len() implies #[trigger] marks@[a] <= #[trigger] marks@[b] by {
            if a < b {
                assert(gbins[a] < gbins[b]);
            }
            lemma_bins_prefix_len_monotone(layout, key, s, gbins[a] + 1, gbins[b] + 1);
        }
        assert forall|h: int| 0 <= h < marks@.len() implies #[trigger] marks@[h] <= v@.len() by {
            lemma_bins_prefix_len_monotone(layout, key, s, gbins[h] + 1, n);
        }
        assert forall|h: int, i: int, j: int|
            #![trigger marks@[h], key_int(key, v@[i]), key_int(key, v@[j])]
            0 <= h < marks@.len() && 0 <= i < marks@[h] <= j < v@.len() implies key_int(key, v@[i]) < key_int(key, v@[j]) by {
            let c = gbins[h] + 1;
            lemma_bins_prefix_position(layout, key, s, n, i, c);
            lemma_bins_prefix_position(layout, key, s, n, j, c);
            if key_int(key, v@[j]) <= key_int(key, v@[i]) {
                layout.lemma_bin_of_ordered(key_int(key, v@[j]), key_int(key, v@[i]));
            }
        }
        lemma_marks_are_bin_boundaries(layout, key, s, gbins, marks@);
        assert(presort_layout(layout, key, s, cpu as int));
    }
    Some(marks)
}

} // verus!
