//! Cutting data laid out in bins into chunks worth one task each: runs of
//! consecutive bins are merged until a chunk holds more than a 64th of the data.
use vstd::prelude::*;
use crate::layout::Bin;

verus! {

/// The first bin at or after `j` whose end lies more than `cap` past `start`,
/// or the number of bins when there is none.
pub open spec fn chunk_end(bins: Seq<Bin>, start: int, cap: int, j: int) -> int
    decreases bins.len() - j,
{
    if j < 0 || j >= bins.len() {
        bins.len() as int
    } else if bins[j].data - start > cap {
        j
    } else {
        chunk_end(bins, start, cap, j + 1)
    }
}

/// No bin ends before an earlier or equal bin starts.
pub open spec fn bins_ordered(bins: Seq<Bin>) -> bool {
    forall|i: int, k: int| 0 <= i <= k < bins.len() ==> #[trigger] bins[i].offset <= #[trigger] bins[k].data
}

/// The end of a chunk that starts at bin `j` is at or after `j`.
pub proof fn lemma_chunk_end_from(bins: Seq<Bin>, start: int, cap: int, j: int)
    requires
        0 <= j,
    ensures
        j <= chunk_end(bins, start, cap, j) <= bins.len() || (j > bins.len() && chunk_end(bins, start, cap, j) == bins.len()),
        chunk_end(bins, start, cap, j) < bins.len() ==> bins[chunk_end(bins, start, cap, j)].data - start > cap,
    decreases bins.len() - j,
{
    if j < bins.len() && !(bins[j].data - start > cap) {
        lemma_chunk_end_from(bins, start, cap, j + 1);
    }
}

/// The chunks handed out from bin `idx` on, one after the other, as ranges of
/// positions.
pub open spec fn chunks_from(bins: Seq<Bin>, len: int, idx: int) -> Seq<(int, int)>
    decreases bins.len() - idx,
{
    if idx < 0 || idx >= bins.len() {
        Seq::empty()
    } else {
        let start = bins[idx].offset as int;
        let e = chunk_end(bins, start, len / 64, idx);
        if e < bins.len() {
            proof {
                lemma_chunk_end_from(bins, start, len / 64, idx);
            }
            seq![(start, bins[e].data as int)] + chunks_from(bins, len, e + 1)
        } else if start < len {
            seq![(start, len)]
        } else {
            Seq::empty()
        }
    }
}

/// The bins lie end to end over `[bins[0].offset, len)`: each starts where
/// the one before ends, and the last ends at `len`.
pub open spec fn bins_contiguous(bins: Seq<Bin>, len: int) -> bool {
    &&& forall|i: int| 0 <= i < bins.len() ==> #[trigger] bins[i].offset <= bins[i].data
    &&& forall|i: int| 0 <= i < bins.len() - 1 ==> #[trigger] bins[i].data == bins[i + 1].offset
    &&& bins.len() > 0 ==> bins[bins.len() - 1].data == len
}

/// In bins that lie end to end, each bin starts at or after the ends of the
/// bins before it and ends by `len`.
pub proof fn lemma_contiguous_bounds(bins: Seq<Bin>, len: int, i: int, k: int)
    requires
        bins_contiguous(bins, len),
        0 <= i <= k < bins.len(),
    ensures
        bins[i].offset <= bins[k].data,
        bins[k].data <= len,
    decreases bins.len() - i,
{
    if i < k {
        lemma_contiguous_bounds(bins, len, i + 1, k);
    } else if k < bins.len() - 1 {
        lemma_contiguous_bounds(bins, len, k + 1, k + 1);
    }
}

/// Bins that lie end to end are ordered.
pub proof fn lemma_contiguous_ordered(bins: Seq<Bin>, len: int)
    requires
        bins_contiguous(bins, len),
    ensures
        bins_ordered(bins),
{
    assert forall|i: int, k: int| 0 <= i <= k < bins.len() implies #[trigger] bins[i].offset <= #[trigger] bins[k].data by {
        lemma_contiguous_bounds(bins, len, i, k);
    }
}

/// Over bins that lie end to end, the chunks from bin `idx` on cut
/// `[bins[idx].offset, len)` into consecutive nonempty ranges; every range
/// but the last is longer than a 64th of the data and ends where a bin ends,
/// so no bin is split.
pub proof fn lemma_chunks_partition(bins: Seq<Bin>, len: int, idx: int)
    requires
        bins_contiguous(bins, len),
        0 <= idx < bins.len(),
    ensures
        ({
            let c = chunks_from(bins, len, idx);
            &&& c.len() == 0 ==> bins[idx].offset == len
            &&& c.len() > 0 ==> c[0].0 == bins[idx].offset && c[c.len() - 1].1 == len
            &&& forall|k: int| 0 <= k < c.len() ==> (#[trigger] c[k]).0 < c[k].1
            &&& forall|k: int| 0 <= k < c.len() - 1 ==> (#[trigger] c[k]).1 == c[k + 1].0
            &&& forall|k: int| 0 <= k < c.len() - 1 ==> (#[trigger] c[k]).1 - c[k].0 > len / 64
            &&& forall|k: int| 0 <= k < c.len() - 1 ==> exists|j: int| 0 <= j < bins.len() && (#[trigger] c[k]).1 == bins[j].data
        }),
    decreases bins.len() - idx,
{
    let n = bins.len() as int;
    let start = bins[idx].offset as int;
    let cap = len / 64;
    let e = chunk_end(bins, start, cap, idx);
    lemma_chunk_end_from(bins, start, cap, idx);
    lemma_contiguous_bounds(bins, len, idx, n - 1);
    let c = chunks_from(bins, len, idx);
    if e < n {
        let first = (start, bins[e].data as int);
        let rest = chunks_from(bins, len, e + 1);
        assert(c == seq![first] + rest);
        if e + 1 < n {
            lemma_chunks_partition(bins, len, e + 1);
            assert(bins[e].data == bins[e + 1].offset);
        } else {
            assert(rest == Seq::<(int, int)>::empty());
        }
        assert forall|k: int| 0 <= k < c.len() - 1 implies exists|j: int| 0 <= j < bins.len() && (#[trigger] c[k]).1 == bins[j].data by {
            if k == 0 {
                assert(c[0].1 == bins[e].data);
            } else {
                assert(c[k] == rest[k - 1]);
                assert(exists|j: int| 0 <= j < bins.len() && rest[k - 1].1 == bins[j].data);
            }
        }
        assert forall|k: int| 0 <= k < c.len() - 1 implies (#[trigger] c[k]).1 == c[k + 1].0 by {
            if k > 0 {
                assert(c[k] == rest[k - 1]);
                assert(c[k + 1] == rest[k]);
            }
        }
        assert forall|k: int| 0 <= k < c.len() - 1 implies (#[trigger] c[k]).1 - c[k].0 > len / 64 by {
            if k > 0 {
                assert(c[k] == rest[k - 1]);
            }
        }
        assert forall|k: int| 0 <= k < c.len() implies (#[trigger] c[k]).0 < c[k].1 by {
            if k > 0 {
                assert(c[k] == rest[k - 1]);
            }
        }
    } else {
        lemma_contiguous_bounds(bins, len, idx, idx);
    }
}

/// The chunks of `len` elements laid out in `bins`, handed out one after the other.
pub struct ChunksByBin {
    pub len: usize,
    pub bins: Vec<Bin>,
    pub index: usize,
}

impl ChunksByBin {
    /// Chunks of `len` elements laid out in `bins`, starting with the first bin.
    pub fn new(len: usize, bins: Vec<Bin>) -> (r: Self)
        ensures
            r.len == len,
            r.bins@ == bins@,
            r.index == 0,
    {
        ChunksByBin { len, bins, index: 0 }
    }

    /// The next chunk, as a range of positions: from the start of the current
    /// bin through the end of the first bin that makes it longer than a 64th
    /// of the data; when no bin does, the rest of the data, if any is left.
    pub fn next(&mut self) -> (r: Option<(usize, usize)>)
        requires
            bins_ordered(old(self).bins@),
        ensures
            final(self).len == old(self).len,
            final(self).bins@ == old(self).bins@,
            old(self).index >= old(self).bins@.len() ==> r is None && final(self).index == old(self).index,
            old(self).index < old(self).bins@.len() ==> {
                let start = old(self).bins@[old(self).index as int].offset;
                let e = chunk_end(old(self).bins@, start as int, (old(self).len / 64) as int, old(self).index as int);
                if e < old(self).bins@.len() {
                    &&& r == Some((start, old(self).bins@[e].data))
                    &&& final(self).index == e + 1
                } else {
                    &&& final(self).index == old(self).bins@.len()
                    &&& r == if start < old(self).len { Some((start, old(self).len)) } else { None }
                }
            },
            r matches Some(p) ==> chunks_from(old(self).bins@, old(self).len as int, old(self).index as int)
                == seq![(p.0 as int, p.1 as int)] + chunks_from(old(self).bins@, old(self).len as int, final(self).index as int),
            r is None ==> chunks_from(old(self).bins@, old(self).len as int, old(self).index as int) == Seq::<(int, int)>::empty()
                && final(self).index >= old(self).bins@.len(),
    {
        if self.index >= self.bins.len() {
            return None;
        }
        let len = self.len;
        let capacity = len >> 6;
        proof {
            assert(len >> 6 == len / 64) by (bit_vector);
        }
        let first = self.index;
        let start = self.bins[first].offset;
        let ghost bins = self.bins@;
        while self.index < self.bins.len()
            invariant
                self.len == len,
                self.bins@ == bins,
                old(self).len == len,
                old(self).bins@ == bins,
                old(self).index == first,
                bins_ordered(bins),
                first <= self.index <= bins.len(),
                first < bins.len(),
                start == bins[first as int].offset,
                capacity == len / 64,
                chunk_end(bins, start as int, capacity as int, first as int)
                    == chunk_end(bins, start as int, capacity as int, self.index as int),
            decreases bins.len() - self.index,
        {
            let i = self.index;
            let end = self.bins[i].data;
            self.index = i + 1;
            assert(bins[first as int].offset <= bins[i as int].data);
            let count = end - start;
            if count > capacity {
                return Some((start, end));
            }
        }
        if start < len {
            Some((start, len))
        } else {
            None
        }
    }
}

} // verus!
