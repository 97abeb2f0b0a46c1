//! Spreading fragments into bins, each fragment on a worker of rayon's pool.
use vstd::prelude::*;
use rayon::iter::IntoParallelRefMutIterator;
use rayon::iter::ParallelIterator;
use crate::sort::key::{SortKey, KeyFn, key_fn_valid};
use crate::sort::bin_layout::BinLayout;
use crate::sort::spread::{spread, bin_items, bin_bounds, keys_in_range};

verus! {

/// One fragment to spread: its elements, room as long as they are, and the
/// bounds of its bins once spread.
pub struct SpreadJob<T> {
    pub src: Vec<T>,
    pub buf: Vec<T>,
    pub bounds: Vec<usize>,
}

impl<T: Copy> SpreadJob<T> {
    /// The job can be run under `layout`: its room is as long as its
    /// elements, and their keys lie in the layout's range.
    pub open spec fn ready<K: SortKey, F: Fn(&T) -> K>(&self, layout: BinLayout<K>, key: F) -> bool {
        &&& self.buf@.len() == self.src@.len()
        &&& keys_in_range(layout, key, self.src@)
    }

    /// The job has run: `buf` holds the elements bin after bin, bin `b` at
    /// `bounds[b]..bounds[b + 1]`.
    pub open spec fn done<K: SortKey, F: Fn(&T) -> K>(&self, layout: BinLayout<K>, key: F) -> bool {
        &&& self.buf@.len() == self.src@.len()
        &&& bin_bounds(layout, key, self.src@, self.bounds@, 0)
        &&& forall|b: int| 0 <= b < layout.bin_count() ==>
            #[trigger] self.buf@.subrange(self.bounds@[b] as int, self.bounds@[b + 1] as int) == bin_items(layout, key, self.src@, b)
    }

    /// Spreads the job's elements into its room by bin.
    pub fn run<K: SortKey, F: KeyFn<T, K>>(&mut self, layout: &BinLayout<K>, key: F)
        requires
            layout.wf(),
            key_fn_valid(key),
            old(self).ready(*layout, key),
        ensures
            final(self).src@ == old(self).src@,
            final(self).done(*layout, key),
    {
        let len = self.src.len();
        assert(self.src@.subrange(0, len as int) =~= self.src@);
        let bounds = spread(layout, key, &self.src, &mut self.buf, 0, len);
        self.bounds = bounds;
    }
}

/// Runs every job, the jobs spread over rayon's pool. rayon's
/// `par_iter_mut().for_each(..)` calls the closure once on each job, and the
/// closure only calls the verified `SpreadJob::run`. The contract claims that
/// the jobs keep their number and order, and that each has run on its own
/// elements.
#[verifier::external_body]
pub(crate) fn par_run_jobs<T: Copy + Send, K: SortKey + Sync, F: KeyFn<T, K> + Send + Sync>(
    layout: &BinLayout<K>,
    key: F,
    jobs: &mut Vec<SpreadJob<T>>,
)
    requires
        layout.wf(),
        key_fn_valid(key),
        forall|j: int| 0 <= j < old(jobs)@.len() ==> (#[trigger] old(jobs)@[j]).ready(*layout, key),
    ensures
        final(jobs)@.len() == old(jobs)@.len(),
        forall|j: int| 0 <= j < final(jobs)@.len() ==> (#[trigger] final(jobs)@[j]).src@ == old(jobs)@[j].src@,
        forall|j: int| 0 <= j < final(jobs)@.len() ==> (#[trigger] final(jobs)@[j]).done(*layout, key),
{
    jobs.par_iter_mut().for_each(|job| job.run(layout, key));
}

} // verus!
