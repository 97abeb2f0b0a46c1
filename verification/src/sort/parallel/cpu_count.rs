//! When a sort is worth spreading over several workers.
use vstd::prelude::*;

verus! {

/// The fewest elements worth giving to one worker.
pub const MIN_LEN_PER_TASK: usize = 32_000;

/// Decides how many workers to use.
pub struct CPUCount;

impl CPUCount {
    /// The number of workers in rayon's pool, as `rayon::current_num_threads`
    /// reports it; for the global pool it is the machine's available
    /// parallelism unless the environment sets it. It depends on the machine
    /// and the environment, so nothing is claimed of it.
    #[verifier::external_body]
    pub(crate) fn count() -> usize {
        rayon::current_num_threads()
    }

    /// With `cpu` workers available (at least one is assumed), the number of
    /// workers for `len` elements: all of them when each gets at least
    /// `MIN_LEN_PER_TASK` elements, else none, and the sort stays serial.
    pub fn should_parallel(len: usize, cpu: usize) -> (r: Option<usize>)
        ensures
            r == if len >= (if cpu >= 1 { cpu as int } else { 1 }) * MIN_LEN_PER_TASK {
                Some(if cpu >= 1 { cpu } else { 1 })
            } else {
                None
            },
    {
        let cpu = if cpu >= 1 { cpu } else { 1 };
        proof {
            vstd::arithmetic::div_mod::lemma_fundamental_div_mod(len as int, MIN_LEN_PER_TASK as int);
            assert((len / MIN_LEN_PER_TASK >= cpu) == (len >= cpu * MIN_LEN_PER_TASK)) by (nonlinear_arith)
                requires
                    len as int == MIN_LEN_PER_TASK * (len / MIN_LEN_PER_TASK) + len % MIN_LEN_PER_TASK,
                    0 <= len % MIN_LEN_PER_TASK < MIN_LEN_PER_TASK,
                    cpu >= 1,
            ;
        }
        if len / MIN_LEN_PER_TASK >= cpu {
            Some(cpu)
        } else {
            None
        }
    }
}

} // verus!
