//! What the driver decides between steps: stop with the step's result, stop
//! on a resource limit, or step again.
use vstd::prelude::*;
use crate::search::{Error, StepResult};

verus! {

/// Memory is sampled once every this many steps.
pub const MEMORY_CHECK_PERIOD: u64 = 64;

/// Whether memory is sampled after step number `steps` (counted from 1).
pub fn memory_check_due(steps: u64) -> (r: bool)
    ensures
        r == (steps % MEMORY_CHECK_PERIOD == 0),
{
    steps % MEMORY_CHECK_PERIOD == 0
}

/// What a search comes to after a step: `None` to step again. A plan or a
/// terminal failure stands; an unfinished step ends in `OutOfTime` once the
/// elapsed time reaches the time limit, and in `OutOfMemory` when a memory
/// sample exceeds the memory limit. An absent limit never triggers.
pub open spec fn outcome(
    result: StepResult,
    elapsed_us: u64,
    time_limit_us: Option<u64>,
    memory: Option<usize>,
    memory_limit: Option<usize>,
) -> Option<StepResult> {
    match result {
        Err(Error::Unfinished) => if time_limit_us matches Some(t) && elapsed_us >= t {
            Some(StepResult::Err(Error::OutOfTime))
        } else if memory_limit matches Some(m) && memory matches Some(u) && u > m {
            Some(StepResult::Err(Error::OutOfMemory))
        } else {
            None
        },
        _ => Some(result),
    }
}

/// Decides what a step's result comes to, given the time elapsed since the
/// search began and, when one was taken, a memory sample.
pub fn settle(
    result: StepResult,
    elapsed_us: u64,
    time_limit_us: Option<u64>,
    memory: Option<usize>,
    memory_limit: Option<usize>,
) -> (r: Option<StepResult>)
    ensures
        r == outcome(result, elapsed_us, time_limit_us, memory, memory_limit),
{
    match result {
        Err(Error::Unfinished) => {
            if let Some(t) = time_limit_us {
                if elapsed_us >= t {
                    return Some(Err(Error::OutOfTime));
                }
            }
            if let Some(m) = memory_limit {
                if let Some(u) = memory {
                    if u > m {
                        return Some(Err(Error::OutOfMemory));
                    }
                }
            }
            None
        },
        _ => Some(result),
    }
}

/// With a time limit of zero, the first unfinished step ends the search
/// out of time; a step that already found a plan still returns it.
pub proof fn lemma_zero_time_limit(
    result: StepResult,
    elapsed_us: u64,
    memory: Option<usize>,
    memory_limit: Option<usize>,
)
    ensures
        result == StepResult::Err(Error::Unfinished) ==> outcome(result, elapsed_us, Some(0), memory, memory_limit)
            == Some(StepResult::Err(Error::OutOfTime)),
        result is Ok ==> outcome(result, elapsed_us, Some(0), memory, memory_limit) == Some(result),
{
}

} // verus!
