//! The evaluator: one heuristic, with counters that the caller reads when it
//! chooses to report them.
use vstd::prelude::*;
use pddllib::state::State;
use pddllib::task::Task;
use crate::pddl::task_supported;
use std::time::Instant;
use crate::heuristic::{generate, selected, Estimator, Heuristic, HeuristicKind};

verus! {

#[verifier::external_type_specification]
#[verifier::external_body]
pub struct ExInstant(Instant);

/// Relies on `Instant::now`; nothing is known of the time it reads.
#[verifier::external_body]
fn clock() -> (r: Instant) {
    Instant::now()
}

/// Relies on `Instant::elapsed`, in whole microseconds, saturating; the
/// value depends on the time, so nothing more is stated.
#[verifier::external_body]
fn micros_since(start: &Instant) -> (r: u64) {
    u64::try_from(start.elapsed().as_micros()).unwrap_or(u64::MAX)
}

/// Latency of the heuristic calls, in microseconds: their sum, the sum of
/// their squares, and the least and greatest, each saturating.
#[derive(Debug, Clone, Copy, PartialEq, Eq)]
pub struct Latency {
    pub total_us: u64,
    pub total_sq_us: u128,
    pub min_us: u64,
    pub max_us: u64,
}

/// The latency record after one more call of `d` microseconds.
pub open spec fn recorded(l: Latency, calls: u64, d: u64) -> Latency {
    Latency {
        total_us: if l.total_us + d > u64::MAX { u64::MAX } else { (l.total_us + d) as u64 },
        total_sq_us: if l.total_sq_us + d * d > u128::MAX { u128::MAX } else { (l.total_sq_us + d * d) as u128 },
        min_us: if calls == 0 || d < l.min_us { d } else { l.min_us },
        max_us: if calls == 0 || d > l.max_us { d } else { l.max_us },
    }
}

pub struct Evaluator {
    heuristic: Estimator,
    evaluations: u64,
    best: Option<usize>,
    latency: Latency,
}

/// The lower of a best estimate so far and a new estimate.
pub open spec fn lower(best: Option<usize>, e: usize) -> Option<usize> {
    match best {
        Some(b) => if b <= e { Some(b) } else { Some(e) },
        None => Some(e),
    }
}

/// A call count raised by `n`, saturating.
pub open spec fn bumped(count: u64, n: nat) -> u64 {
    if count + n > u64::MAX {
        u64::MAX
    } else {
        (count + n) as u64
    }
}

/// The best estimate after evaluating each of `states` in order with `h`.
pub open spec fn lowest(best: Option<usize>, h: Estimator, task: Task, states: Seq<State>) -> Option<usize>
    decreases states.len(),
{
    if states.len() == 0 {
        best
    } else {
        lower(lowest(best, h, task, states.drop_last()), h.value(task, states.last()) as usize)
    }
}

impl Evaluator {
    /// The wrapped heuristic.
    pub closed spec fn heuristic_view(&self) -> Estimator {
        self.heuristic
    }

    /// How many estimates were made since creation or the last `clear`.
    pub closed spec fn evaluation_count(&self) -> u64 {
        self.evaluations
    }

    /// The lowest estimate made since creation or the last `clear`.
    pub closed spec fn best_estimate(&self) -> Option<usize> {
        self.best
    }

    /// The latency record since creation or the last `clear`.
    pub closed spec fn latency_view(&self) -> Latency {
        self.latency
    }

    pub open spec fn wf(&self) -> bool {
        self.heuristic_view().wf()
    }

    /// The estimate that the wrapped heuristic gives `state`.
    pub open spec fn value(&self, task: Task, state: State) -> nat {
        self.heuristic_view().value(task, state)
    }

    /// An evaluator for the heuristic that `kind` selects for `task`.
    pub fn new(task: &Task, kind: HeuristicKind) -> (r: Evaluator)
        requires
            task_supported(*task),
        ensures
            r.wf(),
            selected(*task, kind, r.heuristic_view()),
            r.evaluation_count() == 0,
            r.best_estimate() is None,
            r.latency_view() == (Latency { total_us: 0, total_sq_us: 0, min_us: 0, max_us: 0 }),
    {
        Evaluator {
            heuristic: generate(task, kind),
            evaluations: 0,
            best: None,
            latency: Latency { total_us: 0, total_sq_us: 0, min_us: 0, max_us: 0 },
        }
    }

    /// Resets the counters.
    pub fn clear(&mut self)
        ensures
            final(self).heuristic_view() == old(self).heuristic_view(),
            final(self).evaluation_count() == 0,
            final(self).best_estimate() is None,
            final(self).latency_view() == (Latency { total_us: 0, total_sq_us: 0, min_us: 0, max_us: 0 }),
    {
        self.evaluations = 0;
        self.best = None;
        self.latency = Latency { total_us: 0, total_sq_us: 0, min_us: 0, max_us: 0 };
    }

    /// The heuristic's estimate for `state`, unchanged; counts the call,
    /// keeps the lowest estimate, and records how long the call took.
    pub fn estimate(&mut self, task: &Task, state: &State) -> (r: usize)
        requires
            old(self).wf(),
        ensures
            r == old(self).value(*task, *state),
            final(self).heuristic_view() == old(self).heuristic_view(),
            final(self).evaluation_count() == bumped(old(self).evaluation_count(), 1),
            final(self).best_estimate() == lower(old(self).best_estimate(), r),
            exists|d: u64| final(self).latency_view() == recorded(old(self).latency_view(), old(self).evaluation_count(), d),
    {
        let start = clock();
        let r = self.heuristic.estimate(task, state);
        let d = micros_since(&start);
        let l = self.latency;
        let total_us = if l.total_us > u64::MAX - d { u64::MAX } else { l.total_us + d };
        let dd = d as u128;
        assert(dd * dd <= u64::MAX as u128 * u64::MAX as u128) by (nonlinear_arith)
            requires dd <= u64::MAX as u128;
        assert(u64::MAX as u128 * u64::MAX as u128 <= u128::MAX) by (nonlinear_arith);
        let sq = dd * dd;
        let total_sq_us = if l.total_sq_us > u128::MAX - sq { u128::MAX } else { l.total_sq_us + sq };
        let min_us = if self.evaluations == 0 || d < l.min_us { d } else { l.min_us };
        let max_us = if self.evaluations == 0 || d > l.max_us { d } else { l.max_us };
        self.latency = Latency { total_us, total_sq_us, min_us, max_us };
        assert(self.latency == recorded(old(self).latency_view(), old(self).evaluation_count(), d));
        if self.evaluations < u64::MAX {
            self.evaluations += 1;
        }
        self.best = match self.best {
            Some(b) => if b <= r { Some(b) } else { Some(r) },
            None => Some(r),
        };
        r
    }

    /// How many estimates were made since creation or the last `clear`.
    pub fn evaluations(&self) -> (r: u64)
        ensures
            r == self.evaluation_count(),
    {
        self.evaluations
    }

    /// The latency record since creation or the last `clear`.
    pub fn latency(&self) -> (r: Latency)
        ensures
            r == self.latency_view(),
    {
        self.latency
    }

    /// The lowest estimate made since creation or the last `clear`.
    pub fn best(&self) -> (r: Option<usize>)
        ensures
            r == self.best_estimate(),
    {
        self.best
    }
}

} // verus!
