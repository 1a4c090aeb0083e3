//! The constant heuristic: the same estimate for every state.
use vstd::prelude::*;
use pddllib::state::State;
use pddllib::task::Task;
use crate::heuristic::Heuristic;

verus! {

#[derive(Debug)]
pub struct Constant {
    value: usize,
}

impl Constant {
    /// The estimate that this heuristic always gives.
    pub closed spec fn constant(&self) -> usize {
        self.value
    }

    pub fn new(value: usize) -> (r: Constant)
        ensures
            r.constant() == value,
    {
        Constant { value }
    }
}

impl Heuristic for Constant {
    open spec fn wf(&self) -> bool {
        true
    }

    open spec fn value(&self, task: Task, state: State) -> nat {
        self.constant() as nat
    }

    fn estimate(&self, task: &Task, state: &State) -> (r: usize) {
        self.value
    }
}

} // verus!
