//! The add heuristic. It gives the same count as the goal-count heuristic,
//! not an additive relaxed-plan cost.
use vstd::prelude::*;
use pddllib::state::State;
use pddllib::task::Task;
use crate::heuristic::Heuristic;
use crate::heuristic::goal_count::{count_unmet_goals, unmet_count};
use crate::pddl::task_goal;

verus! {

pub struct Add {}

impl Add {
    pub fn new() -> (r: Add) {
        Add {}
    }
}

impl Heuristic for Add {
    open spec fn wf(&self) -> bool {
        true
    }

    open spec fn value(&self, task: Task, state: State) -> nat {
        unmet_count(task, state, task_goal(task))
    }

    fn estimate(&self, task: &Task, state: &State) -> (r: usize) {
        count_unmet_goals(task, state)
    }
}

} // verus!
