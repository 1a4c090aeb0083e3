//! The goal-count heuristic: how many goal literals a state does not satisfy.
use vstd::prelude::*;
use pddllib::state::{Fact, State};
use pddllib::task::Task;
use crate::heuristic::Heuristic;
use crate::pddl::{covers_goal, goal_of, has_fact, literal_met, task_goal};

verus! {

/// The number of literals among `literals` that do not hold in `state`.
pub open spec fn unmet_count(task: Task, state: State, literals: Seq<(Fact, bool)>) -> nat
    decreases literals.len(),
{
    if literals.len() == 0 {
        0
    } else {
        unmet_count(task, state, literals.drop_last()) + if literal_met(task, state, literals.last()) {
            0nat
        } else {
            1nat
        }
    }
}

/// Counts the goal literals of `task` that do not hold in `state`.
pub fn count_unmet_goals(task: &Task, state: &State) -> (r: usize)
    ensures
        r == unmet_count(*task, *state, task_goal(*task)),
{
    let goal = goal_of(task);
    let mut count: usize = 0;
    let mut k: usize = 0;
    while k < goal.len()
        invariant
            goal@ == task_goal(*task),
            k <= goal@.len(),
            count <= k,
            count == unmet_count(*task, *state, goal@.subrange(0, k as int)),
        decreases goal@.len() - k,
    {
        assert(goal@.subrange(0, k + 1).drop_last() =~= goal@.subrange(0, k as int));
        if has_fact(task, state, &goal[k].0) != goal[k].1 {
            count += 1;
        }
        k += 1;
    }
    assert(goal@.subrange(0, k as int) =~= goal@);
    count
}

/// No literal is unmet exactly when every literal holds.
proof fn lemma_unmet_zero_iff_all_met(task: Task, state: State, literals: Seq<(Fact, bool)>)
    ensures
        unmet_count(task, state, literals) == 0 <==> forall|i: int|
            0 <= i < literals.len() ==> #[trigger] literal_met(task, state, literals[i]),
    decreases literals.len(),
{
    if literals.len() > 0 {
        let init = literals.drop_last();
        lemma_unmet_zero_iff_all_met(task, state, init);
        if unmet_count(task, state, literals) == 0 {
            assert forall|i: int| 0 <= i < literals.len() implies #[trigger] literal_met(task, state, literals[i]) by {
                if i < literals.len() - 1 {
                    assert(init[i] == literals[i]);
                }
            }
        } else if forall|i: int| 0 <= i < literals.len() ==> #[trigger] literal_met(task, state, literals[i]) {
            assert forall|i: int| 0 <= i < init.len() implies #[trigger] literal_met(task, state, init[i]) by {
                assert(init[i] == literals[i]);
                assert(literal_met(task, state, literals[i]));
            }
            assert(literal_met(task, state, literals[literals.len() - 1]));
        }
    }
}

/// The goal count is zero exactly when the state covers the goal.
pub proof fn lemma_goal_count_zero_iff_goal_reached(task: Task, state: State)
    ensures
        unmet_count(task, state, task_goal(task)) == 0 <==> covers_goal(task, state),
{
    lemma_unmet_zero_iff_all_met(task, state, task_goal(task));
}

#[derive(Debug)]
pub struct GoalCount {}

impl GoalCount {
    pub fn new() -> (r: GoalCount) {
        GoalCount {}
    }
}

impl Default for GoalCount {
    fn default() -> (r: GoalCount) {
        GoalCount {}
    }
}

impl Heuristic for GoalCount {
    open spec fn wf(&self) -> bool {
        true
    }

    open spec fn value(&self, task: Task, state: State) -> nat {
        unmet_count(task, state, task_goal(task))
    }

    fn estimate(&self, task: &Task, state: &State) -> (r: usize) {
        count_unmet_goals(task, state)
    }
}

} // verus!
