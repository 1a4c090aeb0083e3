//! Heuristics: estimates of how far a state is from a task's goal. The set
//! is closed; `generate` picks one by its kind.
use vstd::prelude::*;
use pddllib::state::State;
use pddllib::task::Task;

pub mod add;
pub mod constant;
pub mod goal_count;
pub mod goal_graph;

use add::Add;
use constant::Constant;
use goal_count::GoalCount;
use goal_graph::{lemma_goal_graph_value_determined, node_built, GoalGraph, MAX_DEPTH};
use crate::pddl::{task_goal, task_supported};

verus! {

/// An estimate of the distance from a state to the goal: a non-negative
/// integer, smaller meaning closer.
pub trait Heuristic {
    /// The internal tables that `estimate` relies on are consistent.
    spec fn wf(&self) -> bool;

    /// The estimate for `state`.
    spec fn value(&self, task: Task, state: State) -> nat;

    fn estimate(&self, task: &Task, state: &State) -> (r: usize)
        requires
            self.wf(),
        ensures
            r == self.value(*task, *state),
    ;
}

/// Which heuristic to use, with its setting.
#[derive(Debug, Clone, Copy, PartialEq, Eq)]
pub enum HeuristicKind {
    /// Always the given value.
    Constant { value: usize },
    /// The number of goal literals that the state does not satisfy.
    GoalCount,
    /// The goal graph built with the given weight budget.
    GoalGraph { weight: usize },
    /// The same count as `GoalCount`.
    Add,
}

/// One heuristic of the closed set.
pub enum Estimator {
    Constant(Constant),
    GoalCount(GoalCount),
    GoalGraph(GoalGraph),
    Add(Add),
}

impl Heuristic for Estimator {
    open spec fn wf(&self) -> bool {
        match self {
            Estimator::GoalGraph(g) => g.wf(),
            _ => true,
        }
    }

    open spec fn value(&self, task: Task, state: State) -> nat {
        match self {
            Estimator::Constant(h) => h.value(task, state),
            Estimator::GoalCount(h) => h.value(task, state),
            Estimator::GoalGraph(h) => h.value(task, state),
            Estimator::Add(h) => h.value(task, state),
        }
    }

    fn estimate(&self, task: &Task, state: &State) -> (r: usize) {
        match self {
            Estimator::Constant(h) => h.estimate(task, state),
            Estimator::GoalCount(h) => h.estimate(task, state),
            Estimator::GoalGraph(h) => h.estimate(task, state),
            Estimator::Add(h) => h.estimate(task, state),
        }
    }
}

/// Whether `e` is the heuristic that `kind` selects for `task`.
pub open spec fn selected(task: Task, kind: HeuristicKind, e: Estimator) -> bool {
    match kind {
        HeuristicKind::Constant { value } => e matches Estimator::Constant(c) && c.constant() == value,
        HeuristicKind::GoalCount => e is GoalCount,
        HeuristicKind::Add => e is Add,
        HeuristicKind::GoalGraph { weight } => e matches Estimator::GoalGraph(g) && {
            &&& g.weight_budget() == weight
            &&& g.built_from(task)
            &&& g.roots_view().len() == task_goal(task).len()
            &&& forall|k: int| 0 <= k < task_goal(task).len() ==>
                node_built(g.nodes_view(), #[trigger] g.roots_view()[k] as int, task, task_goal(task)[k], weight, MAX_DEPTH)
        },
    }
}

/// The heuristic that `kind` selects, built for `task`.
pub fn generate(task: &Task, kind: HeuristicKind) -> (r: Estimator)
    requires
        task_supported(*task),
    ensures
        r.wf(),
        selected(*task, kind, r),
{
    match kind {
        HeuristicKind::Constant { value } => Estimator::Constant(Constant::new(value)),
        HeuristicKind::GoalCount => Estimator::GoalCount(GoalCount::new()),
        HeuristicKind::GoalGraph { weight } => Estimator::GoalGraph(GoalGraph::new(task, weight)),
        HeuristicKind::Add => Estimator::Add(Add::new()),
    }
}

/// Two heuristics that `kind` selects for `task` give every state the
/// same estimate: the estimate depends on the kind and the task alone.
pub proof fn lemma_selected_value_determined(task: Task, kind: HeuristicKind, e1: Estimator, e2: Estimator, state: State)
    requires
        e1.wf(),
        e2.wf(),
        selected(task, kind, e1),
        selected(task, kind, e2),
    ensures
        e1.value(task, state) == e2.value(task, state),
{
    if let (Estimator::GoalGraph(g1), Estimator::GoalGraph(g2)) = (e1, e2) {
        lemma_goal_graph_value_determined(g1, g2, task, state);
    }
}

} // verus!
