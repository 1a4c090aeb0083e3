//! Search strategies over the state space of a task, each advancing by one
//! expansion per `step`, and the driver's decisions between steps.
use vstd::prelude::*;
use pddllib::state::State;
use pddllib::task::Task;

pub mod bfs;
pub mod dfs;
pub mod error;
pub mod frontier;
pub mod gbfs;
pub mod lgbfs;
pub mod driver;

pub use error::Error;
use bfs::BFS;
use dfs::DFS;
use gbfs::GBFS;
use lgbfs::LGBFS;
use crate::evaluator::Evaluator;
use crate::heuristic::{selected, HeuristicKind};
use crate::pddl::{covers_goal, initial_state_of, successor_states, task_init, task_supported};
use crate::table::StateTable;

verus! {

/// The result of one step: a plan from the initial state to a goal state,
/// or why there is none yet.
pub type StepResult = Result<Vec<State>, Error>;

/// Whether `state` is stored in `entries`.
pub open spec fn stored(entries: Seq<(State, usize)>, state: State) -> bool {
    exists|i: int| 0 <= i < entries.len() && entries[i].0 == state
}

/// The entries after offering each of `states` in order with parent
/// `parent`: a state not yet stored is appended, a stored one is skipped.
pub open spec fn insert_all(entries: Seq<(State, usize)>, states: Seq<State>, parent: usize) -> Seq<(State, usize)>
    decreases states.len(),
{
    if states.len() == 0 {
        entries
    } else {
        let before = insert_all(entries, states.drop_last(), parent);
        if stored(before, states.last()) {
            before
        } else {
            before.push((states.last(), parent))
        }
    }
}

/// Offering states only appends: the old entries stay as they were.
pub proof fn lemma_insert_all_extends(entries: Seq<(State, usize)>, states: Seq<State>, parent: usize)
    ensures
        insert_all(entries, states, parent).len() >= entries.len(),
        insert_all(entries, states, parent).len() <= entries.len() + states.len(),
        insert_all(entries, states, parent).subrange(0, entries.len() as int) == entries,
    decreases states.len(),
{
    if states.len() > 0 {
        lemma_insert_all_extends(entries, states.drop_last(), parent);
        let before = insert_all(entries, states.drop_last(), parent);
        assert(before.push((states.last(), parent)).subrange(0, entries.len() as int) =~= before.subrange(0, entries.len() as int));
    }
}

/// Each appended entry is one of the offered states with parent `parent`,
/// and every offered state ends up stored.
pub proof fn lemma_insert_all_contents(entries: Seq<(State, usize)>, states: Seq<State>, parent: usize)
    ensures
        forall|j: int| entries.len() <= j < insert_all(entries, states, parent).len() ==> {
            &&& (#[trigger] insert_all(entries, states, parent)[j]).1 == parent
            &&& states.contains(insert_all(entries, states, parent)[j].0)
        },
        forall|k: int| 0 <= k < states.len() ==> stored(insert_all(entries, states, parent), #[trigger] states[k]),
    decreases states.len(),
{
    lemma_insert_all_extends(entries, states, parent);
    if states.len() > 0 {
        let init = states.drop_last();
        lemma_insert_all_contents(entries, init, parent);
        lemma_insert_all_extends(entries, init, parent);
        let before = insert_all(entries, init, parent);
        let after = insert_all(entries, states, parent);
        assert forall|j: int| entries.len() <= j < after.len() implies {
            &&& (#[trigger] after[j]).1 == parent
            &&& states.contains(after[j].0)
        } by {
            if j < before.len() {
                assert(after[j] == before[j]);
                let t = choose|t: int| 0 <= t < init.len() && init[t] == before[j].0;
                assert(states[t] == init[t]);
            } else {
                assert(after[j] == (states.last(), parent));
                assert(states[states.len() - 1] == states.last());
            }
        }
        assert forall|k: int| 0 <= k < states.len() implies stored(after, #[trigger] states[k]) by {
            if k < init.len() {
                assert(init[k] == states[k]);
                assert(stored(before, init[k]));
                let i = choose|i: int| 0 <= i < before.len() && before[i].0 == init[k];
                assert(after[i] == before[i]);
            } else if !stored(before, states.last()) {
                assert(after[before.len() as int].0 == states.last());
            }
        }
    }
}

/// The indices `from`, `from + 1`, ..., `to - 1`.
pub open spec fn index_range(from: int, to: int) -> Seq<usize> {
    Seq::new((to - from) as nat, |j: int| (from + j) as usize)
}

/// A strategy that advances a search by one expansion per step.
pub trait SearchAlgorithm: Sized {
    spec fn wf(&self) -> bool;

    /// What one step does: from `self` to `next`, returning `r`.
    spec fn stepped(&self, task: Task, next: Self, r: StepResult) -> bool;

    fn step(&mut self, task: &Task) -> (r: StepResult)
        requires
            old(self).wf(),
            task_supported(*task),
        ensures
            final(self).wf(),
            old(self).stepped(*task, *final(self), r),
    ;
}

/// Offers each successor to the table in order, with parent `parent`.
pub fn insert_successors(table: &mut StateTable, successors: Vec<State>, parent: usize)
    requires
        old(table).wf(),
        parent < old(table).entries().len(),
    ensures
        final(table).wf(),
        final(table).entries() == insert_all(old(table).entries(), successors@, parent),
{
    let ghost start = table.entries();
    let mut k: usize = 0;
    let mut rest = successors;
    let ghost all = rest@;
    let n = rest.len();
    while k < n
        invariant
            n == all.len(),
            table.wf(),
            parent < table.entries().len(),
            k <= all.len(),
            rest@ == all.subrange(k as int, all.len() as int),
            table.entries() == insert_all(start, all.subrange(0, k as int), parent),
        decreases all.len() - k,
    {
        let s = rest.remove(0);
        assert(all.subrange(0, k + 1).drop_last() =~= all.subrange(0, k as int));
        assert(rest@ =~= all.subrange(k + 1, all.len() as int));
        let _ = table.insert_if_absent(s, parent);
        k += 1;
    }
    assert(all.subrange(0, k as int) =~= all);
}

/// Which strategy to search with, and its heuristic where it uses one.
#[derive(Debug, Clone, Copy, PartialEq, Eq)]
pub enum SearchKind {
    /// Breadth-first search.
    BFS,
    /// Depth-first search.
    DFS,
    /// Eager greedy best-first search.
    GBFS { heuristic: HeuristicKind },
    /// Lazy greedy best-first search.
    LGBFS { heuristic: HeuristicKind },
}

/// One strategy of the closed set.
pub enum Searcher {
    BFS(BFS),
    DFS(DFS),
    GBFS(GBFS),
    LGBFS(LGBFS),
}

impl SearchAlgorithm for Searcher {
    open spec fn wf(&self) -> bool {
        match self {
            Searcher::BFS(s) => s.wf(),
            Searcher::DFS(s) => s.wf(),
            Searcher::GBFS(s) => s.wf(),
            Searcher::LGBFS(s) => s.wf(),
        }
    }

    open spec fn stepped(&self, task: Task, next: Self, r: StepResult) -> bool {
        match (self, next) {
            (Searcher::BFS(s), Searcher::BFS(n)) => s.stepped(task, n, r),
            (Searcher::DFS(s), Searcher::DFS(n)) => s.stepped(task, n, r),
            (Searcher::GBFS(s), Searcher::GBFS(n)) => s.stepped(task, n, r),
            (Searcher::LGBFS(s), Searcher::LGBFS(n)) => s.stepped(task, n, r),
            _ => false,
        }
    }

    fn step(&mut self, task: &Task) -> (r: StepResult) {
        match self {
            Searcher::BFS(s) => s.step(task),
            Searcher::DFS(s) => s.step(task),
            Searcher::GBFS(s) => s.step(task),
            Searcher::LGBFS(s) => s.step(task),
        }
    }
}

impl Searcher {
    /// A search of `task` that has not stepped yet: the table holds only the
    /// initial state and the frontier only its index.
    pub open spec fn fresh(&self, task: Task) -> bool {
        let root = seq![(task_init(task), 0usize)];
        match self {
            Searcher::BFS(s) => s.entries() == root && s.next_index() == 0,
            Searcher::DFS(s) => s.entries() == root && s.stack_view() == seq![0usize],
            Searcher::GBFS(s) => s.entries() == root && s.queue_view() == seq![(0usize, 0usize)],
            Searcher::LGBFS(s) => s.entries() == root && s.queue_view() == seq![(0usize, 0usize)],
        }
    }

    /// Whether this is the strategy that `kind` selects, with its heuristic.
    pub open spec fn of_kind(&self, task: Task, kind: SearchKind) -> bool {
        match kind {
            SearchKind::BFS => self is BFS,
            SearchKind::DFS => self is DFS,
            SearchKind::GBFS { heuristic } => self matches Searcher::GBFS(s) && selected(task, heuristic, s.heuristic_view()),
            SearchKind::LGBFS { heuristic } => self matches Searcher::LGBFS(s) && selected(task, heuristic, s.heuristic_view()),
        }
    }
}

/// A fresh search of `task` with the strategy and heuristic of `kind`.
pub fn generate(task: &Task, kind: SearchKind) -> (r: Searcher)
    requires
        task_supported(*task),
    ensures
        r.wf(),
        r.fresh(*task),
        r.of_kind(*task, kind),
{
    let init = initial_state_of(task);
    match kind {
        SearchKind::BFS => Searcher::BFS(BFS::new(init)),
        SearchKind::DFS => Searcher::DFS(DFS::new(init)),
        SearchKind::GBFS { heuristic } => Searcher::GBFS(GBFS::new(init, Evaluator::new(task, heuristic))),
        SearchKind::LGBFS { heuristic } => Searcher::LGBFS(LGBFS::new(init, Evaluator::new(task, heuristic))),
    }
}

/// A task whose initial state misses the goal and has no successor is found
/// unsolvable by the first step, whatever the strategy.
pub proof fn lemma_dead_end_is_unsolvable(task: Task, before: Searcher, after: Searcher, r: StepResult)
    requires
        before.wf(),
        before.fresh(task),
        before.stepped(task, after, r),
        !covers_goal(task, task_init(task)),
        successor_states(task, task_init(task)).len() == 0,
    ensures
        r == StepResult::Err(Error::Unsolvable),
{
    let root = seq![(task_init(task), 0usize)];
    assert(insert_all(root, successor_states(task, task_init(task)), 0) == root);
    assert(root[0].0 == task_init(task));
    match before {
        Searcher::BFS(s) => {},
        Searcher::DFS(s) => {
            assert(seq![0usize].last() == 0);
            assert(seq![0usize].drop_last() + index_range(1, 1) =~= Seq::<usize>::empty());
        },
        Searcher::GBFS(s) => {
            let q = seq![(0usize, 0usize)];
            assert(frontier::min_position(q) == 0);
            assert(q.remove(0) =~= Seq::<(usize, usize)>::empty());
        },
        Searcher::LGBFS(s) => {
            let q = seq![(0usize, 0usize)];
            assert(frontier::min_position(q) == 0);
            assert(q.remove(0) =~= Seq::<(usize, usize)>::empty());
        },
    }
}

} // verus!
