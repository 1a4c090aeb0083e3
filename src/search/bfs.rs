//! Breadth-first search. The table's discovery order is the FIFO frontier:
//! the next state to expand is the one after the last expanded.
use vstd::prelude::*;
use pddllib::state::State;
use pddllib::task::Task;
use crate::pddl::{covers, covers_goal, successor_states, successors_of, task_init};
use crate::search::{insert_all, lemma_insert_all_contents, lemma_insert_all_extends, stored, insert_successors, Error, SearchAlgorithm, StepResult};
use crate::table::{depth_of, entries_wf, lemma_depth_prefix, lemma_path_shape, path_to, StateTable};

verus! {

pub struct BFS {
    index: usize,
    table: StateTable,
}

impl BFS {
    /// The table's entries.
    pub closed spec fn entries(&self) -> Seq<(State, usize)> {
        self.table.entries()
    }

    /// The index of the next state to expand.
    pub closed spec fn next_index(&self) -> int {
        self.index as int
    }

    /// A search that will expand `initial` first.
    pub fn new(initial: &State) -> (r: BFS)
        ensures
            r.wf(),
            r.entries() == seq![(*initial, 0usize)],
            r.next_index() == 0,
    {
        BFS { index: 0, table: StateTable::new(initial) }
    }
}

impl SearchAlgorithm for BFS {
    open spec fn wf(&self) -> bool {
        &&& crate::table::entries_wf(self.entries())
        &&& 0 <= self.next_index() <= self.entries().len()
    }

    /// Expands the next state in discovery order: a goal state ends the
    /// search with its path; otherwise its successors not yet seen join the
    /// table, and the search is unsolvable once no state is left.
    open spec fn stepped(&self, task: Task, next: Self, r: StepResult) -> bool {
        let e = self.entries();
        let i = self.next_index();
        if i >= e.len() {
            &&& r == StepResult::Err(Error::Unsolvable)
            &&& next.entries() == e
            &&& next.next_index() == i
        } else if covers_goal(task, e[i].0) {
            &&& r matches Ok(plan) && plan@ == path_to(e, i)
            &&& next.entries() == e
            &&& next.next_index() == i
        } else {
            let e2 = insert_all(e, successor_states(task, e[i].0), i as usize);
            &&& next.entries() == e2
            &&& next.next_index() == i + 1
            &&& r == StepResult::Err(if i + 1 >= e2.len() { Error::Unsolvable } else { Error::Unfinished })
        }
    }

    fn step(&mut self, task: &Task) -> (r: StepResult) {
        if self.index >= self.table.len() {
            return Err(Error::Unsolvable);
        }
        let (node, _) = self.table.get(self.index);
        if covers(task, node) {
            return Ok(self.table.trace(self.index));
        }
        let successors = successors_of(task, node);
        proof {
            lemma_insert_all_extends(self.table.entries(), successors@, self.index);
        }
        insert_successors(&mut self.table, successors, self.index);
        self.index += 1;
        if self.index >= self.table.len() {
            Err(Error::Unsolvable)
        } else {
            Err(Error::Unfinished)
        }
    }
}

/// A sequence of states from the initial state in which each state is a
/// successor of the one before.
pub open spec fn is_path(task: Task, p: Seq<State>) -> bool {
    &&& p.len() >= 1
    &&& p[0] == task_init(task)
    &&& forall|k: int| 0 <= k < p.len() - 1 ==> successor_states(task, #[trigger] p[k]).contains(p[k + 1])
}

/// A path that ends in a state covering the goal.
pub open spec fn is_plan(task: Task, p: Seq<State>) -> bool {
    is_path(task, p) && covers_goal(task, p.last())
}

/// What holds of a breadth-first search of `task` at every step: the table
/// is rooted at the initial state and links each entry to a parent it is a
/// successor of; depths never decrease along the table and reach at most
/// one past the next state to expand; the expanded states are no goal
/// states, and each of their successors is stored at most one level below.
pub open spec fn bfs_invariant(task: Task, b: BFS) -> bool {
    let e = b.entries();
    let idx = b.next_index();
    &&& b.wf()
    &&& e[0].0 == task_init(task)
    &&& forall|j: int| 0 < j < e.len() ==> successor_states(task, e[e[j].1 as int].0).contains(#[trigger] e[j].0)
    &&& forall|i: int, j: int| 0 <= i <= j < e.len() ==> #[trigger] depth_of(e, i) <= #[trigger] depth_of(e, j)
    &&& idx < e.len() ==> forall|j: int| 0 <= j < e.len() ==> #[trigger] depth_of(e, j) <= depth_of(e, idx) + 1
    &&& forall|i: int| 0 <= i < idx ==> !covers_goal(task, #[trigger] e[i].0)
    &&& forall|i: int, s: State| 0 <= i < idx && #[trigger] successor_states(task, e[i].0).contains(s) ==>
        exists|j: int| 0 <= j < e.len() && #[trigger] e[j].0 == s && depth_of(e, j) <= depth_of(e, i) + 1
}

/// A fresh search satisfies the invariant.
pub proof fn lemma_bfs_invariant_start(task: Task, b: BFS)
    requires
        b.wf(),
        b.entries() == seq![(task_init(task), 0usize)],
        b.next_index() == 0,
    ensures
        bfs_invariant(task, b),
{
}

/// Every step keeps the invariant.
pub proof fn lemma_bfs_invariant_step(task: Task, b: BFS, n: BFS, r: StepResult)
    requires
        bfs_invariant(task, b),
        b.stepped(task, n, r),
        n.wf(),
    ensures
        bfs_invariant(task, n),
{
    let e = b.entries();
    let idx = b.next_index();
    if idx < e.len() && !covers_goal(task, e[idx].0) {
        let succs = successor_states(task, e[idx].0);
        let e2 = insert_all(e, succs, idx as usize);
        lemma_insert_all_extends(e, succs, idx as usize);
        lemma_insert_all_contents(e, succs, idx as usize);
        assert(n.entries() == e2);
        assert(entries_wf(e2));
        let d = depth_of(e, idx);
        assert forall|j: int| 0 <= j < e.len() implies depth_of(e2, j) == depth_of(e, j) && #[trigger] e2[j] == e[j] by {
            lemma_depth_prefix(e, e2, j);
            assert(e2[j] == e2.subrange(0, e.len() as int)[j]);
        }
        assert forall|j: int| e.len() <= j < e2.len() implies #[trigger] depth_of(e2, j) == d + 1 by {
            assert(e2[j].1 == idx);
            assert(depth_of(e2, idx) == d);
        }
        assert forall|j: int| 0 < j < e2.len() implies successor_states(task, e2[e2[j].1 as int].0).contains(#[trigger] e2[j].0) by {
            if j < e.len() {
                assert(e2[j] == e[j]);
                assert(e2[e[j].1 as int] == e[e[j].1 as int]);
            } else {
                assert(e2[idx] == e[idx]);
            }
        }
        assert forall|i: int, j: int| 0 <= i <= j < e2.len() implies #[trigger] depth_of(e2, i) <= #[trigger] depth_of(e2, j) by {
            if j < e.len() {
                assert(depth_of(e2, i) == depth_of(e, i));
                assert(depth_of(e2, j) == depth_of(e, j));
            } else if i < e.len() {
                assert(depth_of(e2, i) == depth_of(e, i));
                assert(depth_of(e, i) <= d + 1);
            }
        }
        if idx + 1 < e2.len() {
            assert(depth_of(e2, idx) <= depth_of(e2, idx + 1));
            assert(depth_of(e2, idx) == d);
            assert forall|j: int| 0 <= j < e2.len() implies #[trigger] depth_of(e2, j) <= depth_of(e2, idx + 1) + 1 by {
                if j < e.len() {
                    assert(depth_of(e2, j) == depth_of(e, j));
                    assert(depth_of(e, j) <= d + 1);
                }
            }
        }
        assert forall|i: int| 0 <= i < idx + 1 implies !covers_goal(task, #[trigger] e2[i].0) by {
            assert(e2[i] == e[i]);
        }
        assert forall|i: int, s: State| 0 <= i < idx + 1 && #[trigger] successor_states(task, e2[i].0).contains(s) implies
            exists|j: int| 0 <= j < e2.len() && #[trigger] e2[j].0 == s && depth_of(e2, j) <= depth_of(e2, i) + 1 by {
            assert(e2[i] == e[i]);
            assert(depth_of(e2, i) == depth_of(e, i));
            if i < idx {
                let j = choose|j: int| 0 <= j < e.len() && #[trigger] e[j].0 == s && depth_of(e, j) <= depth_of(e, i) + 1;
                assert(e2[j] == e[j]);
                assert(depth_of(e2, j) == depth_of(e, j));
            } else {
                let k = choose|k: int| 0 <= k < succs.len() && succs[k] == s;
                assert(stored(e2, succs[k]));
                let j = choose|j: int| 0 <= j < e2.len() && e2[j].0 == succs[k];
                if j < e.len() {
                    assert(depth_of(e2, j) == depth_of(e, j));
                    assert(depth_of(e, j) <= d + 1);
                }
                assert(e2[j].0 == s && depth_of(e2, j) <= depth_of(e2, i) + 1);
            }
        }
        assert(e2[0] == e[0]);
    }
}

/// The path to an entry is a path of the task.
proof fn lemma_entry_path(task: Task, e: Seq<(State, usize)>, i: int)
    requires
        entries_wf(e),
        e[0].0 == task_init(task),
        forall|j: int| 0 < j < e.len() ==> successor_states(task, e[e[j].1 as int].0).contains(#[trigger] e[j].0),
        0 <= i < e.len(),
    ensures
        is_path(task, path_to(e, i)),
    decreases i,
{
    lemma_path_shape(e, i);
    if i > 0 {
        let pi = e[i].1 as int;
        lemma_entry_path(task, e, pi);
        lemma_path_shape(e, pi);
        let pp = path_to(e, pi);
        let p = path_to(e, i);
        assert(p == pp.push(e[i].0));
        assert forall|k: int| 0 <= k < p.len() - 1 implies successor_states(task, #[trigger] p[k]).contains(p[k + 1]) by {
            if k < pp.len() - 1 {
                assert(p[k] == pp[k] && p[k + 1] == pp[k + 1]);
            } else {
                assert(p[k] == pp.last());
                assert(p[k + 1] == e[i].0);
            }
        }
    }
}

/// Under the invariant, the first `k + 1` states of any path are stored no
/// deeper than their position, as long as they lie above the next state to
/// expand.
proof fn lemma_path_prefix_stored(task: Task, b: BFS, p: Seq<State>, k: int)
    requires
        bfs_invariant(task, b),
        b.next_index() < b.entries().len(),
        is_path(task, p),
        0 <= k < p.len(),
        k <= depth_of(b.entries(), b.next_index()),
    ensures
        exists|j: int| 0 <= j < b.entries().len() && #[trigger] b.entries()[j].0 == p[k] && depth_of(b.entries(), j) <= k,
    decreases k,
{
    let e = b.entries();
    let idx = b.next_index();
    if k == 0 {
        assert(e[0].0 == p[0]);
        assert(depth_of(e, 0) == 0);
    } else {
        lemma_path_prefix_stored(task, b, p, k - 1);
        let j = choose|j: int| 0 <= j < e.len() && #[trigger] e[j].0 == p[k - 1] && depth_of(e, j) <= k - 1;
        if j >= idx {
            assert(depth_of(e, idx) <= depth_of(e, j));
        }
        assert(j < idx);
        assert(successor_states(task, p[k - 1]).contains(p[k]));
        assert(successor_states(task, e[j].0).contains(p[k]));
        let j2 = choose|j2: int| 0 <= j2 < e.len() && #[trigger] e[j2].0 == p[k] && depth_of(e, j2) <= depth_of(e, j) + 1;
        assert(e[j2].0 == p[k]);
    }
}

/// A plan that breadth-first search returns is a plan of the task, and no
/// plan of the task has fewer states.
pub proof fn lemma_bfs_plan_is_shortest(task: Task, b: BFS, n: BFS, plan: Vec<State>, other: Seq<State>)
    requires
        bfs_invariant(task, b),
        b.stepped(task, n, Ok(plan)),
        is_plan(task, other),
    ensures
        is_plan(task, plan@),
        plan@.len() <= other.len(),
{
    let e = b.entries();
    let idx = b.next_index();
    assert(idx < e.len() && covers_goal(task, e[idx].0));
    lemma_entry_path(task, e, idx);
    lemma_path_shape(e, idx);
    let d = depth_of(e, idx);
    if other.len() < plan@.len() {
        let k = other.len() - 1;
        lemma_path_prefix_stored(task, b, other, k);
        let j = choose|j: int| 0 <= j < e.len() && #[trigger] e[j].0 == other[k] && depth_of(e, j) <= k;
        if j >= idx {
            assert(depth_of(e, idx) <= depth_of(e, j));
        }
        assert(!covers_goal(task, e[j].0));
        assert(other.last() == other[k]);
    }
}

} // verus!
