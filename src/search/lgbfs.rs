//! Lazy greedy best-first search: the heuristic is evaluated once per
//! expanded state, and every new child shares that estimate.
use vstd::prelude::*;
use pddllib::state::State;
use pddllib::task::Task;
use crate::evaluator::{bumped, lower, lowest, Evaluator};
use crate::heuristic::{Estimator, Heuristic};
use crate::pddl::{covers, covers_goal, successor_states, successors_of};
use crate::search::frontier::{lemma_min_position, min_position, Frontier};
use crate::search::{insert_all, insert_successors, lemma_insert_all_extends, Error, SearchAlgorithm, StepResult};
use crate::table::{entries_wf, path_to, StateTable};

verus! {

pub struct LGBFS {
    queue: Frontier,
    table: StateTable,
    heuristic: Evaluator,
}

/// The frontier entries for the new table indices `from..to`, all with
/// estimate `estimate`.
pub open spec fn shared(estimate: usize, from: int, to: int) -> Seq<(usize, usize)> {
    Seq::new((to - from) as nat, |j: int| (estimate, (from + j) as usize))
}

impl LGBFS {
    /// The table's entries.
    pub closed spec fn entries(&self) -> Seq<(State, usize)> {
        self.table.entries()
    }

    /// The frontier: (estimate, index) pairs.
    pub closed spec fn queue_view(&self) -> Seq<(usize, usize)> {
        self.queue@
    }

    /// The evaluator's heuristic.
    pub closed spec fn heuristic_view(&self) -> Estimator {
        self.heuristic.heuristic_view()
    }

    /// The evaluator, with its counters.
    pub closed spec fn evaluator_view(&self) -> Evaluator {
        self.heuristic
    }

    /// The estimate that the heuristic gives `state`.
    pub open spec fn value(&self, task: Task, state: State) -> nat {
        self.heuristic_view().value(task, state)
    }

    /// A search that will expand `initial` first.
    pub fn new(initial: &State, heuristic: Evaluator) -> (r: LGBFS)
        requires
            heuristic.wf(),
        ensures
            r.wf(),
            r.entries() == seq![(*initial, 0usize)],
            r.queue_view() == seq![(0usize, 0usize)],
            r.heuristic_view() == heuristic.heuristic_view(),
    {
        let mut queue = Frontier::new();
        queue.push(0, 0);
        LGBFS { queue, table: StateTable::new(initial), heuristic }
    }

    /// The evaluator, for its counters.
    pub fn evaluator(&self) -> (r: &Evaluator)
        ensures
            r.heuristic_view() == self.heuristic_view(),
    {
        &self.heuristic
    }
}

impl SearchAlgorithm for LGBFS {
    open spec fn wf(&self) -> bool {
        &&& entries_wf(self.entries())
        &&& self.heuristic_view().wf()
        &&& forall|j: int| 0 <= j < self.queue_view().len() ==> #[trigger] self.queue_view()[j].1 < self.entries().len()
    }

    /// Takes out the best frontier entry: a goal state ends the search with
    /// its path; otherwise the state is evaluated once, and its successors
    /// not yet seen join the table and the frontier with that estimate.
    open spec fn stepped(&self, task: Task, next: Self, r: StepResult) -> bool {
        let e = self.entries();
        let q = self.queue_view();
        &&& next.heuristic_view() == self.heuristic_view()
        &&& if q.len() == 0 {
            &&& r == StepResult::Err(Error::Unsolvable)
            &&& next.entries() == e
            &&& next.queue_view() == q
            &&& next.evaluator_view() == self.evaluator_view()
        } else {
            let k = min_position(q);
            let i = q[k].1 as int;
            if covers_goal(task, e[i].0) {
                &&& r matches Ok(plan) && plan@ == path_to(e, i)
                &&& next.entries() == e
                &&& next.queue_view() == q.remove(k)
                &&& next.evaluator_view() == self.evaluator_view()
            } else {
                let e2 = insert_all(e, successor_states(task, e[i].0), i as usize);
                let q2 = q.remove(k) + shared(self.value(task, e[i].0) as usize, e.len() as int, e2.len() as int);
                &&& next.entries() == e2
                &&& next.queue_view() == q2
                &&& next.evaluator_view().evaluation_count() == bumped(self.evaluator_view().evaluation_count(), 1)
                &&& next.evaluator_view().best_estimate()
                    == lower(self.evaluator_view().best_estimate(), self.value(task, e[i].0) as usize)
                &&& r == StepResult::Err(if q2.len() == 0 { Error::Unsolvable } else { Error::Unfinished })
            }
        }
    }

    fn step(&mut self, task: &Task) -> (r: StepResult) {
        let (_, index) = match self.queue.pop_min() {
            Some(e) => e,
            None => return Err(Error::Unsolvable),
        };
        proof {
            let q = old(self).queue_view();
            let k = min_position(q);
            assert(old(self).wf());
            assert(q[k].1 < old(self).entries().len());
            assert forall|j: int| 0 <= j < self.queue@.len() implies #[trigger] self.queue@[j].1 < self.table.entries().len() by {
                if j < k {
                    assert(self.queue@[j] == q[j]);
                } else {
                    assert(self.queue@[j] == q[j + 1]);
                }
            }
        }
        let (node, _) = self.table.get(index);
        if covers(task, node) {
            return Ok(self.table.trace(index));
        }
        let estimate = self.heuristic.estimate(task, node);
        let successors = successors_of(task, node);
        let before = self.table.len();
        proof {
            lemma_insert_all_extends(self.table.entries(), successors@, index);
        }
        insert_successors(&mut self.table, successors, index);
        let after = self.table.len();
        let ghost base = self.queue@;
        let ghost e2 = self.table.entries();
        let ghost ev = self.heuristic;
        let mut j: usize = before;
        while j < after
            invariant
                before <= j <= after,
                after == self.table.entries().len(),
                self.table.entries() == e2,
                entries_wf(e2),
                self.heuristic == ev,
                forall|t: int| 0 <= t < base.len() ==> #[trigger] base[t].1 < before,
                self.queue@ == base + shared(estimate, before as int, j as int),
            decreases after - j,
        {
            self.queue.push(estimate, j);
            assert(self.queue@ =~= base + shared(estimate, before as int, j + 1));
            j += 1;
        }
        proof {
            assert forall|t: int| 0 <= t < self.queue@.len() implies #[trigger] self.queue@[t].1 < self.table.entries().len() by {
                if t < base.len() {
                    assert(self.queue@[t] == base[t]);
                }
            }
        }
        if self.queue.len() == 0 {
            Err(Error::Unsolvable)
        } else {
            Err(Error::Unfinished)
        }
    }
}

/// Every child that one expansion adds to the frontier gets the same
/// estimate: the expanded state's own, whatever the children's would be.
pub proof fn lemma_children_share_parent_estimate(before: LGBFS, after: LGBFS, task: Task, r: StepResult)
    requires
        before.wf(),
        before.stepped(task, after, r),
        before.queue_view().len() > 0,
        !covers_goal(task, before.entries()[before.queue_view()[min_position(before.queue_view())].1 as int].0),
    ensures
        ({
            let q = before.queue_view();
            let parent = before.entries()[q[min_position(q)].1 as int].0;
            forall|j: int| q.len() - 1 <= j < after.queue_view().len() ==>
                #[trigger] after.queue_view()[j].0 == before.value(task, parent) as usize
        }),
{
    let q = before.queue_view();
    let k = min_position(q);
    let i = q[k].1 as int;
    let e = before.entries();
    lemma_min_position(q);
    let e2 = insert_all(e, successor_states(task, e[i].0), i as usize);
    let added = shared(before.value(task, e[i].0) as usize, e.len() as int, e2.len() as int);
    assert(after.queue_view() == q.remove(k) + added);
    assert forall|j: int| q.len() - 1 <= j < after.queue_view().len() implies
        #[trigger] after.queue_view()[j].0 == before.value(task, e[i].0) as usize by {
        assert(after.queue_view()[j] == added[j - (q.len() - 1)]);
    }
}

} // verus!
