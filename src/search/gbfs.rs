//! Eager greedy best-first search: every generated successor is evaluated
//! before it is offered to the table, and a new one joins the frontier with
//! its own estimate.
use vstd::prelude::*;
use pddllib::state::State;
use pddllib::task::Task;
use crate::evaluator::{bumped, lower, lowest, Evaluator};
use crate::heuristic::{Estimator, Heuristic};
use crate::pddl::{covers, covers_goal, successor_states, successors_of};
use crate::search::frontier::{min_position, Frontier};
use crate::search::{insert_all, lemma_insert_all_extends, Error, SearchAlgorithm, StepResult};
use crate::table::{entries_wf, path_to, StateTable};

verus! {

pub struct GBFS {
    queue: Frontier,
    table: StateTable,
    heuristic: Evaluator,
}

/// The frontier entries for the table entries `from..to`, each with the
/// heuristic's estimate of its own state.
pub open spec fn evaluated(h: Estimator, task: Task, entries: Seq<(State, usize)>, from: int, to: int) -> Seq<(usize, usize)> {
    Seq::new((to - from) as nat, |j: int| (h.value(task, entries[from + j].0) as usize, (from + j) as usize))
}

impl GBFS {
    /// The table's entries.
    pub closed spec fn entries(&self) -> Seq<(State, usize)> {
        self.table.entries()
    }

    /// The frontier: (estimate, index) pairs.
    pub closed spec fn queue_view(&self) -> Seq<(usize, usize)> {
        self.queue@
    }

    /// The evaluator's heuristic.
    pub closed spec fn heuristic_view(&self) -> Estimator {
        self.heuristic.heuristic_view()
    }

    /// The evaluator, with its counters.
    pub closed spec fn evaluator_view(&self) -> Evaluator {
        self.heuristic
    }

    /// A search that will expand `initial` first.
    pub fn new(initial: &State, heuristic: Evaluator) -> (r: GBFS)
        requires
            heuristic.wf(),
        ensures
            r.wf(),
            r.entries() == seq![(*initial, 0usize)],
            r.queue_view() == seq![(0usize, 0usize)],
            r.heuristic_view() == heuristic.heuristic_view(),
    {
        let mut queue = Frontier::new();
        queue.push(0, 0);
        GBFS { queue, table: StateTable::new(initial), heuristic }
    }

    /// The evaluator, for its counters.
    pub fn evaluator(&self) -> (r: &Evaluator)
        ensures
            r.heuristic_view() == self.heuristic_view(),
    {
        &self.heuristic
    }
}

impl SearchAlgorithm for GBFS {
    open spec fn wf(&self) -> bool {
        &&& entries_wf(self.entries())
        &&& self.heuristic_view().wf()
        &&& forall|j: int| 0 <= j < self.queue_view().len() ==> #[trigger] self.queue_view()[j].1 < self.entries().len()
    }

    /// Takes out the best frontier entry: a goal state ends the search with
    /// its path; otherwise its successors not yet seen join the table and
    /// the frontier, each with its own estimate.
    open spec fn stepped(&self, task: Task, next: Self, r: StepResult) -> bool {
        let e = self.entries();
        let q = self.queue_view();
        &&& next.heuristic_view() == self.heuristic_view()
        &&& if q.len() == 0 {
            &&& r == StepResult::Err(Error::Unsolvable)
            &&& next.entries() == e
            &&& next.queue_view() == q
            &&& next.evaluator_view() == self.evaluator_view()
        } else {
            let k = min_position(q);
            let i = q[k].1 as int;
            if covers_goal(task, e[i].0) {
                &&& r matches Ok(plan) && plan@ == path_to(e, i)
                &&& next.entries() == e
                &&& next.queue_view() == q.remove(k)
                &&& next.evaluator_view() == self.evaluator_view()
            } else {
                let e2 = insert_all(e, successor_states(task, e[i].0), i as usize);
                let q2 = q.remove(k) + evaluated(self.heuristic_view(), task, e2, e.len() as int, e2.len() as int);
                &&& next.entries() == e2
                &&& next.queue_view() == q2
                &&& next.evaluator_view().evaluation_count()
                    == bumped(self.evaluator_view().evaluation_count(), successor_states(task, e[i].0).len())
                &&& next.evaluator_view().best_estimate() == lowest(
                    self.evaluator_view().best_estimate(),
                    self.heuristic_view(),
                    task,
                    successor_states(task, e[i].0),
                )
                &&& r == StepResult::Err(if q2.len() == 0 { Error::Unsolvable } else { Error::Unfinished })
            }
        }
    }

    fn step(&mut self, task: &Task) -> (r: StepResult) {
        let (_, index) = match self.queue.pop_min() {
            Some(e) => e,
            None => return Err(Error::Unsolvable),
        };
        proof {
            let q = old(self).queue_view();
            let k = min_position(q);
            assert(old(self).wf());
            assert(q[k].1 < old(self).entries().len());
            assert forall|j: int| 0 <= j < self.queue@.len() implies #[trigger] self.queue@[j].1 < self.table.entries().len() by {
                if j < k {
                    assert(self.queue@[j] == q[j]);
                } else {
                    assert(self.queue@[j] == q[j + 1]);
                }
            }
        }
        let (node, _) = self.table.get(index);
        if covers(task, node) {
            return Ok(self.table.trace(index));
        }
        let mut rest = successors_of(task, node);
        let ghost all = rest@;
        let ghost e = self.table.entries();
        let ghost base = self.queue@;
        let ghost h = self.heuristic.heuristic_view();
        let ghost c0 = self.heuristic.evaluation_count();
        let ghost b0 = self.heuristic.best_estimate();
        proof {
            lemma_insert_all_extends(e, all, index);
        }
        let n = rest.len();
        let mut k: usize = 0;
        while k < n
            invariant
                n == all.len(),
                k <= n,
                index < e.len(),
                rest@ == all.subrange(k as int, all.len() as int),
                self.table.wf(),
                self.table.entries() == insert_all(e, all.subrange(0, k as int), index),
                self.table.entries().len() >= e.len(),
                self.heuristic.heuristic_view() == h,
                self.heuristic.evaluation_count() == bumped(c0, k as nat),
                self.heuristic.best_estimate() == lowest(b0, h, *task, all.subrange(0, k as int)),
                h.wf(),
                forall|t: int| 0 <= t < base.len() ==> #[trigger] base[t].1 < e.len(),
                self.queue@ == base + evaluated(h, *task, self.table.entries(), e.len() as int, self.table.entries().len() as int),
            decreases n - k,
        {
            let s = rest.remove(0);
            assert(all.subrange(0, k + 1).drop_last() =~= all.subrange(0, k as int));
            assert(rest@ =~= all.subrange(k + 1, all.len() as int));
            assert(all.subrange(0, k + 1).last() == s);
            let estimate = self.heuristic.estimate(task, &s);
            let ghost old_entries = self.table.entries();
            let ghost old_queue = self.queue@;
            proof {
                lemma_insert_all_extends(e, all.subrange(0, k as int), index);
            }
            let (idx, is_new) = self.table.insert_if_absent(s, index);
            if is_new {
                self.queue.push(estimate, idx);
                proof {
                    let ne = self.table.entries();
                    assert(ne == old_entries.push((s, index)));
                    assert(self.queue@ =~= base + evaluated(h, *task, ne, e.len() as int, ne.len() as int)) by {
                        let ev = evaluated(h, *task, ne, e.len() as int, ne.len() as int);
                        let ov = evaluated(h, *task, old_entries, e.len() as int, old_entries.len() as int);
                        assert forall|j: int| 0 <= j < ov.len() implies ev[j] == ov[j] by {
                            assert(ne[e.len() + j] == old_entries[e.len() + j]);
                        }
                        assert(ev =~= ov.push((estimate, idx)));
                    }
                }
            }
            k += 1;
        }
        assert(all.subrange(0, k as int) =~= all);
        proof {
            assert forall|t: int| 0 <= t < self.queue@.len() implies #[trigger] self.queue@[t].1 < self.table.entries().len() by {
                if t < base.len() {
                    assert(self.queue@[t] == base[t]);
                }
            }
        }
        if self.queue.len() == 0 {
            Err(Error::Unsolvable)
        } else {
            Err(Error::Unfinished)
        }
    }
}

} // verus!
