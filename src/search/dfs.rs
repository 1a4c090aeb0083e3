//! Depth-first search: the frontier is a stack of table indices.
use vstd::prelude::*;
use pddllib::state::State;
use pddllib::task::Task;
use crate::pddl::{covers, covers_goal, successor_states, successors_of};
use crate::search::{index_range, insert_all, insert_successors, lemma_insert_all_extends, Error, SearchAlgorithm, StepResult};
use crate::table::{entries_wf, path_to, StateTable};

verus! {

pub struct DFS {
    stack: Vec<usize>,
    table: StateTable,
}

impl DFS {
    /// The table's entries.
    pub closed spec fn entries(&self) -> Seq<(State, usize)> {
        self.table.entries()
    }

    /// The stack of indices still to expand; the last is expanded next.
    pub closed spec fn stack_view(&self) -> Seq<usize> {
        self.stack@
    }

    /// A search that will expand `initial` first.
    pub fn new(initial: &State) -> (r: DFS)
        ensures
            r.wf(),
            r.entries() == seq![(*initial, 0usize)],
            r.stack_view() == seq![0usize],
    {
        let mut stack: Vec<usize> = Vec::new();
        stack.push(0);
        DFS { stack, table: StateTable::new(initial) }
    }
}

impl SearchAlgorithm for DFS {
    open spec fn wf(&self) -> bool {
        &&& entries_wf(self.entries())
        &&& forall|j: int| 0 <= j < self.stack_view().len() ==> #[trigger] self.stack_view()[j] < self.entries().len()
    }

    /// Pops the top of the stack: a goal state ends the search with its
    /// path; otherwise its successors not yet seen join the table and are
    /// pushed in generation order, and the search is unsolvable once the
    /// stack is empty.
    open spec fn stepped(&self, task: Task, next: Self, r: StepResult) -> bool {
        let e = self.entries();
        let st = self.stack_view();
        if st.len() == 0 {
            &&& r == StepResult::Err(Error::Unsolvable)
            &&& next.entries() == e
            &&& next.stack_view() == st
        } else {
            let i = st.last() as int;
            if covers_goal(task, e[i].0) {
                &&& r matches Ok(plan) && plan@ == path_to(e, i)
                &&& next.entries() == e
                &&& next.stack_view() == st.drop_last()
            } else {
                let e2 = insert_all(e, successor_states(task, e[i].0), i as usize);
                let st2 = st.drop_last() + index_range(e.len() as int, e2.len() as int);
                &&& next.entries() == e2
                &&& next.stack_view() == st2
                &&& r == StepResult::Err(if st2.len() == 0 { Error::Unsolvable } else { Error::Unfinished })
            }
        }
    }

    fn step(&mut self, task: &Task) -> (r: StepResult) {
        let index = match self.stack.pop() {
            Some(index) => index,
            None => return Err(Error::Unsolvable),
        };
        proof {
            let st = old(self).stack@;
            assert(old(self).wf());
            assert(self.stack@ =~= old(self).stack@.drop_last());
            assert(st == old(self).stack_view());
            assert(index == st[st.len() - 1]);
            assert(old(self).stack_view()[st.len() - 1] < old(self).entries().len());
            assert(index < self.table.entries().len());
            assert forall|j: int| 0 <= j < self.stack@.len() implies #[trigger] self.stack@[j] < self.table.entries().len() by {
                assert(self.stack@[j] == st[j]);
                assert(old(self).stack_view()[j] < old(self).entries().len());
            }
        }
        let (node, _) = self.table.get(index);
        if covers(task, node) {
            return Ok(self.table.trace(index));
        }
        let successors = successors_of(task, node);
        let before = self.table.len();
        proof {
            lemma_insert_all_extends(self.table.entries(), successors@, index);
        }
        insert_successors(&mut self.table, successors, index);
        let after = self.table.len();
        let ghost base = self.stack@;
        let ghost e2 = self.table.entries();
        let mut j: usize = before;
        while j < after
            invariant
                before <= j <= after,
                after == self.table.entries().len(),
                self.table.entries() == e2,
                entries_wf(self.table.entries()),
                forall|t: int| 0 <= t < base.len() ==> #[trigger] base[t] < before,
                self.stack@ == base + index_range(before as int, j as int),
            decreases after - j,
        {
            self.stack.push(j);
            assert(self.stack@ =~= base + index_range(before as int, j + 1));
            j += 1;
        }
        assert(self.stack@ == old(self).stack_view().drop_last() + index_range(before as int, after as int));
        assert(old(self).stack_view().last() == index);
        assert(self.table.entries() == insert_all(old(self).entries(), successor_states(*task, old(self).entries()[index as int].0), index));
        assert(!covers_goal(*task, old(self).entries()[index as int].0));
        if self.stack.len() == 0 {
            Err(Error::Unsolvable)
        } else {
            Err(Error::Unfinished)
        }
    }
}

} // verus!
