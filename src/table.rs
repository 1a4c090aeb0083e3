//! The deduplicated state table: every distinct state seen by a search, in
//! order of discovery, each with the index of the state it was generated from.
use vstd::prelude::*;
use fxhash::{FxBuildHasher, FxHasher};
use std::hash::BuildHasherDefault;
use indexmap::map::Entry;
use indexmap::IndexMap;
use pddllib::state::State;
use crate::pddl::clone_state;

verus! {

#[verifier::external_type_specification]
#[verifier::external_body]
#[verifier::reject_recursive_types(K)]
#[verifier::reject_recursive_types(V)]
#[verifier::reject_recursive_types(S)]
pub struct ExIndexMap<K, V, S>(IndexMap<K, V, S>);

#[verifier::external_type_specification]
#[verifier::external_body]
pub struct ExFxHasher(FxHasher);

#[verifier::external_type_specification]
#[verifier::external_body]
#[verifier::reject_recursive_types(H)]
pub struct ExBuildHasherDefault<H>(BuildHasherDefault<H>);

/// The entries of an insertion-ordered map from states to parent indices.
pub uninterp spec fn map_entries(m: IndexMap<State, usize, FxBuildHasher>) -> Seq<(State, usize)>;

/// Relies on `IndexMap::default`: the new map is empty.
#[verifier::external_body]
fn empty_map() -> (m: IndexMap<State, usize, FxBuildHasher>)
    ensures
        map_entries(m) == Seq::<(State, usize)>::empty(),
{
    IndexMap::default()
}

/// Relies on `IndexMap::len`: the number of entries.
#[verifier::external_body]
fn map_len(m: &IndexMap<State, usize, FxBuildHasher>) -> (r: usize)
    ensures
        r == map_entries(*m).len(),
{
    m.len()
}

/// Relies on `IndexMap::get_index`: the entry at a position below the length.
#[verifier::external_body]
fn map_get(m: &IndexMap<State, usize, FxBuildHasher>, i: usize) -> (r: (&State, usize))
    requires
        i < map_entries(*m).len(),
    ensures
        *r.0 == map_entries(*m)[i as int].0,
        r.1 == map_entries(*m)[i as int].1,
{
    let (s, p) = m.get_index(i).unwrap();
    (s, *p)
}

/// Relies on `IndexMap::entry`: an occupied entry keeps the stored key, its
/// position and its value; a vacant one is filled last in order. Two states
/// are equal exactly when their fact sets are.
#[verifier::external_body]
fn map_insert_absent(m: &mut IndexMap<State, usize, FxBuildHasher>, s: State, parent: usize) -> (r: (usize, bool))
    ensures
        (exists|i: int| 0 <= i < map_entries(*old(m)).len() && map_entries(*old(m))[i].0 == s) ==> {
            &&& !r.1
            &&& r.0 < map_entries(*old(m)).len()
            &&& map_entries(*old(m))[r.0 as int].0 == s
            &&& map_entries(*final(m)) == map_entries(*old(m))
        },
        !(exists|i: int| 0 <= i < map_entries(*old(m)).len() && map_entries(*old(m))[i].0 == s) ==> {
            &&& r.1
            &&& r.0 == map_entries(*old(m)).len()
            &&& map_entries(*final(m)) == map_entries(*old(m)).push((s, parent))
        },
{
    match m.entry(s) {
        Entry::Occupied(e) => (e.index(), false),
        Entry::Vacant(e) => {
            let i = e.index();
            e.insert(parent);
            (i, true)
        },
    }
}

/// The states of a table in discovery order, each with its parent's index.
pub struct StateTable {
    map: IndexMap<State, usize, FxBuildHasher>,
}

/// The path from the root to entry `i`, following parent links.
pub open spec fn path_to(entries: Seq<(State, usize)>, i: int) -> Seq<State>
    decreases i,
{
    if i <= 0 || i >= entries.len() {
        seq![entries[0].0]
    } else if entries[i].1 < i {
        path_to(entries, entries[i].1 as int).push(entries[i].0)
    } else {
        seq![entries[i].0]
    }
}

/// The number of parent links from the root to entry `i`.
pub open spec fn depth_of(entries: Seq<(State, usize)>, i: int) -> nat
    decreases i,
{
    if i <= 0 || i >= entries.len() {
        0
    } else if entries[i].1 < i {
        depth_of(entries, entries[i].1 as int) + 1
    } else {
        0
    }
}

/// Well-formed entries: the root is its own parent, every other entry's
/// parent was discovered before it, and no state is stored twice.
pub open spec fn entries_wf(entries: Seq<(State, usize)>) -> bool {
    &&& 1 <= entries.len() <= usize::MAX
    &&& entries[0].1 == 0
    &&& forall|i: int| 0 < i < entries.len() ==> #[trigger] entries[i].1 < i
    &&& forall|i: int, j: int|
        0 <= i < entries.len() && 0 <= j < entries.len() && i != j ==> #[trigger] entries[i].0 != #[trigger] entries[j].0
}

/// What offering `state` with `parent` does: a stored state keeps its
/// index, reported as not new, and the entries stay; any other state is
/// appended with `parent`, at the next index, reported as new.
pub open spec fn insertion(
    before: Seq<(State, usize)>,
    state: State,
    parent: usize,
    after: Seq<(State, usize)>,
    r: (usize, bool),
) -> bool {
    if exists|i: int| 0 <= i < before.len() && before[i].0 == state {
        &&& !r.1
        &&& r.0 < before.len()
        &&& before[r.0 as int].0 == state
        &&& after == before
    } else {
        &&& r.1
        &&& r.0 == before.len()
        &&& after == before.push((state, parent))
    }
}

impl StateTable {
    /// The table's entries: states with their parents' indices.
    pub closed spec fn entries(&self) -> Seq<(State, usize)> {
        map_entries(self.map)
    }

    pub open spec fn wf(&self) -> bool {
        entries_wf(self.entries())
    }

    /// A table holding only the initial state, at index 0, as its own parent.
    pub fn new(initial: &State) -> (t: StateTable)
        ensures
            t.wf(),
            t.entries() == seq![(*initial, 0usize)],
    {
        let mut map = empty_map();
        let (_, _) = map_insert_absent(&mut map, clone_state(initial), 0);
        assert(map_entries(map) =~= seq![(*initial, 0usize)]);
        StateTable { map }
    }

    pub fn len(&self) -> (r: usize)
        ensures
            r == self.entries().len(),
    {
        map_len(&self.map)
    }

    /// The state at `index` and its parent's index.
    pub fn get(&self, index: usize) -> (r: (&State, usize))
        requires
            index < self.entries().len(),
        ensures
            *r.0 == self.entries()[index as int].0,
            r.1 == self.entries()[index as int].1,
    {
        map_get(&self.map, index)
    }

    /// Stores `state` with parent `parent` unless an equal state is stored.
    /// Returns the state's index and whether it was new; a stored state keeps
    /// its index and its first parent.
    pub fn insert_if_absent(&mut self, state: State, parent: usize) -> (r: (usize, bool))
        requires
            old(self).wf(),
            parent < old(self).entries().len()
                || exists|i: int| 0 <= i < old(self).entries().len() && old(self).entries()[i].0 == state,
        ensures
            final(self).wf(),
            insertion(old(self).entries(), state, parent, final(self).entries(), r),
    {
        let r = map_insert_absent(&mut self.map, state, parent);
        let _ = map_len(&self.map);
        proof {
            let o = map_entries(old(self).map);
            let n = map_entries(self.map);
            if r.1 {
                assert forall|i: int, j: int|
                    0 <= i < n.len() && 0 <= j < n.len() && i != j implies #[trigger] n[i].0 != #[trigger] n[j].0 by {
                    if i < o.len() && j < o.len() {
                        assert(n[i] == o[i] && n[j] == o[j]);
                    } else if i < o.len() {
                        assert(n[i] == o[i]);
                    } else {
                        assert(n[j] == o[j]);
                    }
                }
                assert forall|i: int| 0 < i < n.len() implies #[trigger] n[i].1 < i by {
                    if i < o.len() {
                        assert(n[i] == o[i]);
                    }
                }
            }
        }
        r
    }

    /// The states on the path from the root to `index`, root first.
    pub fn trace(&self, index: usize) -> (r: Vec<State>)
        requires
            self.wf(),
            index < self.entries().len(),
        ensures
            r@ == path_to(self.entries(), index as int),
            r@.len() == depth_of(self.entries(), index as int) + 1,
        decreases index,
    {
        let (state, parent) = self.get(index);
        if index == 0 {
            let mut r = Vec::new();
            r.push(clone_state(state));
            r
        } else {
            let mut r = self.trace(parent);
            r.push(clone_state(state));
            r
        }
    }
}

/// Inserting a state that the table already holds returns the index it
/// was stored at and reports it as not new, whatever parent is offered,
/// and leaves the table as it was.
pub proof fn lemma_insert_present_is_idempotent(
    before: Seq<(State, usize)>,
    state: State,
    parent: usize,
    after: Seq<(State, usize)>,
    r: (usize, bool),
    i: int,
)
    requires
        entries_wf(before),
        0 <= i < before.len(),
        before[i].0 == state,
        insertion(before, state, parent, after, r),
    ensures
        r == (i as usize, false),
        after == before,
{
}

/// Entries that stay as a prefix keep their depths.
pub proof fn lemma_depth_prefix(e: Seq<(State, usize)>, e2: Seq<(State, usize)>, i: int)
    requires
        entries_wf(e),
        e.len() <= e2.len(),
        e2.subrange(0, e.len() as int) == e,
        0 <= i < e.len(),
    ensures
        depth_of(e2, i) == depth_of(e, i),
    decreases i,
{
    assert(e2[i] == e2.subrange(0, e.len() as int)[i]);
    if i > 0 {
        lemma_depth_prefix(e, e2, e[i].1 as int);
    }
}

/// The path to an entry has one state more than the entry's depth, starts
/// at the root and ends at the entry.
pub proof fn lemma_path_shape(e: Seq<(State, usize)>, i: int)
    requires
        entries_wf(e),
        0 <= i < e.len(),
    ensures
        path_to(e, i).len() == depth_of(e, i) + 1,
        path_to(e, i)[0] == e[0].0,
        path_to(e, i).last() == e[i].0,
    decreases i,
{
    if i > 0 {
        lemma_path_shape(e, e[i].1 as int);
    }
}

} // verus!
