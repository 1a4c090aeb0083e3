//! The planning task and its states, as `pddllib` provides them.
//!
//! Facts, states and tasks are opaque here: facts and states keep their
//! contents private, and a task names a type that cannot be declared. The
//! actions a task holds are plain data that the goal graph reads directly;
//! everything else is read through the functions below, and what `pddllib`
//! computes is named by the spec functions they state their results with.
use vstd::prelude::*;
use pddllib::state::{Fact, State};
use pddllib::task::Task;
use pddllib::task::action::{Action, Argument, Atom, AtomKind};
use pddllib::successor_generation::successors;
use itertools::Itertools;
use pddllib::task::parameter::Parameter;

verus! {

#[verifier::external_type_specification]
#[verifier::external_body]
pub struct ExFact(Fact);

#[verifier::external_type_specification]
#[verifier::external_body]
pub struct ExState(State);

/// Declared so that the goal graph can read actions field by field.
#[verifier::external_type_specification]
pub struct ExParameter(Parameter);

#[verifier::external_type_specification]
pub struct ExAtomKind(AtomKind);

#[verifier::external_type_specification]
pub struct ExArgument(Argument);

#[verifier::external_type_specification]
pub struct ExAtom(Atom);

#[verifier::external_type_specification]
pub struct ExAction(Action);

#[verifier::external_type_specification]
#[verifier::external_body]
pub struct ExTask(Task);

/// The goal literals of a task, in the task's order.
pub uninterp spec fn task_goal(task: Task) -> Seq<(Fact, bool)>;

/// The ground actions of a task.
pub uninterp spec fn task_actions(task: Task) -> Seq<Action>;

/// For each type, the objects of that type.
pub uninterp spec fn task_objects_typed(task: Task) -> Seq<Seq<usize>>;

/// The predicates that no action changes.
pub uninterp spec fn task_static_predicates(task: Task) -> Set<usize>;

/// The initial state of a task.
pub uninterp spec fn task_init(task: Task) -> State;

/// Whether `fact` holds in `state` under `task`.
pub uninterp spec fn fact_holds(task: Task, state: State, fact: Fact) -> bool;

/// The states reached from `state` by applying one applicable ground action,
/// in generation order.
pub uninterp spec fn successor_states(task: Task, state: State) -> Seq<State>;

/// The predicate of a fact.
pub uninterp spec fn fact_predicate(fact: Fact) -> usize;

/// The argument objects of a fact.
pub uninterp spec fn fact_args(fact: Fact) -> Seq<usize>;

/// The fact of a predicate applied to objects.
pub uninterp spec fn fact_of(predicate: usize, args: Seq<usize>) -> Fact;

/// A goal literal holds when its fact's truth equals the required value.
pub open spec fn literal_met(task: Task, state: State, literal: (Fact, bool)) -> bool {
    fact_holds(task, state, literal.0) == literal.1
}

/// A state covers a task's goal when every goal literal holds in it.
pub open spec fn covers_goal(task: Task, state: State) -> bool {
    forall|i: int| 0 <= i < task_goal(task).len() ==> #[trigger] literal_met(task, state, task_goal(task)[i])
}

/// Every combination that picks one value from each choice list, in
/// lexicographic order; no lists give one empty combination.
pub open spec fn product(choices: Seq<Seq<usize>>) -> Seq<Seq<usize>>
    decreases choices.len(), 1int,
{
    if choices.len() == 0 {
        seq![Seq::<usize>::empty()]
    } else {
        prefix_each(choices, choices[0])
    }
}

/// `xs[k] + t` for each leading value `xs[k]` in order and, within it, each
/// combination `t` of the remaining choice lists.
pub open spec fn prefix_each(choices: Seq<Seq<usize>>, xs: Seq<usize>) -> Seq<Seq<usize>>
    decreases choices.len(), 0int, xs.len(),
{
    if choices.len() == 0 || xs.len() == 0 {
        Seq::empty()
    } else {
        product(choices.drop_first()).map_values(|t: Seq<usize>| seq![xs[0]] + t)
            + prefix_each(choices, xs.drop_first())
    }
}

/// Predicates must fit the 16 bits that a fact gives them.
pub const PREDICATE_LIMIT: usize = 65536;

/// Objects must fit the 16 bits that a fact gives each argument, plus one.
pub const OBJECT_LIMIT: usize = 65535;

/// Every value of `s` is below `bound`.
pub open spec fn all_below(s: Seq<usize>, bound: usize) -> bool {
    forall|k: int| 0 <= k < s.len() ==> #[trigger] s[k] < bound
}

/// Every argument of the fact is an object that a fact can hold.
pub open spec fn fact_supported(fact: Fact) -> bool {
    all_below(fact_args(fact), OBJECT_LIMIT)
}

/// An argument refers to a parameter of its action, or is a constant that a
/// fact can hold.
pub open spec fn arg_supported(params: nat, arg: Argument) -> bool {
    match arg {
        Argument::Index(i) => i < params,
        Argument::Const(c) => c < OBJECT_LIMIT,
    }
}

/// An atom's predicate and arguments fit a fact, and a one-argument
/// precondition takes a parameter, not a constant.
pub open spec fn atom_supported(params: nat, atom: Atom, precondition: bool) -> bool {
    &&& atom.predicate < PREDICATE_LIMIT
    &&& atom.args@.len() <= 3
    &&& forall|k: int| 0 <= k < atom.args@.len() ==> arg_supported(params, #[trigger] atom.args@[k])
    &&& precondition && atom.args@.len() == 1 ==> atom.args@[0] is Index
}

/// Every parameter's type exists, and every atom is supported.
pub open spec fn action_supported(types: nat, action: Action) -> bool {
    let params = action.parameters@.len();
    &&& forall|k: int| 0 <= k < params ==> (#[trigger] action.parameters@[k]).type_index < types
    &&& forall|k: int| 0 <= k < action.precondition@.len() ==> atom_supported(params, #[trigger] action.precondition@[k], true)
    &&& forall|k: int| 0 <= k < action.effect@.len() ==> atom_supported(params, #[trigger] action.effect@[k], false)
}

/// A task that `pddllib` can generate successors for without panicking, and
/// whose facts its encoding holds: supported actions, objects below the
/// object limit, and goal facts with such objects.
pub open spec fn task_supported(task: Task) -> bool {
    &&& forall|k: int| 0 <= k < task_actions(task).len() ==>
        action_supported(task_objects_typed(task).len(), #[trigger] task_actions(task)[k])
    &&& forall|t: int| 0 <= t < task_objects_typed(task).len() ==>
        all_below(#[trigger] task_objects_typed(task)[t], OBJECT_LIMIT)
    &&& forall|k: int| 0 <= k < task_goal(task).len() ==> fact_supported(#[trigger] task_goal(task)[k].0)
}

fn objects_below(s: &Vec<usize>, bound: usize) -> (r: bool)
    ensures
        r == all_below(s@, bound),
{
    let mut k: usize = 0;
    while k < s.len()
        invariant
            k <= s@.len(),
            forall|j: int| 0 <= j < k ==> s@[j] < bound,
        decreases s@.len() - k,
    {
        if s[k] >= bound {
            return false;
        }
        k += 1;
    }
    true
}

fn check_atom(params: usize, atom: &Atom, precondition: bool) -> (r: bool)
    ensures
        r == atom_supported(params as nat, *atom, precondition),
{
    if atom.predicate >= PREDICATE_LIMIT || atom.args.len() > 3 {
        return false;
    }
    if precondition && atom.args.len() == 1 {
        if let Argument::Const(_) = atom.args[0] {
            return false;
        }
    }
    let mut k: usize = 0;
    while k < atom.args.len()
        invariant
            k <= atom.args@.len(),
            forall|j: int| 0 <= j < k ==> arg_supported(params as nat, #[trigger] atom.args@[j]),
        decreases atom.args@.len() - k,
    {
        let ok = match &atom.args[k] {
            Argument::Index(i) => *i < params,
            Argument::Const(c) => *c < OBJECT_LIMIT,
        };
        if !ok {
            assert(!arg_supported(params as nat, atom.args@[k as int]));
            return false;
        }
        k += 1;
    }
    true
}

fn check_atoms(params: usize, atoms: &Vec<Atom>, precondition: bool) -> (r: bool)
    ensures
        r == forall|k: int| 0 <= k < atoms@.len() ==> atom_supported(params as nat, #[trigger] atoms@[k], precondition),
{
    let mut k: usize = 0;
    while k < atoms.len()
        invariant
            k <= atoms@.len(),
            forall|j: int| 0 <= j < k ==> atom_supported(params as nat, #[trigger] atoms@[j], precondition),
        decreases atoms@.len() - k,
    {
        if !check_atom(params, &atoms[k], precondition) {
            return false;
        }
        k += 1;
    }
    true
}

fn check_action(types: usize, action: &Action) -> (r: bool)
    ensures
        r == action_supported(types as nat, *action),
{
    let params = action.parameters.len();
    let mut k: usize = 0;
    while k < params
        invariant
            params == action.parameters@.len(),
            k <= params,
            forall|j: int| 0 <= j < k ==> (#[trigger] action.parameters@[j]).type_index < types,
        decreases params - k,
    {
        if action.parameters[k].type_index >= types {
            return false;
        }
        k += 1;
    }
    check_atoms(params, &action.precondition, true) && check_atoms(params, &action.effect, false)
}

/// Whether `task` is one that successor generation and the fact encoding
/// handle: every search and heuristic of this library asks for it.
pub fn check_task(task: &Task) -> (r: bool)
    ensures
        r == task_supported(*task),
{
    let actions = actions_of(task);
    let typed = objects_typed_of(task);
    let types = typed.len();
    let mut k: usize = 0;
    while k < actions.len()
        invariant
            actions@ == task_actions(*task),
            types == task_objects_typed(*task).len(),
            k <= actions@.len(),
            forall|j: int| 0 <= j < k ==> action_supported(types as nat, #[trigger] task_actions(*task)[j]),
        decreases actions@.len() - k,
    {
        if !check_action(types, &actions[k]) {
            return false;
        }
        k += 1;
    }
    let mut t: usize = 0;
    while t < types
        invariant
            typed.deep_view() == task_objects_typed(*task),
            types == typed@.len(),
            t <= types,
            forall|j: int| 0 <= j < t ==> all_below(#[trigger] task_objects_typed(*task)[j], OBJECT_LIMIT),
        decreases types - t,
    {
        assert(typed@[t as int]@ == typed.deep_view()[t as int]);
        if !objects_below(&typed[t], OBJECT_LIMIT) {
            return false;
        }
        t += 1;
    }
    let goal = goal_of(task);
    let mut g: usize = 0;
    while g < goal.len()
        invariant
            goal@ == task_goal(*task),
            g <= goal@.len(),
            forall|j: int| 0 <= j < g ==> fact_supported(#[trigger] task_goal(*task)[j].0),
        decreases goal@.len() - g,
    {
        let args = args_of(&goal[g].0);
        if !objects_below(&args, OBJECT_LIMIT) {
            return false;
        }
        g += 1;
    }
    true
}

/// Every combination of a product has one value per choice list, each
/// below `bound` when every choice is.
pub proof fn lemma_product_bounded(choices: Seq<Seq<usize>>, bound: usize)
    requires
        forall|i: int| 0 <= i < choices.len() ==> all_below(#[trigger] choices[i], bound),
    ensures
        forall|j: int| 0 <= j < product(choices).len() ==>
            (#[trigger] product(choices)[j]).len() == choices.len() && all_below(product(choices)[j], bound),
    decreases choices.len(), 1int,
{
    if choices.len() > 0 {
        lemma_prefix_each_bounded(choices, choices[0], bound);
        assert(product(choices) == prefix_each(choices, choices[0]));
    } else {
        assert(product(choices) == seq![Seq::<usize>::empty()]);
        assert(product(choices)[0].len() == 0);
    }
}

proof fn lemma_prefix_each_bounded(choices: Seq<Seq<usize>>, xs: Seq<usize>, bound: usize)
    requires
        choices.len() > 0,
        forall|i: int| 0 <= i < choices.len() ==> all_below(#[trigger] choices[i], bound),
        all_below(xs, bound),
    ensures
        forall|j: int| 0 <= j < prefix_each(choices, xs).len() ==>
            (#[trigger] prefix_each(choices, xs)[j]).len() == choices.len() && all_below(prefix_each(choices, xs)[j], bound),
    decreases choices.len(), 0int, xs.len(),
{
    if xs.len() > 0 {
        let rest = choices.drop_first();
        assert forall|i: int| 0 <= i < rest.len() implies all_below(#[trigger] rest[i], bound) by {
            assert(rest[i] == choices[i + 1]);
        }
        lemma_product_bounded(rest, bound);
        let tail = xs.drop_first();
        assert(all_below(tail, bound)) by {
            assert forall|k: int| 0 <= k < tail.len() implies #[trigger] tail[k] < bound by {
                assert(tail[k] == xs[k + 1]);
            }
        }
        lemma_prefix_each_bounded(choices, tail, bound);
        let head = product(rest).map_values(|t: Seq<usize>| seq![xs[0]] + t);
        let all = prefix_each(choices, xs);
        assert(all == head + prefix_each(choices, tail));
        assert forall|j: int| 0 <= j < all.len() implies
            (#[trigger] all[j]).len() == choices.len() && all_below(all[j], bound) by {
            if j < head.len() {
                let t = product(rest)[j];
                assert(all[j] == seq![xs[0]] + t);
                assert forall|k: int| 0 <= k < all[j].len() implies #[trigger] all[j][k] < bound by {
                    if k > 0 {
                        assert(all[j][k] == t[k - 1]);
                    }
                }
            } else {
                assert(all[j] == prefix_each(choices, tail)[j - head.len()]);
            }
        }
    }
}

/// Relies on the public field `Task::goal`.
#[verifier::external_body]
pub(crate) fn goal_of(task: &Task) -> (r: &Vec<(Fact, bool)>)
    ensures
        r@ == task_goal(*task),
{
    &task.goal
}

/// Relies on the public field `Task::actions`.
#[verifier::external_body]
pub(crate) fn actions_of(task: &Task) -> (r: &Vec<Action>)
    ensures
        r@ == task_actions(*task),
{
    &task.actions
}

/// Relies on the public field `Task::objects_typed`.
#[verifier::external_body]
pub(crate) fn objects_typed_of(task: &Task) -> (r: &Vec<Vec<usize>>)
    ensures
        r.deep_view() == task_objects_typed(*task),
{
    &task.objects_typed
}

/// Relies on the public field `Task::init`.
#[verifier::external_body]
pub(crate) fn initial_state_of(task: &Task) -> (r: &State)
    ensures
        *r == task_init(*task),
{
    &task.init
}

/// Relies on `BTreeSet::contains` over the public field `Task::static_predicates`.
#[verifier::external_body]
pub(crate) fn is_static_predicate(task: &Task, predicate: usize) -> (r: bool)
    ensures
        r == task_static_predicates(*task).contains(predicate),
{
    task.static_predicates.contains(&predicate)
}

/// Relies on `State::has_fact`: whether the fact is static in the task or
/// one of the state's facts.
#[verifier::external_body]
pub(crate) fn has_fact(task: &Task, state: &State, fact: &Fact) -> (r: bool)
    ensures
        r == fact_holds(*task, *state, *fact),
{
    state.has_fact(task, fact)
}

/// Relies on `State::covers`: every goal literal's fact has the required
/// truth value under `State::has_fact`.
#[verifier::external_body]
pub(crate) fn covers(task: &Task, state: &State) -> (r: bool)
    ensures
        r == covers_goal(*task, *state),
{
    state.covers(task, &task.goal)
}

/// Relies on `pddllib::successor_generation::successors`: the result depends
/// on the task and the state alone. It panics on tasks that are not
/// `task_supported`: a constant in a one-argument precondition, an index out
/// of range, or a fact that its encoding cannot hold.
#[verifier::external_body]
pub(crate) fn successors_of(task: &Task, state: &State) -> (r: Vec<State>)
    requires
        task_supported(*task),
    ensures
        r@ == successor_states(*task, *state),
{
    successors(task, state)
}

/// Relies on `Fact::predicate`.
#[verifier::external_body]
pub(crate) fn predicate_of(fact: &Fact) -> (r: usize)
    ensures
        r == fact_predicate(*fact),
{
    fact.predicate()
}

/// Relies on `Fact::args`: at most three 16-bit groups remain above the
/// predicate, one argument each.
#[verifier::external_body]
pub(crate) fn args_of(fact: &Fact) -> (r: Vec<usize>)
    ensures
        r@ == fact_args(*fact),
        r@.len() <= 3,
{
    fact.args()
}

/// Relies on `Fact::new`, which packs the predicate into the low 16 bits
/// and each argument plus one into the next 16-bit group. Within these
/// bounds it neither panics nor overflows, and `Fact::predicate` and
/// `Fact::args` give the parts back.
#[verifier::external_body]
pub(crate) fn make_fact(predicate: usize, args: Vec<usize>) -> (r: Fact)
    requires
        predicate < PREDICATE_LIMIT,
        args@.len() <= 3,
        all_below(args@, OBJECT_LIMIT),
    ensures
        r == fact_of(predicate, args@),
        fact_predicate(r) == predicate,
        fact_args(r) == args@,
{
    Fact::new(predicate, args)
}

/// Relies on the derived `Clone` of `State`: the copy equals the value cloned.
#[verifier::external_body]
pub(crate) fn clone_state(s: &State) -> (r: State)
    ensures
        r == *s,
{
    s.clone()
}

/// Relies on the derived `Clone` of `Fact`: the copy equals the value cloned.
#[verifier::external_body]
pub(crate) fn clone_fact(f: &Fact) -> (r: Fact)
    ensures
        r == *f,
{
    f.clone()
}

/// Relies on `Itertools::multi_cartesian_product`: all combinations in
/// lexicographic order, and one empty combination for no lists.
#[verifier::external_body]
pub(crate) fn cartesian(choices: Vec<Vec<usize>>) -> (r: Vec<Vec<usize>>)
    ensures
        r.deep_view() == product(choices.deep_view()),
{
    choices.into_iter().multi_cartesian_product().collect()
}

} // verus!
