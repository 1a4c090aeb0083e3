//! The goal graph: for each goal literal, a tree of the facts that the
//! actions achieving it need, built once per task with a weight budget that
//! each node splits evenly among its children. A state's estimate is the
//! weight of the unmet leaves reached through unmet nodes.
use vstd::prelude::*;
use pddllib::state::{Fact, State};
use pddllib::task::Task;
use pddllib::task::action::{Action, Argument, Atom};
use pddllib::task::parameter::Parameter;
use crate::heuristic::Heuristic;
use crate::pddl::{
    action_supported, all_below, arg_supported, atom_supported, fact_supported, lemma_product_bounded,
    task_supported, OBJECT_LIMIT, actions_of, args_of, cartesian, clone_fact, fact_args, fact_of, fact_predicate, goal_of, has_fact,
    is_static_predicate, literal_met, make_fact, objects_typed_of, predicate_of, product, task_actions,
    task_goal, task_objects_typed, task_static_predicates,
};

verus! {

/// How deep a chain of nodes may grow; a node at this depth is a leaf.
pub const MAX_DEPTH: usize = 256;

/// The first atom at or after position `k` that makes a fact of `predicate`
/// take `value`.
pub open spec fn first_achiever(effects: Seq<Atom>, predicate: usize, value: bool, k: int) -> Option<Atom>
    decreases effects.len() - k,
{
    if k < 0 || k >= effects.len() {
        None
    } else if effects[k].predicate == predicate && effects[k].value == value {
        Some(effects[k])
    } else {
        first_achiever(effects, predicate, value, k + 1)
    }
}

/// The parameter bindings fixed by the first `k` arguments of an effect atom
/// matched against a fact's objects, in order; a later binding of the same
/// parameter overrides an earlier one.
pub open spec fn binding(args: Seq<Argument>, objects: Seq<usize>, k: int) -> Seq<(usize, usize)>
    decreases k,
{
    if k <= 0 {
        Seq::empty()
    } else {
        let b = binding(args, objects, k - 1);
        match args[k - 1] {
            Argument::Index(p) => if k - 1 < objects.len() {
                b.push((p, objects[k - 1]))
            } else {
                b
            },
            Argument::Const(_) => b,
        }
    }
}

/// The object bound to parameter `p`: the last binding of it.
pub open spec fn lookup(b: Seq<(usize, usize)>, p: usize) -> Option<usize>
    decreases b.len(),
{
    if b.len() == 0 {
        None
    } else if b.last().0 == p {
        Some(b.last().1)
    } else {
        lookup(b.drop_last(), p)
    }
}

/// Every bound object is one that a fact can hold.
pub open spec fn pairs_below(b: Seq<(usize, usize)>) -> bool {
    forall|k: int| 0 <= k < b.len() ==> (#[trigger] b[k]).1 < OBJECT_LIMIT
}

proof fn lemma_binding_below(args: Seq<Argument>, objects: Seq<usize>, k: int)
    requires
        all_below(objects, OBJECT_LIMIT),
    ensures
        pairs_below(binding(args, objects, k)),
    decreases k,
{
    if k > 0 {
        lemma_binding_below(args, objects, k - 1);
        let b = binding(args, objects, k - 1);
        assert forall|j: int| 0 <= j < binding(args, objects, k).len() implies
            (#[trigger] binding(args, objects, k)[j]).1 < OBJECT_LIMIT by {
            if j < b.len() {
                assert(binding(args, objects, k)[j] == b[j]);
            }
        }
    }
}

proof fn lemma_lookup_below(b: Seq<(usize, usize)>, p: usize)
    requires
        pairs_below(b),
    ensures
        lookup(b, p) matches Some(o) ==> o < OBJECT_LIMIT,
    decreases b.len(),
{
    if b.len() > 0 {
        assert(b.last() == b[b.len() - 1]);
        let init = b.drop_last();
        assert forall|k: int| 0 <= k < init.len() implies (#[trigger] init[k]).1 < OBJECT_LIMIT by {
            assert(init[k] == b[k]);
        }
        lemma_lookup_below(init, p);
    }
}

/// The objects that a precondition argument may take: its bound object, the
/// objects of its parameter's type, or its constant.
pub open spec fn arg_choices(task: Task, params: Seq<Parameter>, b: Seq<(usize, usize)>, arg: Argument) -> Seq<usize> {
    match arg {
        Argument::Index(i) => match lookup(b, i) {
            Some(o) => seq![o],
            None => if i < params.len() && params[i as int].type_index < task_objects_typed(task).len() {
                task_objects_typed(task)[params[i as int].type_index as int]
            } else {
                Seq::empty()
            },
        },
        Argument::Const(c) => seq![c],
    }
}

/// The choice lists of an atom's arguments.
pub open spec fn atom_choices(task: Task, params: Seq<Parameter>, b: Seq<(usize, usize)>, atom: Atom) -> Seq<Seq<usize>> {
    atom.args@.map_values(|a: Argument| arg_choices(task, params, b, a))
}

/// The ground literals of one precondition atom under a binding.
pub open spec fn atom_literals(task: Task, params: Seq<Parameter>, b: Seq<(usize, usize)>, atom: Atom) -> Seq<(Fact, bool)> {
    product(atom_choices(task, params, b, atom)).map_values(|objs: Seq<usize>| (fact_of(atom.predicate, objs), atom.value))
}

/// The ground literals of the first `k` preconditions of an action whose
/// predicates are not static.
pub open spec fn precondition_literals(task: Task, action: Action, b: Seq<(usize, usize)>, k: int) -> Seq<(Fact, bool)>
    decreases k,
{
    if k <= 0 {
        Seq::empty()
    } else {
        let pre = action.precondition@[k - 1];
        let rest = precondition_literals(task, action, b, k - 1);
        if task_static_predicates(task).contains(pre.predicate) {
            rest
        } else {
            rest + atom_literals(task, action.parameters@, b, pre)
        }
    }
}

/// The literals that an action needs to achieve `literal`: none when no
/// effect achieves it, else its non-static preconditions grounded against
/// the achieving effect.
pub open spec fn action_literals(task: Task, action: Action, literal: (Fact, bool)) -> Seq<(Fact, bool)> {
    match first_achiever(action.effect@, fact_predicate(literal.0), literal.1, 0) {
        None => Seq::empty(),
        Some(atom) => precondition_literals(
            task,
            action,
            binding(atom.args@, fact_args(literal.0), atom.args@.len() as int),
            action.precondition@.len() as int,
        ),
    }
}

/// The children's literals of a node for `literal`, over the first `k`
/// actions of the task.
pub open spec fn candidates_upto(task: Task, literal: (Fact, bool), k: int) -> Seq<(Fact, bool)>
    decreases k,
{
    if k <= 0 {
        Seq::empty()
    } else {
        candidates_upto(task, literal, k - 1) + action_literals(task, task_actions(task)[k - 1], literal)
    }
}

pub open spec fn candidates(task: Task, literal: (Fact, bool)) -> Seq<(Fact, bool)> {
    candidates_upto(task, literal, task_actions(task).len() as int)
}

fn find_achiever(effects: &Vec<Atom>, predicate: usize, value: bool) -> (r: Option<usize>)
    ensures
        match r {
            None => first_achiever(effects@, predicate, value, 0) is None,
            Some(k) => k < effects@.len() && first_achiever(effects@, predicate, value, 0) == Some(effects@[k as int]),
        },
{
    let mut k: usize = 0;
    while k < effects.len()
        invariant
            k <= effects@.len(),
            first_achiever(effects@, predicate, value, 0) == first_achiever(effects@, predicate, value, k as int),
        decreases effects@.len() - k,
    {
        if effects[k].predicate == predicate && effects[k].value == value {
            return Some(k);
        }
        k += 1;
    }
    None
}

fn bind(args: &Vec<Argument>, objects: &Vec<usize>) -> (r: Vec<(usize, usize)>)
    ensures
        r@ == binding(args@, objects@, args@.len() as int),
{
    let mut r: Vec<(usize, usize)> = Vec::new();
    let mut k: usize = 0;
    while k < args.len()
        invariant
            k <= args@.len(),
            r@ == binding(args@, objects@, k as int),
        decreases args@.len() - k,
    {
        match &args[k] {
            Argument::Index(p) => {
                if k < objects.len() {
                    r.push((*p, objects[k]));
                }
            },
            Argument::Const(_) => {},
        }
        k += 1;
    }
    r
}

fn find_bound(b: &Vec<(usize, usize)>, p: usize) -> (r: Option<usize>)
    ensures
        r == lookup(b@, p),
{
    let mut j: usize = b.len();
    assert(b@.subrange(0, j as int) =~= b@);
    while j > 0
        invariant
            j <= b@.len(),
            lookup(b@, p) == lookup(b@.subrange(0, j as int), p),
        decreases j,
    {
        assert(b@.subrange(0, j as int).drop_last() =~= b@.subrange(0, j - 1));
        if b[j - 1].0 == p {
            return Some(b[j - 1].1);
        }
        j -= 1;
    }
    None
}

fn choices_of(task: &Task, params: &Vec<Parameter>, b: &Vec<(usize, usize)>, arg: &Argument) -> (r: Vec<usize>)
    requires
        task_supported(*task),
        pairs_below(b@),
        arg_supported(params@.len(), *arg),
    ensures
        r@ == arg_choices(*task, params@, b@, *arg),
        all_below(r@, OBJECT_LIMIT),
{
    proof {
        if let Argument::Index(i) = *arg {
            lemma_lookup_below(b@, i);
        }
    }
    match arg {
        Argument::Index(i) => match find_bound(b, *i) {
            Some(o) => vec![o],
            None => {
                let typed = objects_typed_of(task);
                if *i < params.len() && params[*i].type_index < typed.len() {
                    let objs = &typed[params[*i].type_index];
                    assert(objs@ == typed.deep_view()[params@[*i as int].type_index as int]);
                    assert(all_below(task_objects_typed(*task)[params@[*i as int].type_index as int], OBJECT_LIMIT));
                    objs.clone()
                } else {
                    Vec::new()
                }
            },
        },
        Argument::Const(c) => vec![*c],
    }
}

/// Every literal's fact holds only objects that a fact can hold.
pub open spec fn literals_supported(lits: Seq<(Fact, bool)>) -> bool {
    forall|j: int| 0 <= j < lits.len() ==> fact_supported(#[trigger] lits[j].0)
}

fn ground_atom(task: &Task, params: &Vec<Parameter>, b: &Vec<(usize, usize)>, atom: &Atom, out: &mut Vec<(Fact, bool)>)
    requires
        task_supported(*task),
        pairs_below(b@),
        atom_supported(params@.len(), *atom, true),
        literals_supported(old(out)@),
    ensures
        final(out)@ == old(out)@ + atom_literals(*task, params@, b@, *atom),
        literals_supported(final(out)@),
{
    let mut choices: Vec<Vec<usize>> = Vec::new();
    let mut k: usize = 0;
    while k < atom.args.len()
        invariant
            k <= atom.args@.len(),
            choices.deep_view() == atom_choices(*task, params@, b@, *atom).subrange(0, k as int),
            task_supported(*task),
            pairs_below(b@),
            atom_supported(params@.len(), *atom, true),
            forall|i: int| 0 <= i < k ==> all_below(#[trigger] choices.deep_view()[i], OBJECT_LIMIT),
        decreases atom.args@.len() - k,
    {
        let c = choices_of(task, params, b, &atom.args[k]);
        let ghost prev = choices.deep_view();
        proof {
            assert(c.deep_view() =~= c@);
        }
        choices.push(c);
        assert(choices.deep_view() =~= prev.push(c@));
        assert forall|i: int| 0 <= i < k + 1 implies all_below(#[trigger] choices.deep_view()[i], OBJECT_LIMIT) by {
            if i < k {
                assert(choices.deep_view()[i] == prev[i]);
            }
        }
        assert(choices.deep_view() =~= atom_choices(*task, params@, b@, *atom).subrange(0, k + 1));
        k += 1;
    }
    assert(choices.deep_view() =~= atom_choices(*task, params@, b@, *atom));
    proof {
        lemma_product_bounded(atom_choices(*task, params@, b@, *atom), OBJECT_LIMIT);
    }
    let combos = cartesian(choices);
    let ghost lits = atom_literals(*task, params@, b@, *atom);
    let ghost start = out@;
    let mut j: usize = 0;
    while j < combos.len()
        invariant
            j <= combos@.len(),
            combos.deep_view() == product(atom_choices(*task, params@, b@, *atom)),
            lits.len() == combos@.len(),
            lits == product(atom_choices(*task, params@, b@, *atom)).map_values(
                |objs: Seq<usize>| (fact_of(atom.predicate, objs), atom.value),
            ),
            out@ == start + lits.subrange(0, j as int),
            literals_supported(out@),
            atom_supported(params@.len(), *atom, true),
            forall|t: int| 0 <= t < product(atom_choices(*task, params@, b@, *atom)).len() ==>
                (#[trigger] product(atom_choices(*task, params@, b@, *atom))[t]).len() == atom.args@.len()
                && all_below(product(atom_choices(*task, params@, b@, *atom))[t], OBJECT_LIMIT),
        decreases combos@.len() - j,
    {
        assert(combos@[j as int]@ == combos.deep_view()[j as int]);
        assert(product(atom_choices(*task, params@, b@, *atom))[j as int] == combos@[j as int]@);
        let f = make_fact(atom.predicate, combos[j].clone());
        let ghost before = out@;
        out.push((f, atom.value));
        assert forall|t: int| 0 <= t < out@.len() implies fact_supported(#[trigger] out@[t].0) by {
            if t < before.len() {
                assert(out@[t] == before[t]);
            }
        }
        assert(out@ =~= start + lits.subrange(0, j + 1));
        j += 1;
    }
    assert(lits.subrange(0, j as int) =~= lits);
}

fn action_needs(task: &Task, action: &Action, literal: &(Fact, bool), out: &mut Vec<(Fact, bool)>)
    requires
        task_supported(*task),
        action_supported(task_objects_typed(*task).len(), *action),
        fact_supported(literal.0),
        literals_supported(old(out)@),
    ensures
        final(out)@ == old(out)@ + action_literals(*task, *action, *literal),
        literals_supported(final(out)@),
{
    let predicate = predicate_of(&literal.0);
    match find_achiever(&action.effect, predicate, literal.1) {
        None => {
            assert(old(out)@ + Seq::<(Fact, bool)>::empty() =~= old(out)@);
        },
        Some(e) => {
            let objects = args_of(&literal.0);
            let b = bind(&action.effect[e].args, &objects);
            proof {
                lemma_binding_below(action.effect@[e as int].args@, objects@, action.effect@[e as int].args@.len() as int);
            }
            let ghost start = out@;
            let mut k: usize = 0;
            while k < action.precondition.len()
                invariant
                    k <= action.precondition@.len(),
                    out@ == start + precondition_literals(*task, *action, b@, k as int),
                    task_supported(*task),
                    action_supported(task_objects_typed(*task).len(), *action),
                    pairs_below(b@),
                    literals_supported(out@),
                decreases action.precondition@.len() - k,
            {
                let pre = &action.precondition[k];
                assert(atom_supported(action.parameters@.len(), action.precondition@[k as int], true));
                if !is_static_predicate(task, pre.predicate) {
                    ground_atom(task, &action.parameters, &b, pre, out);
                }
                proof {
                    let rest = precondition_literals(*task, *action, b@, k as int);
                    if task_static_predicates(*task).contains(pre.predicate) {
                        assert(precondition_literals(*task, *action, b@, k + 1) == rest);
                    } else {
                        assert(start + rest + atom_literals(*task, action.parameters@, b@, *pre)
                            =~= start + (rest + atom_literals(*task, action.parameters@, b@, *pre)));
                    }
                }
                k += 1;
            }
        },
    }
}

/// The literals of a node's children: what each action achieving `literal`
/// needs, over all actions in order.
pub fn candidate_literals(task: &Task, literal: &(Fact, bool)) -> (r: Vec<(Fact, bool)>)
    requires
        task_supported(*task),
        fact_supported(literal.0),
    ensures
        r@ == candidates(*task, *literal),
        literals_supported(r@),
{
    let actions = actions_of(task);
    let mut r: Vec<(Fact, bool)> = Vec::new();
    let mut k: usize = 0;
    while k < actions.len()
        invariant
            actions@ == task_actions(*task),
            k <= actions@.len(),
            r@ == candidates_upto(*task, *literal, k as int),
            task_supported(*task),
            fact_supported(literal.0),
            literals_supported(r@),
        decreases actions@.len() - k,
    {
        assert(action_supported(task_objects_typed(*task).len(), task_actions(*task)[k as int]));
        action_needs(task, &actions[k], literal, &mut r);
        k += 1;
    }
    r
}

/// A node of the goal graph: a literal, its weight, and the arena indices
/// of its children.
pub struct GoalNode {
    pub literal: (Fact, bool),
    pub weight: usize,
    pub children: Vec<usize>,
    /// How many more levels the construction could still add below.
    pub depth: Ghost<usize>,
}

/// Children come before their parent in the arena; a node with children has
/// at most as many as its weight, and each child has the parent's weight
/// divided by their number.
pub open spec fn node_wf(nodes: Seq<GoalNode>, i: int) -> bool {
    let n = nodes[i];
    let k = n.children@.len();
    &&& forall|j: int| 0 <= j < k ==> #[trigger] n.children@[j] < i
    &&& k > 0 ==> k <= n.weight
    &&& forall|j: int| 0 <= j < k ==> #[trigger] nodes[n.children@[j] as int].weight == n.weight / (k as usize)
}

pub open spec fn nodes_wf(nodes: Seq<GoalNode>) -> bool {
    forall|i: int| 0 <= i < nodes.len() ==> #[trigger] node_wf(nodes, i)
}

/// The weight a subtree contributes: nothing for a node that `met` accepts,
/// the weight of an unmet leaf, and otherwise the sum over the children.
pub open spec fn subtree_sum(nodes: Seq<GoalNode>, met: spec_fn(int) -> bool, i: int) -> nat
    decreases i, nodes[i].children@.len() + 1,
{
    if i < 0 || i >= nodes.len() || met(i) {
        0
    } else if nodes[i].children@.len() == 0 {
        nodes[i].weight as nat
    } else {
        children_sum(nodes, met, i, nodes[i].children@.len() as int)
    }
}

/// The sum of `subtree_sum` over the first `k` children of node `i`.
pub open spec fn children_sum(nodes: Seq<GoalNode>, met: spec_fn(int) -> bool, i: int, k: int) -> nat
    decreases i, k,
{
    if k <= 0 || i < 0 || i >= nodes.len() || k > nodes[i].children@.len() {
        0
    } else {
        let c = nodes[i].children@[k - 1] as int;
        children_sum(nodes, met, i, k - 1) + if 0 <= c < i {
            subtree_sum(nodes, met, c)
        } else {
            0
        }
    }
}

/// Which nodes' literals hold in `state`.
pub open spec fn met_in(nodes: Seq<GoalNode>, task: Task, state: State) -> spec_fn(int) -> bool {
    |j: int| literal_met(task, state, nodes[j].literal)
}

/// The sum of the subtrees of the first `k` roots.
pub open spec fn roots_sum(nodes: Seq<GoalNode>, met: spec_fn(int) -> bool, roots: Seq<usize>, k: int) -> nat
    decreases k,
{
    if k <= 0 || k > roots.len() {
        0
    } else {
        roots_sum(nodes, met, roots, k - 1) + subtree_sum(nodes, met, roots[k - 1] as int)
    }
}

/// A subtree never contributes more than its root's weight.
pub proof fn lemma_subtree_within_weight(nodes: Seq<GoalNode>, met: spec_fn(int) -> bool, i: int)
    requires
        nodes_wf(nodes),
        0 <= i < nodes.len(),
    ensures
        subtree_sum(nodes, met, i) <= nodes[i].weight,
    decreases i, nodes[i].children@.len() + 1,
{
    let m = nodes[i].children@.len() as int;
    if !met(i) && m > 0 {
        assert(node_wf(nodes, i));
        lemma_children_within_share(nodes, met, i, m);
        let w = nodes[i].weight as int;
        assert(m * (w / m) <= w) by (nonlinear_arith)
            requires m > 0, w >= 0;
    }
}

/// The first `k` children of a node contribute at most `k` shares.
pub proof fn lemma_children_within_share(nodes: Seq<GoalNode>, met: spec_fn(int) -> bool, i: int, k: int)
    requires
        nodes_wf(nodes),
        0 <= i < nodes.len(),
        0 <= k <= nodes[i].children@.len(),
        nodes[i].children@.len() > 0,
    ensures
        children_sum(nodes, met, i, k) <= k * (nodes[i].weight as int / nodes[i].children@.len() as int),
    decreases i, k,
{
    if k > 0 {
        lemma_children_within_share(nodes, met, i, k - 1);
        assert(node_wf(nodes, i));
        let c = nodes[i].children@[k - 1] as int;
        let share = nodes[i].weight as int / nodes[i].children@.len() as int;
        assert(nodes[c].weight == share);
        lemma_subtree_within_weight(nodes, met, c);
        assert((k - 1) * share + share == k * share) by (nonlinear_arith);
    }
}


/// A node whose literal holds contributes nothing, whatever lies below it.
pub proof fn lemma_met_node_contributes_nothing(nodes: Seq<GoalNode>, task: Task, state: State, i: int)
    requires
        0 <= i < nodes.len(),
        literal_met(task, state, nodes[i].literal),
    ensures
        subtree_sum(nodes, met_in(nodes, task, state), i) == 0,
{
}

/// The goal graph of a task: one tree per goal literal.
pub struct GoalGraph {
    nodes: Vec<GoalNode>,
    roots: Vec<usize>,
    weight: usize,
}

/// The number of nodes in the tree below node `i`, itself included.
pub open spec fn tree_count(nodes: Seq<GoalNode>, i: int) -> nat
    decreases i, nodes[i].children@.len() + 1,
{
    if i < 0 || i >= nodes.len() {
        0
    } else {
        1 + children_count(nodes, i, nodes[i].children@.len() as int)
    }
}

/// The number of nodes in the trees below the first `k` children of `i`.
pub open spec fn children_count(nodes: Seq<GoalNode>, i: int, k: int) -> nat
    decreases i, k,
{
    if k <= 0 || i < 0 || i >= nodes.len() || k > nodes[i].children@.len() {
        0
    } else {
        let c = nodes[i].children@[k - 1] as int;
        children_count(nodes, i, k - 1) + if 0 <= c < i {
            tree_count(nodes, c)
        } else {
            0
        }
    }
}

/// The number of nodes in the trees below each of `roots`.
pub open spec fn forest_count(nodes: Seq<GoalNode>, roots: Seq<usize>) -> nat
    decreases roots.len(),
{
    if roots.len() == 0 {
        0
    } else {
        forest_count(nodes, roots.drop_last()) + tree_count(nodes, roots.last() as int)
    }
}

proof fn lemma_tree_count_prefix(nodes: Seq<GoalNode>, more: Seq<GoalNode>, i: int)
    requires
        nodes_wf(nodes),
        more.len() >= nodes.len(),
        more.subrange(0, nodes.len() as int) == nodes,
        0 <= i < nodes.len(),
    ensures
        tree_count(more, i) == tree_count(nodes, i),
    decreases i, nodes[i].children@.len() + 1,
{
    assert(more[i] == more.subrange(0, nodes.len() as int)[i]);
    lemma_children_count_prefix(nodes, more, i, nodes[i].children@.len() as int);
}

proof fn lemma_children_count_prefix(nodes: Seq<GoalNode>, more: Seq<GoalNode>, i: int, k: int)
    requires
        nodes_wf(nodes),
        more.len() >= nodes.len(),
        more.subrange(0, nodes.len() as int) == nodes,
        0 <= i < nodes.len(),
        0 <= k <= nodes[i].children@.len(),
    ensures
        children_count(more, i, k) == children_count(nodes, i, k),
    decreases i, k,
{
    assert(more[i] == more.subrange(0, nodes.len() as int)[i]);
    if k > 0 {
        lemma_children_count_prefix(nodes, more, i, k - 1);
        assert(node_wf(nodes, i));
        let c = nodes[i].children@[k - 1] as int;
        assert(c < i);
        lemma_tree_count_prefix(nodes, more, c);
    }
}

proof fn lemma_forest_count_prefix(nodes: Seq<GoalNode>, more: Seq<GoalNode>, roots: Seq<usize>)
    requires
        nodes_wf(nodes),
        more.len() >= nodes.len(),
        more.subrange(0, nodes.len() as int) == nodes,
        forall|t: int| 0 <= t < roots.len() ==> #[trigger] roots[t] < nodes.len(),
    ensures
        forest_count(more, roots) == forest_count(nodes, roots),
    decreases roots.len(),
{
    if roots.len() > 0 {
        let init = roots.drop_last();
        assert forall|t: int| 0 <= t < init.len() implies #[trigger] init[t] < nodes.len() by {
            assert(init[t] == roots[t]);
        }
        lemma_forest_count_prefix(nodes, more, init);
        assert(roots.last() == roots[roots.len() - 1]);
        lemma_tree_count_prefix(nodes, more, roots.last() as int);
    }
}

/// The children of a node just appended count as the forest of its
/// children's trees in the arena before it.
proof fn lemma_children_count_forest(n: Seq<GoalNode>, pre: Seq<GoalNode>, k: int)
    requires
        nodes_wf(pre),
        n.len() == pre.len() + 1,
        n.subrange(0, pre.len() as int) == pre,
        forall|j: int| 0 <= j < n[pre.len() as int].children@.len() ==> #[trigger] n[pre.len() as int].children@[j] < pre.len(),
        0 <= k <= n[pre.len() as int].children@.len(),
    ensures
        children_count(n, pre.len() as int, k) == forest_count(pre, n[pre.len() as int].children@.subrange(0, k)),
    decreases k,
{
    let idx = pre.len() as int;
    let ch = n[idx].children@;
    if k > 0 {
        lemma_children_count_forest(n, pre, k - 1);
        assert(ch.subrange(0, k).drop_last() =~= ch.subrange(0, k - 1));
        assert(ch.subrange(0, k).last() == ch[k - 1]);
        lemma_tree_count_prefix(pre, n, ch[k - 1] as int);
    }
}

/// The node that `build` made for `literal` with `weight`: a leaf, or one
/// child per candidate literal in order, each with an even share.
pub open spec fn node_built(nodes: Seq<GoalNode>, idx: int, task: Task, literal: (Fact, bool), weight: usize, depth: usize) -> bool {
    let cands = candidates(task, literal);
    let n = nodes[idx];
    &&& n.literal == literal
    &&& n.weight == weight
    &&& n.depth@ == depth
    &&& if depth > 0 && 0 < cands.len() <= weight {
        &&& n.children@.len() == cands.len()
        &&& forall|j: int| 0 <= j < cands.len() ==> {
            &&& (#[trigger] nodes[n.children@[j] as int]).literal == cands[j]
            &&& nodes[n.children@[j] as int].depth@ == depth - 1
        }
    } else {
        n.children@.len() == 0
    }
}

/// Every node of the arena is built for its own literal, weight and
/// remaining depth: with `node_wf`, this fixes each tree below its root
/// level by level.
pub open spec fn arena_built(nodes: Seq<GoalNode>, task: Task) -> bool {
    forall|i: int| 0 <= i < nodes.len() ==>
        #[trigger] node_built(nodes, i, task, nodes[i].literal, nodes[i].weight, nodes[i].depth@)
}

fn build(task: &Task, literal: (Fact, bool), weight: usize, depth: usize, nodes: &mut Vec<GoalNode>) -> (idx: usize)
    requires
        nodes_wf(old(nodes)@),
        arena_built(old(nodes)@, *task),
        task_supported(*task),
        fact_supported(literal.0),
    ensures
        nodes_wf(final(nodes)@),
        arena_built(final(nodes)@, *task),
        final(nodes)@.len() > old(nodes)@.len(),
        final(nodes)@.subrange(0, old(nodes)@.len() as int) == old(nodes)@,
        idx == final(nodes)@.len() - 1,
        final(nodes)@.len() == old(nodes)@.len() + tree_count(final(nodes)@, idx as int),
        node_built(final(nodes)@, idx as int, *task, literal, weight, depth),
    decreases depth,
{
    let cands = candidate_literals(task, &literal);
    let mut children: Vec<usize> = Vec::new();
    let ghost start = nodes@;
    if depth > 0 && cands.len() > 0 && cands.len() <= weight {
        let share = weight / cands.len();
        let mut j: usize = 0;
        while j < cands.len()
            invariant
                cands@ == candidates(*task, literal),
                0 < cands@.len() <= weight,
                share == weight / (cands@.len() as usize),
                depth > 0,
                j <= cands@.len(),
                nodes_wf(nodes@),
                arena_built(nodes@, *task),
                task_supported(*task),
                literals_supported(cands@),
                nodes@.len() >= start.len(),
                nodes@.subrange(0, start.len() as int) == start,
                nodes@.len() == start.len() + forest_count(nodes@, children@),
                children@.len() == j,
                forall|t: int| 0 <= t < j ==> #[trigger] children@[t] < nodes@.len(),
                forall|t: int| 0 <= t < j ==> #[trigger] nodes@[children@[t] as int].weight == share,
                forall|t: int| 0 <= t < j ==> #[trigger] nodes@[children@[t] as int].literal == cands@[t],
                forall|t: int| 0 <= t < j ==> #[trigger] nodes@[children@[t] as int].depth@ == depth - 1,
            decreases cands@.len() - j,
        {
            assert(fact_supported(cands@[j as int].0));
            let lit = (clone_fact(&cands[j].0), cands[j].1);
            let ghost before = nodes@;
            let c = build(task, lit, share, depth - 1, nodes);
            proof {
                assert forall|t: int| 0 <= t < j implies #[trigger] nodes@[children@[t] as int] == before[children@[t] as int] by {
                    assert(nodes@.subrange(0, before.len() as int)[children@[t] as int] == nodes@[children@[t] as int]);
                }
                assert(nodes@.subrange(0, start.len() as int) =~= start) by {
                    assert forall|t: int| 0 <= t < start.len() implies nodes@[t] == start[t] by {
                        assert(nodes@.subrange(0, before.len() as int)[t] == nodes@[t]);
                        assert(before.subrange(0, start.len() as int)[t] == before[t]);
                    }
                }
            }
            proof {
                lemma_forest_count_prefix(before, nodes@, children@);
                assert(children@.push(c).drop_last() =~= children@);
            }
            children.push(c);
            j += 1;
        }
    }
    let ghost pre = nodes@;
    let ghost ch = children@;
    proof {
        if !(depth > 0 && cands@.len() > 0 && cands@.len() <= weight) {
            assert(ch.len() == 0);
            assert(pre == start);
        }
        assert(pre.len() == start.len() + forest_count(pre, ch));
    }
    nodes.push(GoalNode { literal, weight, children, depth: Ghost(depth) });
    proof {
        let n = nodes@;
        let idx = n.len() - 1;
        assert(n[idx].children@ == ch);
        assert forall|i: int| 0 <= i < n.len() implies #[trigger] node_wf(n, i) by {
            if i == idx {
                let k = ch.len();
                assert forall|j: int| 0 <= j < k implies #[trigger] n[ch[j] as int] == pre[ch[j] as int] by {
                }
            }
            if i < idx {
                assert(node_wf(pre, i));
                assert(n[i] == pre[i]);
                let k = pre[i].children@.len();
                assert forall|j: int| 0 <= j < k implies #[trigger] n[n[i].children@[j] as int] == pre[pre[i].children@[j] as int] by {
                }
            }
        }
        assert forall|i: int| 0 <= i < n.len() implies
            #[trigger] node_built(n, i, *task, n[i].literal, n[i].weight, n[i].depth@) by {
            if i == idx {
                assert forall|j: int| 0 <= j < ch.len() implies #[trigger] n[ch[j] as int] == pre[ch[j] as int] by {
                }
            } else {
                assert(n[i] == pre[i]);
                assert(node_built(pre, i, *task, pre[i].literal, pre[i].weight, pre[i].depth@));
                assert(node_wf(pre, i));
                let k = pre[i].children@.len();
                assert forall|j: int| 0 <= j < k implies #[trigger] n[n[i].children@[j] as int] == pre[pre[i].children@[j] as int] by {
                }
            }
        }
        assert(n.subrange(0, pre.len() as int) =~= pre);
        lemma_children_count_forest(n, pre, ch.len() as int);
        assert(ch.subrange(0, ch.len() as int) =~= ch);
        assert(n.subrange(0, old(nodes)@.len() as int) =~= old(nodes)@) by {
            assert forall|t: int| 0 <= t < old(nodes)@.len() implies n[t] == old(nodes)@[t] by {
                assert(pre.subrange(0, start.len() as int)[t] == pre[t]);
            }
        }
    }
    nodes.len() - 1
}

impl GoalGraph {
    pub closed spec fn nodes_view(&self) -> Seq<GoalNode> {
        self.nodes@
    }

    pub closed spec fn roots_view(&self) -> Seq<usize> {
        self.roots@
    }

    /// The weight that each goal tree was built with.
    pub closed spec fn weight_budget(&self) -> usize {
        self.weight
    }

    /// The arena holds exactly the nodes of the goal trees.
    pub open spec fn counted(&self) -> bool {
        self.nodes_view().len() == forest_count(self.nodes_view(), self.roots_view())
    }

    /// Whether every node was built from `task` (see `arena_built`).
    pub open spec fn built_from(&self, task: Task) -> bool {
        arena_built(self.nodes_view(), task)
    }

    /// Builds one tree per goal literal of `task`, in goal order, each root
    /// carrying the whole `weight`. A node expands into its candidate
    /// literals when there are some and no more than its weight, each child
    /// getting an even share with the remainder dropped. A node `MAX_DEPTH`
    /// levels below its root stays a leaf: a literal whose single candidate
    /// leads back to itself would otherwise expand without end.
    pub fn new(task: &Task, weight: usize) -> (g: GoalGraph)
        requires
            task_supported(*task),
        ensures
            g.built_from(*task),
            g.counted(),
            g.wf(),
            g.weight_budget() == weight,
            g.roots_view().len() == task_goal(*task).len(),
            forall|k: int| 0 <= k < task_goal(*task).len() ==>
                node_built(g.nodes_view(), #[trigger] g.roots_view()[k] as int, *task, task_goal(*task)[k], weight, MAX_DEPTH),
    {
        let goal = goal_of(task);
        let mut nodes: Vec<GoalNode> = Vec::new();
        let mut roots: Vec<usize> = Vec::new();
        let mut k: usize = 0;
        while k < goal.len()
            invariant
                goal@ == task_goal(*task),
                k <= goal@.len(),
                nodes_wf(nodes@),
                arena_built(nodes@, *task),
                task_supported(*task),
                nodes@.len() == forest_count(nodes@, roots@),
                roots@.len() == k,
                forall|t: int| 0 <= t < k ==> #[trigger] roots@[t] < nodes@.len(),
                forall|t: int| 0 <= t < k ==>
                    node_built(nodes@, #[trigger] roots@[t] as int, *task, goal@[t], weight, MAX_DEPTH),
            decreases goal@.len() - k,
        {
            assert(fact_supported(task_goal(*task)[k as int].0));
            let lit = (clone_fact(&goal[k].0), goal[k].1);
            let ghost before = nodes@;
            let r = build(task, lit, weight, MAX_DEPTH, &mut nodes);
            proof {
                assert forall|t: int| 0 <= t < k implies
                    node_built(nodes@, #[trigger] roots@[t] as int, *task, goal@[t], weight, MAX_DEPTH) by {
                    let ri = roots@[t] as int;
                    assert(nodes@.subrange(0, before.len() as int)[ri] == nodes@[ri]);
                    let ch = before[ri].children@;
                    assert forall|j: int| 0 <= j < ch.len() implies #[trigger] nodes@[ch[j] as int] == before[ch[j] as int] by {
                        assert(node_wf(before, ri));
                        assert(nodes@.subrange(0, before.len() as int)[ch[j] as int] == nodes@[ch[j] as int]);
                    }
                }
            }
            proof {
                lemma_forest_count_prefix(before, nodes@, roots@);
                assert(roots@.push(r).drop_last() =~= roots@);
            }
            roots.push(r);
            k += 1;
        }
        GoalGraph { nodes, roots, weight }
    }

    /// The number of nodes in the graph: the nodes of all goal trees.
    pub fn size(&self) -> (r: usize)
        requires
            self.wf(),
        ensures
            r == self.nodes_view().len(),
            r == forest_count(self.nodes_view(), self.roots_view()),
    {
        self.nodes.len()
    }

    fn subtree_estimate(&self, task: &Task, state: &State, i: usize) -> (r: usize)
        requires
            self.wf(),
            i < self.nodes_view().len(),
        ensures
            r == subtree_sum(self.nodes_view(), met_in(self.nodes_view(), *task, *state), i as int),
        decreases i,
    {
        let ghost met = met_in(self.nodes_view(), *task, *state);
        let node = &self.nodes[i];
        if has_fact(task, state, &node.literal.0) == node.literal.1 {
            return 0;
        }
        if node.children.len() == 0 {
            return node.weight;
        }
        let m = node.children.len();
        let mut acc: usize = 0;
        let mut k: usize = 0;
        while k < m
            invariant
                self.wf(),
                i < self.nodes_view().len(),
                *node == self.nodes_view()[i as int],
                m == node.children@.len(),
                m > 0,
                k <= m,
                met == met_in(self.nodes_view(), *task, *state),
                acc == children_sum(self.nodes_view(), met, i as int, k as int),
            decreases m - k,
        {
            let c = node.children[k];
            assert(node_wf(self.nodes_view(), i as int));
            let v = self.subtree_estimate(task, state, c);
            proof {
                assert(0 <= c < i);
                assert(children_sum(self.nodes_view(), met, i as int, k + 1)
                    == children_sum(self.nodes_view(), met, i as int, k as int) + subtree_sum(self.nodes_view(), met, c as int));
                lemma_children_within_share(self.nodes_view(), met, i as int, k + 1);
                lemma_subtree_within_weight(self.nodes_view(), met, i as int);
                let w = node.weight as int;
                assert((k + 1) * (w / m as int) <= m * (w / m as int)) by (nonlinear_arith)
                    requires k + 1 <= m, w >= 0, m > 0;
                assert(m * (w / m as int) <= w) by (nonlinear_arith)
                    requires m > 0, w >= 0;
            }
            acc = acc + v;
            k += 1;
        }
        acc
    }
}

/// The leaf weights under one goal node of a graph built with budget `W`
/// add up to at most `W`: splitting a weight drops the remainder and never
/// adds to it.
pub proof fn lemma_goal_tree_within_budget(g: GoalGraph, task: Task, k: int)
    requires
        g.wf(),
        0 <= k < g.roots_view().len(),
        k < task_goal(task).len(),
        node_built(g.nodes_view(), g.roots_view()[k] as int, task, task_goal(task)[k], g.weight_budget(), MAX_DEPTH),
    ensures
        subtree_sum(g.nodes_view(), |j: int| false, g.roots_view()[k] as int) <= g.weight_budget(),
{
    lemma_subtree_within_weight(g.nodes_view(), |j: int| false, g.roots_view()[k] as int);
}

/// Two arenas built from the same task give the same contribution for
/// nodes with the same literal, weight and remaining depth.
proof fn lemma_same_subtree(n1: Seq<GoalNode>, n2: Seq<GoalNode>, task: Task, state: State, i1: int, i2: int)
    requires
        nodes_wf(n1),
        nodes_wf(n2),
        arena_built(n1, task),
        arena_built(n2, task),
        0 <= i1 < n1.len(),
        0 <= i2 < n2.len(),
        n1[i1].literal == n2[i2].literal,
        n1[i1].weight == n2[i2].weight,
        n1[i1].depth@ == n2[i2].depth@,
    ensures
        subtree_sum(n1, met_in(n1, task, state), i1) == subtree_sum(n2, met_in(n2, task, state), i2),
    decreases i1, n1[i1].children@.len() + 1,
{
    assert(node_built(n1, i1, task, n1[i1].literal, n1[i1].weight, n1[i1].depth@));
    assert(node_built(n2, i2, task, n2[i2].literal, n2[i2].weight, n2[i2].depth@));
    lemma_same_children(n1, n2, task, state, i1, i2, n1[i1].children@.len() as int);
}

proof fn lemma_same_children(n1: Seq<GoalNode>, n2: Seq<GoalNode>, task: Task, state: State, i1: int, i2: int, k: int)
    requires
        nodes_wf(n1),
        nodes_wf(n2),
        arena_built(n1, task),
        arena_built(n2, task),
        0 <= i1 < n1.len(),
        0 <= i2 < n2.len(),
        n1[i1].literal == n2[i2].literal,
        n1[i1].weight == n2[i2].weight,
        n1[i1].depth@ == n2[i2].depth@,
        0 <= k <= n1[i1].children@.len(),
    ensures
        n1[i1].children@.len() == n2[i2].children@.len(),
        children_sum(n1, met_in(n1, task, state), i1, k) == children_sum(n2, met_in(n2, task, state), i2, k),
    decreases i1, k,
{
    assert(node_built(n1, i1, task, n1[i1].literal, n1[i1].weight, n1[i1].depth@));
    assert(node_built(n2, i2, task, n2[i2].literal, n2[i2].weight, n2[i2].depth@));
    if k > 0 {
        lemma_same_children(n1, n2, task, state, i1, i2, k - 1);
        assert(node_wf(n1, i1));
        assert(node_wf(n2, i2));
        let c1 = n1[i1].children@[k - 1] as int;
        let c2 = n2[i2].children@[k - 1] as int;
        assert(n1[c1].literal == n2[c2].literal);
        assert(n1[c1].depth@ == n2[c2].depth@);
        assert(n1[c1].weight == n2[c2].weight);
        lemma_same_subtree(n1, n2, task, state, c1, c2);
    }
}

/// Two goal graphs built from the same task with the same weight give
/// every state the same estimate, however their arenas are laid out.
pub proof fn lemma_goal_graph_value_determined(g1: GoalGraph, g2: GoalGraph, task: Task, state: State)
    requires
        g1.wf(),
        g2.wf(),
        g1.built_from(task),
        g2.built_from(task),
        g1.weight_budget() == g2.weight_budget(),
        g1.roots_view().len() == task_goal(task).len(),
        g2.roots_view().len() == task_goal(task).len(),
        forall|k: int| 0 <= k < task_goal(task).len() ==>
            node_built(g1.nodes_view(), #[trigger] g1.roots_view()[k] as int, task, task_goal(task)[k], g1.weight_budget(), MAX_DEPTH),
        forall|k: int| 0 <= k < task_goal(task).len() ==>
            node_built(g2.nodes_view(), #[trigger] g2.roots_view()[k] as int, task, task_goal(task)[k], g2.weight_budget(), MAX_DEPTH),
    ensures
        g1.value(task, state) == g2.value(task, state),
{
    lemma_same_roots(g1, g2, task, state, task_goal(task).len() as int);
}

proof fn lemma_same_roots(g1: GoalGraph, g2: GoalGraph, task: Task, state: State, k: int)
    requires
        g1.wf(),
        g2.wf(),
        g1.built_from(task),
        g2.built_from(task),
        g1.weight_budget() == g2.weight_budget(),
        g1.roots_view().len() == task_goal(task).len(),
        g2.roots_view().len() == task_goal(task).len(),
        forall|k: int| 0 <= k < task_goal(task).len() ==>
            node_built(g1.nodes_view(), #[trigger] g1.roots_view()[k] as int, task, task_goal(task)[k], g1.weight_budget(), MAX_DEPTH),
        forall|k: int| 0 <= k < task_goal(task).len() ==>
            node_built(g2.nodes_view(), #[trigger] g2.roots_view()[k] as int, task, task_goal(task)[k], g2.weight_budget(), MAX_DEPTH),
        0 <= k <= task_goal(task).len(),
    ensures
        roots_sum(g1.nodes_view(), met_in(g1.nodes_view(), task, state), g1.roots_view(), k)
            == roots_sum(g2.nodes_view(), met_in(g2.nodes_view(), task, state), g2.roots_view(), k),
    decreases k,
{
    if k > 0 {
        lemma_same_roots(g1, g2, task, state, k - 1);
        let r1 = g1.roots_view()[k - 1] as int;
        let r2 = g2.roots_view()[k - 1] as int;
        assert(node_built(g1.nodes_view(), r1, task, task_goal(task)[k - 1], g1.weight_budget(), MAX_DEPTH));
        assert(node_built(g2.nodes_view(), r2, task, task_goal(task)[k - 1], g2.weight_budget(), MAX_DEPTH));
        lemma_same_subtree(g1.nodes_view(), g2.nodes_view(), task, state, r1, r2);
    }
}

impl Heuristic for GoalGraph {
    open spec fn wf(&self) -> bool {
        &&& nodes_wf(self.nodes_view())
        &&& self.counted()
        &&& forall|k: int| 0 <= k < self.roots_view().len() ==> #[trigger] self.roots_view()[k] < self.nodes_view().len()
    }

    /// The estimate for `state`: the contributions of all goal trees,
    /// saturated at the largest `usize`.
    open spec fn value(&self, task: Task, state: State) -> nat {
        let total = roots_sum(self.nodes_view(), met_in(self.nodes_view(), task, state), self.roots_view(), self.roots_view().len() as int);
        if total > usize::MAX { usize::MAX as nat } else { total }
    }

    /// Walks the goal trees: a met node contributes nothing and is not
    /// descended into; an unmet leaf contributes its weight; an unmet inner
    /// node contributes what its children do.
    fn estimate(&self, task: &Task, state: &State) -> (r: usize) {
        let ghost met = met_in(self.nodes_view(), *task, *state);
        let mut acc: usize = 0;
        let mut k: usize = 0;
        while k < self.roots.len()
            invariant
                self.wf(),
                k <= self.roots_view().len(),
                met == met_in(self.nodes_view(), *task, *state),
                acc == (if roots_sum(self.nodes_view(), met, self.roots_view(), k as int) > usize::MAX {
                    usize::MAX as nat
                } else {
                    roots_sum(self.nodes_view(), met, self.roots_view(), k as int)
                }),
            decreases self.roots_view().len() - k,
        {
            let v = self.subtree_estimate(task, state, self.roots[k]);
            assert(roots_sum(self.nodes_view(), met, self.roots_view(), k + 1)
                == roots_sum(self.nodes_view(), met, self.roots_view(), k as int) + v);
            if acc > usize::MAX - v {
                acc = usize::MAX;
            } else {
                acc = acc + v;
            }
            k += 1;
        }
        acc
    }
}

} // verus!
