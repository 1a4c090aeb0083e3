use pddllib::translation::translate;
use seeker::evaluator::Evaluator;
use seeker::heuristic::add::Add;
use seeker::heuristic::constant::Constant;
use seeker::heuristic::goal_count::GoalCount;
use seeker::heuristic::goal_graph::GoalGraph;
use seeker::heuristic::{generate, Estimator, Heuristic, HeuristicKind};

const DOMAIN: &'static str = "(
    (:predicates
        (pred1 ?p)
        (pred2 ?p1 ?p2)
    )
    )";

const GRIPPER: &'static str = "
(define (domain gripper-strips)
    (:predicates
        (room ?r)
        (ball ?b)
        (gripper ?g)
        (at-robby ?r)
        (at ?b ?r)
        (free ?g)
        (carry ?o ?g)
    )
    (:action move
        :parameters (?from ?to)
        :precondition (and (room ?from) (room ?to) (at-robby ?from))
        :effect (and (at-robby ?to) (not (at-robby ?from)))
    )
    (:action pick
        :parameters (?obj ?room ?gripper)
        :precondition (and (ball ?obj) (room ?room) (gripper ?gripper)
            (at ?obj ?room) (at-robby ?room) (free ?gripper))
        :effect (and (carry ?obj ?gripper) (not (at ?obj ?room)) (not (free ?gripper)))
    )
    (:action drop
        :parameters (?obj ?room ?gripper)
        :precondition (and (ball ?obj) (room ?room) (gripper ?gripper)
            (carry ?obj ?gripper) (at-robby ?room))
        :effect (and (at ?obj ?room) (free ?gripper) (not (carry ?obj ?gripper)))
    )
)
";

fn gripper_problem(in_roomb: usize) -> String {
    let mut at = String::new();
    for b in 1..=4 {
        let room = if b > 4 - in_roomb { "roomb" } else { "rooma" };
        at.push_str(&format!("(at ball{} {}) ", b, room));
    }
    format!(
        "(define (problem strips-gripper4)
            (:domain gripper-strips)
            (:objects rooma roomb ball1 ball2 ball3 ball4 left right)
            (:init (room rooma) (room roomb) (ball ball1) (ball ball2) (ball ball3) (ball ball4)
                (gripper left) (gripper right) (at-robby rooma) (free left) (free right) {})
            (:goal (and (at ball1 roomb) (at ball2 roomb) (at ball3 roomb) (at ball4 roomb))))",
        at
    )
}

#[test]
fn none() {
    const PROBLEM: &'static str = "(
            (:objects obj1 obj2 obj3 obj4)
            (:init)
            (:goal
                (and
                    (pred1 obj1)
                    (pred1 obj2)
                    (pred2 obj3 obj4)
                    (pred2 obj4 obj3)
                )
            )
        )";
    let task = translate(&DOMAIN, &PROBLEM).unwrap();
    let heuristic = GoalCount::default();
    assert_eq!(4, heuristic.estimate(&task, &task.init));
}

#[test]
fn half() {
    const PROBLEM: &'static str = "(
            (:objects obj1 obj2 obj3 obj4)
            (:init
                (pred1 obj1)
                (pred2 obj3 obj4)
            )
            (:goal
                (and
                    (pred1 obj1)
                    (pred1 obj2)
                    (pred2 obj3 obj4)
                    (pred2 obj4 obj3)
                )
            )
        )";
    let task = translate(&DOMAIN, &PROBLEM).unwrap();
    let heuristic = GoalCount::default();
    assert_eq!(2, heuristic.estimate(&task, &task.init));
}

#[test]
fn full() {
    const PROBLEM: &'static str = "(
            (:objects obj1 obj2 obj3 obj4)
            (:init
                (pred1 obj1)
                (pred1 obj2)
                (pred2 obj3 obj4)
                (pred2 obj4 obj3)
            )
            (:goal
                (and
                    (pred1 obj1)
                    (pred1 obj2)
                    (pred2 obj3 obj4)
                    (pred2 obj4 obj3)
                )
            )
        )";
    let task = translate(&DOMAIN, &PROBLEM).unwrap();
    let heuristic = GoalCount::default();
    assert_eq!(0, heuristic.estimate(&task, &task.init));
}

#[test]
fn goal_count_gripper_unsolved() {
    let task = translate(GRIPPER, &gripper_problem(0)).unwrap();
    assert_eq!(4, GoalCount::new().estimate(&task, &task.init));
}

#[test]
fn goal_count_gripper_half_solved() {
    let task = translate(GRIPPER, &gripper_problem(2)).unwrap();
    assert_eq!(2, GoalCount::new().estimate(&task, &task.init));
}

#[test]
fn goal_count_gripper_solved() {
    let task = translate(GRIPPER, &gripper_problem(4)).unwrap();
    assert_eq!(0, GoalCount::new().estimate(&task, &task.init));
}

#[test]
fn add_counts_like_goal_count() {
    for k in 0..=4 {
        let task = translate(GRIPPER, &gripper_problem(k)).unwrap();
        assert_eq!(4 - k, Add::new().estimate(&task, &task.init));
        assert_eq!(GoalCount::new().estimate(&task, &task.init), Add::new().estimate(&task, &task.init));
    }
}

#[test]
fn constant_ignores_state() {
    let task = translate(GRIPPER, &gripper_problem(0)).unwrap();
    assert_eq!(7, Constant::new(7).estimate(&task, &task.init));
    let solved = translate(GRIPPER, &gripper_problem(4)).unwrap();
    assert_eq!(7, Constant::new(7).estimate(&solved, &solved.init));
    assert_eq!(0, Constant::new(0).estimate(&task, &task.init));
}

#[test]
fn goal_graph_zero_when_goal_met() {
    let task = translate(GRIPPER, &gripper_problem(4)).unwrap();
    let graph = GoalGraph::new(&task, 100);
    assert_eq!(0, graph.estimate(&task, &task.init));
}

#[test]
fn goal_graph_has_children_below_goals() {
    let task = translate(GRIPPER, &gripper_problem(0)).unwrap();
    let graph = GoalGraph::new(&task, 100);
    // each goal literal at(ball, roomb) is achieved by drop, which needs
    // carry(ball, ?gripper) and at-robby(roomb): more nodes than goals
    assert!(graph.size() > 4);
    let e = graph.estimate(&task, &task.init);
    assert!(e > 0);
    assert!(e <= 4 * 100);
}

#[test]
fn goal_graph_budget_zero_gives_leaves() {
    let task = translate(GRIPPER, &gripper_problem(0)).unwrap();
    let graph = GoalGraph::new(&task, 0);
    assert_eq!(4, graph.size());
    assert_eq!(0, graph.estimate(&task, &task.init));
}

#[test]
fn goal_graph_budget_one_keeps_goal_leaves() {
    // drop gives each goal nine candidate children, more than a weight of 1
    let task = translate(GRIPPER, &gripper_problem(1)).unwrap();
    let graph = GoalGraph::new(&task, 1);
    assert_eq!(4, graph.size());
    assert_eq!(3, graph.estimate(&task, &task.init));
}

#[test]
fn goal_graph_estimate_gripper_unsolved() {
    // per goal: eight carry leaves of weight 100 / 9 = 11, all unmet, and
    // at-robby(roomb) whose eight children of weight 1 are met but one
    let task = translate(GRIPPER, &gripper_problem(0)).unwrap();
    let graph = GoalGraph::new(&task, 100);
    assert_eq!(4 * (8 * 11 + 7), graph.estimate(&task, &task.init));
}

#[test]
fn goal_graph_within_budget_per_goal() {
    for w in [2usize, 3, 10, 57, 100] {
        let task = translate(GRIPPER, &gripper_problem(0)).unwrap();
        let graph = GoalGraph::new(&task, w);
        assert!(graph.estimate(&task, &task.init) <= 4 * w);
    }
}

#[test]
fn generate_selects_kind() {
    let task = translate(GRIPPER, &gripper_problem(1)).unwrap();
    match generate(&task, HeuristicKind::Constant { value: 5 }) {
        Estimator::Constant(h) => assert_eq!(5, h.estimate(&task, &task.init)),
        _ => panic!("wrong heuristic"),
    }
    let h = generate(&task, HeuristicKind::GoalCount);
    assert!(matches!(h, Estimator::GoalCount(_)));
    assert_eq!(3, h.estimate(&task, &task.init));
    let h = generate(&task, HeuristicKind::Add);
    assert!(matches!(h, Estimator::Add(_)));
    assert_eq!(3, h.estimate(&task, &task.init));
    let h = generate(&task, HeuristicKind::GoalGraph { weight: 1 });
    assert!(matches!(h, Estimator::GoalGraph(_)));
    assert_eq!(3, h.estimate(&task, &task.init));
}

#[test]
fn evaluator_counts_and_keeps_best() {
    let unsolved = translate(GRIPPER, &gripper_problem(0)).unwrap();
    let half = translate(GRIPPER, &gripper_problem(2)).unwrap();
    let mut ev = Evaluator::new(&unsolved, HeuristicKind::GoalCount);
    assert_eq!(0, ev.evaluations());
    assert_eq!(None, ev.best());
    assert_eq!(4, ev.estimate(&unsolved, &unsolved.init));
    assert_eq!(2, ev.estimate(&half, &half.init));
    assert_eq!(4, ev.estimate(&unsolved, &unsolved.init));
    assert_eq!(3, ev.evaluations());
    assert_eq!(Some(2), ev.best());
    let l = ev.latency();
    assert!(l.min_us <= l.max_us);
    assert!(l.max_us <= l.total_us);
    assert!((l.total_us as u128) * (l.total_us as u128) >= l.total_sq_us);
    ev.clear();
    assert_eq!(0, ev.evaluations());
    assert_eq!(None, ev.best());
    assert_eq!(0, ev.latency().total_us);
    assert_eq!(0, ev.latency().max_us);
}
