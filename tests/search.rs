use pddllib::state::State;
use pddllib::successor_generation::successors;
use pddllib::task::Task;
use pddllib::translation::translate;
use seeker::evaluator::Evaluator;
use seeker::heuristic::HeuristicKind;
use seeker::search::bfs::BFS;
use seeker::search::dfs::DFS;
use seeker::search::driver::{memory_check_due, settle, MEMORY_CHECK_PERIOD};
use seeker::search::frontier::Frontier;
use seeker::search::gbfs::GBFS;
use seeker::search::lgbfs::LGBFS;
use seeker::search::{generate, Error, SearchAlgorithm, SearchKind, Searcher, StepResult};
use seeker::pddl::check_task;
use seeker::table::StateTable;

const GRIPPER: &'static str = "
(define (domain gripper-strips)
    (:predicates
        (room ?r)
        (ball ?b)
        (gripper ?g)
        (at-robby ?r)
        (at ?b ?r)
        (free ?g)
        (carry ?o ?g)
    )
    (:action move
        :parameters (?from ?to)
        :precondition (and (room ?from) (room ?to) (at-robby ?from))
        :effect (and (at-robby ?to) (not (at-robby ?from)))
    )
    (:action pick
        :parameters (?obj ?room ?gripper)
        :precondition (and (ball ?obj) (room ?room) (gripper ?gripper)
            (at ?obj ?room) (at-robby ?room) (free ?gripper))
        :effect (and (carry ?obj ?gripper) (not (at ?obj ?room)) (not (free ?gripper)))
    )
    (:action drop
        :parameters (?obj ?room ?gripper)
        :precondition (and (ball ?obj) (room ?room) (gripper ?gripper)
            (carry ?obj ?gripper) (at-robby ?room))
        :effect (and (at ?obj ?room) (free ?gripper) (not (carry ?obj ?gripper)))
    )
)
";

fn gripper_problem(balls: usize, in_roomb: usize) -> String {
    let mut objects = String::new();
    let mut init = String::new();
    let mut goal = String::new();
    for b in 1..=balls {
        let room = if b > balls - in_roomb { "roomb" } else { "rooma" };
        objects.push_str(&format!("ball{} ", b));
        init.push_str(&format!("(ball ball{}) (at ball{} {}) ", b, b, room));
        goal.push_str(&format!("(at ball{} roomb) ", b));
    }
    format!(
        "(define (problem strips-gripper)
            (:domain gripper-strips)
            (:objects rooma roomb {}left right)
            (:init (room rooma) (room roomb) (gripper left) (gripper right)
                (at-robby rooma) (free left) (free right) {})
            (:goal (and {})))",
        objects, init, goal
    )
}

const STUCK_DOMAIN: &'static str = "
(define (domain stuck)
    (:predicates (p ?x) (q ?x))
    (:action go
        :parameters (?x)
        :precondition (and (p ?x))
        :effect (and (q ?x) (not (p ?x)))
    )
)
";

const STUCK_PROBLEM: &'static str = "
(define (problem stuck1)
    (:domain stuck)
    (:objects a)
    (:init)
    (:goal (and (q a)))
)
";

fn run<S: SearchAlgorithm>(task: &Task, searcher: &mut S) -> StepResult {
    for _ in 0..1_000_000 {
        match searcher.step(task) {
            Err(Error::Unfinished) => continue,
            r => return r,
        }
    }
    panic!("search did not finish");
}

fn check_plan(task: &Task, plan: &Vec<State>) {
    assert_eq!(&task.init, &plan[0]);
    assert!(plan.last().unwrap().covers(task, &task.goal));
    for w in plan.windows(2) {
        assert!(successors(task, &w[0]).contains(&w[1]));
    }
}

#[test]
fn bfs_plan_is_shortest() {
    // two balls: pick, pick, move, drop, drop
    let task = translate(GRIPPER, &gripper_problem(2, 0)).unwrap();
    let plan = run(&task, &mut BFS::new(&task.init)).unwrap();
    check_plan(&task, &plan);
    assert_eq!(6, plan.len());
}

#[test]
fn bfs_plan_is_shortest_four_balls() {
    let task = translate(GRIPPER, &gripper_problem(4, 0)).unwrap();
    let plan = run(&task, &mut BFS::new(&task.init)).unwrap();
    check_plan(&task, &plan);
    assert_eq!(12, plan.len());
}

#[test]
fn bfs_one_ball_left() {
    let task = translate(GRIPPER, &gripper_problem(3, 2)).unwrap();
    let plan = run(&task, &mut BFS::new(&task.init)).unwrap();
    check_plan(&task, &plan);
    // pick, move, drop
    assert_eq!(4, plan.len());
}

#[test]
fn solved_initial_state_is_its_own_plan() {
    let task = translate(GRIPPER, &gripper_problem(2, 2)).unwrap();
    let kinds = [
        SearchKind::BFS,
        SearchKind::DFS,
        SearchKind::GBFS { heuristic: HeuristicKind::GoalCount },
        SearchKind::LGBFS { heuristic: HeuristicKind::GoalCount },
    ];
    for kind in kinds {
        let mut s = generate(&task, kind);
        let plan = s.step(&task).unwrap();
        assert_eq!(vec![task.init.clone()], plan);
    }
}

#[test]
fn dfs_finds_a_plan() {
    let task = translate(GRIPPER, &gripper_problem(2, 0)).unwrap();
    let plan = run(&task, &mut DFS::new(&task.init)).unwrap();
    check_plan(&task, &plan);
}

#[test]
fn gbfs_finds_a_plan() {
    let task = translate(GRIPPER, &gripper_problem(3, 0)).unwrap();
    let mut s = GBFS::new(&task.init, Evaluator::new(&task, HeuristicKind::GoalCount));
    let plan = run(&task, &mut s).unwrap();
    check_plan(&task, &plan);
    assert!(s.evaluator().evaluations() > 0);
}

#[test]
fn gbfs_with_goal_graph_finds_a_plan() {
    let task = translate(GRIPPER, &gripper_problem(2, 0)).unwrap();
    let mut s = GBFS::new(&task.init, Evaluator::new(&task, HeuristicKind::GoalGraph { weight: 100 }));
    let plan = run(&task, &mut s).unwrap();
    check_plan(&task, &plan);
}

#[test]
fn lgbfs_finds_a_plan() {
    let task = translate(GRIPPER, &gripper_problem(3, 0)).unwrap();
    let mut s = LGBFS::new(&task.init, Evaluator::new(&task, HeuristicKind::GoalCount));
    let plan = run(&task, &mut s).unwrap();
    check_plan(&task, &plan);
}

#[test]
fn lgbfs_evaluates_once_per_expansion() {
    let task = translate(GRIPPER, &gripper_problem(2, 0)).unwrap();
    let mut s = LGBFS::new(&task.init, Evaluator::new(&task, HeuristicKind::GoalCount));
    assert_eq!(Err(Error::Unfinished), s.step(&task));
    assert_eq!(1, s.evaluator().evaluations());
    assert_eq!(Some(2), s.evaluator().best());
    assert_eq!(Err(Error::Unfinished), s.step(&task));
    assert_eq!(2, s.evaluator().evaluations());
}

#[test]
fn gbfs_evaluates_every_successor() {
    let task = translate(GRIPPER, &gripper_problem(2, 0)).unwrap();
    let n = successors(&task, &task.init).len() as u64;
    let mut s = GBFS::new(&task.init, Evaluator::new(&task, HeuristicKind::GoalCount));
    assert_eq!(Err(Error::Unfinished), s.step(&task));
    assert_eq!(n, s.evaluator().evaluations());
}

#[test]
fn dead_end_is_unsolvable_on_first_step() {
    let task = translate(STUCK_DOMAIN, STUCK_PROBLEM).unwrap();
    assert!(successors(&task, &task.init).is_empty());
    let kinds = [
        SearchKind::BFS,
        SearchKind::DFS,
        SearchKind::GBFS { heuristic: HeuristicKind::GoalCount },
        SearchKind::LGBFS { heuristic: HeuristicKind::Constant { value: 3 } },
    ];
    for kind in kinds {
        let mut s: Searcher = generate(&task, kind);
        assert_eq!(Err(Error::Unsolvable), s.step(&task));
        assert_eq!(Err(Error::Unsolvable), s.step(&task));
    }
}

#[test]
fn zero_time_limit_times_out() {
    assert_eq!(Some(Err(Error::OutOfTime)), settle(Err(Error::Unfinished), 0, Some(0), None, None));
    assert_eq!(Some(Err(Error::OutOfTime)), settle(Err(Error::Unfinished), 5, Some(0), Some(10), Some(1)));
    let task = translate(GRIPPER, &gripper_problem(1, 1)).unwrap();
    let plan = vec![task.init.clone()];
    assert_eq!(Some(Ok(plan.clone())), settle(Ok(plan), 10, Some(0), None, None));
}

#[test]
fn limits_in_settle() {
    assert_eq!(None, settle(Err(Error::Unfinished), 10, Some(11), Some(100), Some(100)));
    assert_eq!(None, settle(Err(Error::Unfinished), 10, None, None, Some(1)));
    assert_eq!(Some(Err(Error::OutOfTime)), settle(Err(Error::Unfinished), 11, Some(11), None, None));
    assert_eq!(Some(Err(Error::OutOfMemory)), settle(Err(Error::Unfinished), 10, Some(11), Some(101), Some(100)));
    assert_eq!(Some(Err(Error::Unsolvable)), settle(Err(Error::Unsolvable), 99, Some(1), Some(101), Some(100)));
}

#[test]
fn memory_sampled_periodically() {
    assert!(memory_check_due(MEMORY_CHECK_PERIOD));
    assert!(memory_check_due(2 * MEMORY_CHECK_PERIOD));
    assert!(!memory_check_due(1));
    assert!(!memory_check_due(MEMORY_CHECK_PERIOD + 1));
}

#[test]
fn insert_if_absent_is_idempotent() {
    let task = translate(GRIPPER, &gripper_problem(2, 0)).unwrap();
    let mut table = StateTable::new(&task.init);
    assert_eq!(1, table.len());
    assert_eq!((0, false), table.insert_if_absent(task.init.clone(), 0));
    let next = successors(&task, &task.init);
    let s = next.iter().find(|s| **s != task.init).unwrap().clone();
    assert_eq!((1, true), table.insert_if_absent(s.clone(), 0));
    assert_eq!((1, false), table.insert_if_absent(s.clone(), 1));
    assert_eq!(2, table.len());
    let (stored, parent) = table.get(1);
    assert_eq!(&s, stored);
    assert_eq!(0, parent);
    assert_eq!(vec![task.init.clone(), s.clone()], table.trace(1));
    assert_eq!(vec![task.init.clone()], table.trace(0));
}

#[test]
fn frontier_pops_lowest_estimate_then_lowest_index() {
    let mut f = Frontier::new();
    f.push(3, 0);
    f.push(1, 5);
    f.push(1, 2);
    f.push(2, 1);
    assert_eq!(Some((1, 2)), f.pop_min());
    assert_eq!(Some((1, 5)), f.pop_min());
    assert_eq!(Some((2, 1)), f.pop_min());
    assert_eq!(Some((3, 0)), f.pop_min());
    assert_eq!(None, f.pop_min());
    assert_eq!(0, f.len());
}

#[test]
fn error_descriptions() {
    assert_eq!("Unfinished", Error::Unfinished.describe());
    assert_eq!("Unsolvable", Error::Unsolvable.describe());
    assert_eq!("Out of time", Error::OutOfTime.describe());
    assert_eq!("Out of memory", Error::OutOfMemory.describe());
}

#[test]
fn gripper_is_supported() {
    let task = translate(GRIPPER, &gripper_problem(2, 0)).unwrap();
    assert!(check_task(&task));
    let stuck = translate(STUCK_DOMAIN, STUCK_PROBLEM).unwrap();
    assert!(check_task(&stuck));
}

#[test]
fn out_of_range_parameter_is_unsupported() {
    let mut task = translate(GRIPPER, &gripper_problem(2, 0)).unwrap();
    task.actions[0].precondition[0].args[0] = pddllib::task::action::Argument::Index(7);
    assert!(!check_task(&task));
}

#[test]
fn constant_in_unary_precondition_is_unsupported() {
    let mut task = translate(GRIPPER, &gripper_problem(2, 0)).unwrap();
    task.actions[0].precondition[0].args[0] = pddllib::task::action::Argument::Const(0);
    assert!(!check_task(&task));
}

#[test]
fn large_object_is_unsupported() {
    let mut task = translate(GRIPPER, &gripper_problem(2, 0)).unwrap();
    task.objects_typed[0].push(65535);
    assert!(!check_task(&task));
}

#[test]
fn lgbfs_goal_pop_makes_no_evaluation() {
    let task = translate(GRIPPER, &gripper_problem(2, 2)).unwrap();
    let mut s = LGBFS::new(&task.init, Evaluator::new(&task, HeuristicKind::GoalCount));
    assert!(s.step(&task).is_ok());
    assert_eq!(0, s.evaluator().evaluations());
    let mut g = GBFS::new(&task.init, Evaluator::new(&task, HeuristicKind::GoalCount));
    assert!(g.step(&task).is_ok());
    assert_eq!(0, g.evaluator().evaluations());
}
