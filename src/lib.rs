//! Classical planning search: a deduplicated state table, four search
//! strategies, a family of goal-distance heuristics and a resource-bounded
//! driver, over grounded tasks from `pddllib`.
use vstd::prelude::*;

pub mod pddl;
pub mod table;
pub mod evaluator;
pub mod heuristic;
pub mod search;

verus! {

} // verus!
