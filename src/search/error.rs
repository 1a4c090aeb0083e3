//! How a step or a search ends, when it ends without a plan.
use vstd::prelude::*;

verus! {

#[derive(Debug, Clone, Copy, PartialEq, Eq)]
pub enum Error {
    /// Not done: call `step` again. Never returned by a finished search.
    Unfinished,
    /// The frontier ran out without reaching the goal.
    Unsolvable,
    /// The time limit was reached.
    OutOfTime,
    /// The memory limit was exceeded.
    OutOfMemory,
}

impl Error {
    /// A short description for people.
    pub fn describe(&self) -> (r: &'static str)
        ensures
            r@ == match self {
                Error::Unfinished => "Unfinished"@,
                Error::Unsolvable => "Unsolvable"@,
                Error::OutOfTime => "Out of time"@,
                Error::OutOfMemory => "Out of memory"@,
            },
    {
        match self {
            Error::Unfinished => "Unfinished",
            Error::Unsolvable => "Unsolvable",
            Error::OutOfTime => "Out of time",
            Error::OutOfMemory => "Out of memory",
        }
    }
}

} // verus!
