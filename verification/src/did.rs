//! Whether a step changed something.

use vstd::prelude::*;

verus! {

/// The outcome of a step that may or may not change something.
#[derive(Debug, Clone, Copy, PartialEq, Eq, Structural)]
pub enum Did {
    /// The step changed something
    Something,
    /// The step changed nothing
    Nothing,
}

impl Did {
    /// `true` when the step changed something.
    pub fn did_something(self) -> (r: bool)
        ensures
            r == (self == Did::Something),
    {
        match self {
            Did::Something => true,
            Did::Nothing => false,
        }
    }
}

} // verus!
