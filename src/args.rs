//! The options of a run.

use vstd::prelude::*;

verus! {

/// What the command line asked for.
#[derive(Debug, Default)]
pub struct Args {
    pub dict: Option<String>,
    pub words: Vec<String>,
    pub exit: bool,
    pub out: Option<String>,
    pub progress: bool,
}

impl Args {
    /// Only help was asked for: nothing is left to solve.
    pub fn exit(&self) -> (r: bool)
        ensures
            r == (self.exit && self.dict is None && self.words@.len() == 0),
    {
        self.exit && self.dict.is_none() && self.words.len() == 0
    }
}

} // verus!
