//! The analysis pipeline that tokens pass through before they are indexed.

use vstd::prelude::*;
use crate::token::Token;

verus! {

/// An ordered chain of token transforms. No transform takes part in `run`
/// yet: the pipeline hands its tokens on as they are.
pub struct Pipeline {
    registered: usize,
}

impl Pipeline {
    /// The number of stages that were added.
    pub closed spec fn stages(&self) -> nat {
        self.registered as nat
    }

    /// The pipeline without stages.
    pub fn new() -> (pipeline: Pipeline)
        ensures
            pipeline.stages() == 0,
    {
        Pipeline { registered: 0 }
    }

    /// Takes note of one more stage. The stage itself is not kept, since no
    /// stage is run yet. The count stops at `usize::MAX`.
    pub fn add<T>(&mut self, f: T) where T: Fn(i32) -> i32 + 'static
        ensures
            final(self).stages() == if old(self).stages() < usize::MAX {
                old(self).stages() + 1
            } else {
                old(self).stages()
            },
    {
        if self.registered < usize::MAX {
            self.registered = self.registered + 1;
        }
    }

    /// The tokens as they came, in their order.
    pub fn run(&self, tokens: Vec<Token>) -> (out: Vec<Token>)
        ensures
            out == tokens,
    {
        tokens
    }
}

} // verus!
