//! What a transformation of a module is.

use crate::ir::inst::{Module, ModuleView};
use vstd::prelude::*;

verus! {

/// A transformation of a module.
pub trait Pass {
    /// Can the pass run on this module?
    spec fn accepts(&self, m: ModuleView) -> bool;

    /// Is `after` what the pass makes of `before`, and `changed` what it
    /// reports?
    spec fn outcome(&self, before: ModuleView, after: ModuleView, changed: bool) -> bool;

    /// The name of the pass.
    fn name(&self) -> (r: &'static str);

    /// Runs the pass, and tells whether it changed anything.
    fn run(&self, module: &mut Module) -> (changed: bool)
        requires
            self.accepts(old(module)@),
        ensures
            self.outcome(old(module)@, final(module)@, changed),
    ;
}

} // verus!
