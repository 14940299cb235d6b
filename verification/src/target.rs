//! What the code generator's target fixes about data layout.

use vstd::prelude::*;

verus! {

/// A data model of the target.
#[derive(Debug, Clone, Copy, PartialEq, Eq, Structural)]
pub enum TargetLayout {
    /// Pointers of eight bytes.
    LP64,
}

impl TargetLayout {
    /// How many bytes a pointer takes.
    pub open spec fn spec_pointer_bytes(self) -> u64 {
        match self {
            TargetLayout::LP64 => 8,
        }
    }

    /// How many bytes a pointer takes.
    pub fn pointer_bytes(self) -> (r: u64)
        ensures
            r == self.spec_pointer_bytes(),
    {
        match self {
            TargetLayout::LP64 => 8,
        }
    }
}

} // verus!
