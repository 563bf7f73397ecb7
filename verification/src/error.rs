use vstd::prelude::*;

verus! {

/// Why a program was rejected.
#[derive(Debug, Clone, Copy, PartialEq, Eq, Structural)]
pub enum CompileError {
    /// A loop-close marker was met while no loop-open marker was pending.
    UnbalancedLoop,
}

} // verus!
