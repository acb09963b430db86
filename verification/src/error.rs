//! The ways in which the backend can fail.

use vstd::prelude::*;

verus! {

/// A terminal failure of one compilation attempt. There is no recovery:
/// a stage that fails produces no output at all.
#[derive(Debug, PartialEq, Eq, Clone, Copy, Structural)]
pub enum CompileError {
    /// The syntax tree has a shape that the IR generator has no rule for.
    MalformedAst,
    /// A virtual register index lies outside the supported range.
    RegisterSpaceExhausted,
    /// A virtual register needs a physical slot and none is free.
    PhysicalRegistersExhausted,
    /// An instruction reached the emitter that it has no translation for.
    UnknownOperation,
}

} // verus!
