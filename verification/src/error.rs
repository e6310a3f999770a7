//! The ways in which a protocol run can fail.
use vstd::prelude::*;

verus! {

/// Every failure is final for the run that met it; nothing is retried.
#[derive(Debug, PartialEq, Eq, Structural, Clone, Copy)]
pub enum ProtocolError {
    /// The netlist has a wire that depends on itself.
    CycleDetected,
    /// A gate reads a wire that nothing defines, or for which no label is known.
    UnknownWire,
    /// A gate's kind does not fit the number of its inputs.
    ArityMismatch,
    /// A supplied input label is neither of the two labels of its wire.
    LabelMismatch,
    /// No output label could be recovered for a gate.
    CorruptGarbling,
    /// An oblivious transfer was handed a malformed value or failed its tag check.
    OTAbort,
}

} // verus!
