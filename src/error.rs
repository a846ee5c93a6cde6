use vstd::prelude::*;

use crate::value::ValueFault;

verus! {

/// How a run of the interpreter failed.
#[derive(Debug, Clone, Copy, PartialEq, Eq, Structural)]
pub enum InterpretError {
    /// The source did not compile; nothing was run.
    CompileError,
    /// The chunk was inconsistent with the machine (a bad opcode, a read past the end,
    /// an empty stack); never the case for a chunk the compiler produced.
    RuntimeError,
    /// An operator refused its operands, at the given source line.
    ValueError(ValueFault, u32),
}

/// A chunk that cannot be decoded at some offset.
#[derive(Debug, Clone, Copy, PartialEq, Eq, Structural)]
pub enum ChunkError {
    IPOutOfBoundsError,
    BadOPCodeError(u8),
}

impl From<ChunkError> for InterpretError {
    fn from(_value: ChunkError) -> (r: InterpretError)
        ensures
            r == InterpretError::RuntimeError,
    {
        InterpretError::RuntimeError
    }
}

impl vstd::std_specs::convert::FromSpecImpl<ChunkError> for InterpretError {
    open spec fn obeys_from_spec() -> bool {
        true
    }

    open spec fn from_spec(v: ChunkError) -> InterpretError {
        InterpretError::RuntimeError
    }
}

} // verus!
