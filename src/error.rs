use vstd::prelude::*;

verus! {

/// Why a run stopped before its end. Each kind carries the positions needed
/// to find the fault without running the program again.
#[derive(Debug, PartialEq, Eq, Clone, Copy, Structural)]
pub enum ExecError {
    /// A `]` with no `[` before it, or a `[` that is never closed; `position`
    /// is the index of that token.
    BracketMismatch { position: usize },
    /// A move right from `ptr` by `by` cells at token `ip` would leave the tape.
    TapeOverflow { ip: usize, ptr: usize, by: u8 },
    /// A move left from `ptr` by `by` cells at token `ip` would go below cell 0.
    TapeUnderflow { ip: usize, ptr: usize, by: u8 },
    /// The comma at token `ip` found no input left.
    InputExhausted { ip: usize },
}

} // verus!
