//! The tape and pointer that a program runs against.
use vstd::prelude::*;

verus! {

/// Number of cells on the tape.
pub const TAPE_LEN: usize = 0x10000;

/// Mask that reduces an address to a cell index.
pub const MEMORY_MASK: usize = 0xffff;

/// The tape of byte cells and the pointer into it.
///
/// Addresses wrap around the tape: the pointer and every cell address are
/// taken modulo the tape length.
#[derive(Clone, Copy)]
pub struct BrainfuckState {
    pub memory: [u8; TAPE_LEN],
    pub pointer: usize,
}

impl BrainfuckState {
    /// A tape of zero cells with the pointer at the first cell.
    pub fn new() -> (r: Self)
        ensures
            r.pointer == 0,
            forall|i: int| 0 <= i < TAPE_LEN ==> #[trigger] r.memory@[i] == 0,
    {
        BrainfuckState { memory: [0u8; TAPE_LEN], pointer: 0 }
    }
}

impl Default for BrainfuckState {
    fn default() -> (r: Self)
        ensures
            r.pointer == 0,
            forall|i: int| 0 <= i < TAPE_LEN ==> #[trigger] r.memory@[i] == 0,
    {
        Self::new()
    }
}

} // verus!
