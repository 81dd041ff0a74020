//! Arithmetic of the circular tape.

use vstd::prelude::*;

verus! {

/// Number of cells on the tape.
pub const TAPE_SIZE: usize = 100_000;

/// The signed offset that a word stands for, in two's complement.
pub open spec fn offset_of(word: usize) -> int {
    if word as int <= isize::MAX as int {
        word as int
    } else {
        word as int - usize::MAX as int - 1
    }
}

/// The cell that lies `word` away from cell `pointer` on the circular tape.
pub open spec fn cell_at(pointer: int, word: usize) -> int {
    (pointer + offset_of(word)) % (TAPE_SIZE as int)
}

/// Moves a pointer by a signed offset, wrapping around the ends of the tape.
pub fn advance(pointer: usize, word: usize) -> (cell: usize)
    requires
        pointer < TAPE_SIZE,
    ensures
        cell == cell_at(pointer as int, word),
        cell < TAPE_SIZE,
{
    if word <= isize::MAX as usize {
        (pointer + word % TAPE_SIZE) % TAPE_SIZE
    } else {
        let back: usize = (usize::MAX - word + 1) % TAPE_SIZE;
        (pointer + (TAPE_SIZE - back)) % TAPE_SIZE
    }
}

} // verus!
