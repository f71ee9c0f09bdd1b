use vstd::prelude::*;

verus! {

/// One instruction of a program.
///
/// The first eight are what source text can hold; the last five stand for
/// whole loops and are introduced by the optimizer only.
#[derive(Debug, Clone, Copy, PartialEq, Eq, Structural)]
pub enum Command {
    /// Move the cursor forward by the given number of cells.
    IncCursor(usize),
    /// Move the cursor back by the given number of cells.
    DecCursor(usize),
    /// Add to the current cell, modulo 256.
    IncData(u8),
    /// Subtract from the current cell, modulo 256.
    DecData(u8),
    /// Append the current cell to the output.
    PutChar,
    /// Store the next input byte in the current cell.
    GetChar,
    /// Skip to the matching loop end if the current cell is zero.
    LoopStart,
    /// Go back to the matching loop start if the current cell is not zero.
    LoopEnd,
    /// Set the current cell to zero.
    ClearData,
    /// Move the cursor forward in strides until it rests on a zero cell.
    SearchZeroInc(usize),
    /// Move the cursor back in strides until it rests on a zero cell.
    SearchZeroDec(usize),
    /// Add the current cell to the cell that far ahead, and clear it.
    MoveDataInc(usize),
    /// Add the current cell to the cell that far behind, and clear it.
    MoveDataDec(usize),
}

} // verus!
