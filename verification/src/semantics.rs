use vstd::prelude::*;
use crate::brackets::partner;
use crate::command::Command;
use crate::error::Error;
use crate::input::{byte_at, position_after};
use crate::tape::{lemma_search_keeps_tape, TapeState};

verus! {

/// Everything that an execution changes.
pub struct State {
    /// Index of the next command.
    pub pc: int,
    /// The tape and its cursor.
    pub tape: TapeState,
    /// Number of input bytes read.
    pub consumed: int,
    /// The bytes put out.
    pub output: Seq<u8>,
}

impl State {
    /// The state in which an execution over a fresh tape begins.
    pub open spec fn initial(tape_length: nat) -> State {
        State { pc: 0, tape: TapeState::fresh(tape_length), consumed: 0, output: Seq::empty() }
    }
}

/// What the command at `s.pc` does to the tape, on a tape that has cells.
/// A search that meets no zero cell within as many strides as the tape has
/// cells would meet none however long it went on: it is a `Timeout`.
pub open spec fn tape_after(p: Seq<Command>, input: Seq<u8>, s: State) -> Result<TapeState, Error> {
    match p[s.pc] {
        Command::IncCursor(n) => Ok(s.tape.inc_cursor(n as int)),
        Command::DecCursor(n) => Ok(s.tape.dec_cursor(n as int)),
        Command::IncData(n) => Ok(s.tape.inc_data(n)),
        Command::DecData(n) => Ok(s.tape.dec_data(n)),
        Command::GetChar => Ok(s.tape.with_current(byte_at(input, s.consumed))),
        Command::ClearData => Ok(s.tape.with_current(0)),
        Command::SearchZeroInc(n) => match s.tape.search_zero(n as int, s.tape.cells.len()) {
            Some(tape) => Ok(tape),
            None => Err(Error::Timeout),
        },
        Command::SearchZeroDec(n) => match s.tape.search_zero(-(n as int), s.tape.cells.len()) {
            Some(tape) => Ok(tape),
            None => Err(Error::Timeout),
        },
        Command::MoveDataInc(n) => Ok(s.tape.move_data(n as int)),
        Command::MoveDataDec(n) => Ok(s.tape.move_data(-(n as int))),
        Command::PutChar | Command::LoopStart | Command::LoopEnd => Ok(s.tape),
    }
}

/// The index of the command that follows the one at `s.pc`: the next one,
/// but for a loop start on a zero cell and a loop end on a cell that is not
/// zero, which go to the command after their partner.
pub open spec fn next_pc(p: Seq<Command>, s: State) -> int {
    match p[s.pc] {
        Command::LoopStart => if s.tape.current() == 0 {
            partner(p, s.pc) + 1
        } else {
            s.pc + 1
        },
        Command::LoopEnd => if s.tape.current() != 0 {
            partner(p, s.pc) + 1
        } else {
            s.pc + 1
        },
        _ => s.pc + 1,
    }
}

/// The state after the command at `s.pc`, or the fault that it ends in.
///
/// Only moving the cursor is defined on a tape without cells; every other
/// command is `OutOfBounds` there.
pub open spec fn step(p: Seq<Command>, input: Seq<u8>, s: State) -> Result<State, Error> {
    if s.tape.cells.len() == 0 && !(p[s.pc] is IncCursor || p[s.pc] is DecCursor) {
        Err(Error::OutOfBounds)
    } else {
        match tape_after(p, input, s) {
            Err(e) => Err(e),
            Ok(tape) => Ok(
                State {
                    pc: next_pc(p, s),
                    tape,
                    consumed: if p[s.pc] is GetChar {
                        position_after(input, s.consumed)
                    } else {
                        s.consumed
                    },
                    output: if p[s.pc] is PutChar {
                        s.output.push(s.tape.current())
                    } else {
                        s.output
                    },
                },
            ),
        }
    }
}

/// How an execution ended and in which state.
pub struct Outcome {
    /// The state reached: the final one, or the one in which the fault arose.
    pub state: State,
    /// `None` when the program ran to its end.
    pub error: Option<Error>,
}

/// Runs `p` from state `s` for at most `fuel` commands. The execution ends
/// when the counter leaves the program; it is a `Timeout` when the fuel is
/// used up before that.
pub open spec fn run(p: Seq<Command>, input: Seq<u8>, s: State, fuel: nat) -> Outcome
    decreases fuel,
{
    if !(0 <= s.pc < p.len()) {
        Outcome { state: s, error: None }
    } else if fuel == 0 {
        Outcome { state: s, error: Some(Error::Timeout) }
    } else {
        match step(p, input, s) {
            Ok(next) => run(p, input, next, (fuel - 1) as nat),
            Err(e) => Outcome { state: s, error: Some(e) },
        }
    }
}

/// The characters that output bytes stand for: each byte is the code point
/// of its character.
pub open spec fn as_chars(bytes: Seq<u8>) -> Seq<char> {
    bytes.map_values(|b: u8| b as char)
}

/// A step keeps the tape well formed and at its length.
pub proof fn lemma_step_keeps_tape(p: Seq<Command>, input: Seq<u8>, s: State)
    requires
        s.tape.wf(),
        step(p, input, s) is Ok,
    ensures
        step(p, input, s)->Ok_0.tape.wf(),
        step(p, input, s)->Ok_0.tape.cells.len() == s.tape.cells.len(),
{
    let len = s.tape.cells.len();
    match p[s.pc] {
        Command::SearchZeroInc(n) => {
            lemma_search_keeps_tape(s.tape, n as int, len);
        },
        Command::SearchZeroDec(n) => {
            lemma_search_keeps_tape(s.tape, -(n as int), len);
        },
        _ => {},
    }
}

/// On a tape that has cells no command is out of bounds.
pub proof fn lemma_step_in_bounds(p: Seq<Command>, input: Seq<u8>, s: State)
    requires
        s.tape.cells.len() > 0,
    ensures
        step(p, input, s) != Err::<State, Error>(Error::OutOfBounds),
{
}

/// On a tape that has cells an execution never ends out of bounds, however
/// far the cursor is moved.
pub proof fn lemma_run_in_bounds(p: Seq<Command>, input: Seq<u8>, s: State, fuel: nat)
    requires
        s.tape.wf(),
        s.tape.cells.len() > 0,
    ensures
        run(p, input, s, fuel).error != Some(Error::OutOfBounds),
        run(p, input, s, fuel).state.tape.wf(),
        run(p, input, s, fuel).state.tape.cells.len() == s.tape.cells.len(),
    decreases fuel,
{
    if 0 <= s.pc < p.len() && fuel > 0 {
        lemma_step_in_bounds(p, input, s);
        match step(p, input, s) {
            Ok(next) => {
                lemma_step_keeps_tape(p, input, s);
                lemma_run_in_bounds(p, input, next, (fuel - 1) as nat);
            },
            Err(e) => {},
        }
    }
}

/// An execution ends without a fault, out of bounds, or as a timeout: the
/// bracket faults belong to the pairing of brackets, before anything runs.
pub proof fn lemma_run_faults(p: Seq<Command>, input: Seq<u8>, s: State, fuel: nat)
    ensures
        run(p, input, s, fuel).error is None || run(p, input, s, fuel).error == Some(
            Error::OutOfBounds,
        ) || run(p, input, s, fuel).error == Some(Error::Timeout),
    decreases fuel,
{
    if 0 <= s.pc < p.len() && fuel > 0 {
        match step(p, input, s) {
            Ok(next) => {
                lemma_run_faults(p, input, next, (fuel - 1) as nat);
            },
            Err(e) => {},
        }
    }
}

/// The state `s` with the counter at `pc` and the tape `tape`.
pub open spec fn moved(s: State, pc: int, tape: TapeState) -> State {
    State { pc, tape, consumed: s.consumed, output: s.output }
}

/// An execution that ends has fuel for its next command, which does not
/// fault, and goes on from the state after it with one unit less.
pub proof fn lemma_run_unfolds(p: Seq<Command>, input: Seq<u8>, s: State, fuel: nat)
    requires
        0 <= s.pc < p.len(),
        run(p, input, s, fuel).error is None,
    ensures
        fuel > 0,
        step(p, input, s) is Ok,
        run(p, input, s, fuel) == run(p, input, step(p, input, s)->Ok_0, (fuel - 1) as nat),
{
}

/// More fuel does not change an execution that ends.
pub proof fn lemma_more_fuel(p: Seq<Command>, input: Seq<u8>, s: State, fuel: nat, more: nat)
    requires
        fuel <= more,
        run(p, input, s, fuel).error is None,
    ensures
        run(p, input, s, more) == run(p, input, s, fuel),
    decreases fuel,
{
    if 0 <= s.pc < p.len() {
        lemma_run_unfolds(p, input, s, fuel);
        lemma_more_fuel(
            p,
            input,
            step(p, input, s)->Ok_0,
            (fuel - 1) as nat,
            (more - 1) as nat,
        );
    }
}

} // verus!
