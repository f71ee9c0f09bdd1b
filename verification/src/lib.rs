//! A virtual machine for an eight-symbol tape language: source text is parsed
//! with run-length folding, common loop idioms are rewritten into composite
//! commands, brackets are paired into a jump table, and the resulting program
//! is executed over a byte tape with wrapping cells and a wrapping cursor.

use vstd::prelude::*;
use vstd::utf8::encode_utf8;

pub mod balance;
pub mod brackets;
pub mod command;
pub mod equivalence;
pub mod error;
pub mod input;
pub mod jump_table;
pub mod machine;
pub mod optimizer;
pub mod parser;
pub mod program;
pub mod semantics;
pub mod shaping;
pub mod tape;
pub mod text;

use crate::brackets::bracket_error;
use crate::command::Command;
use crate::equivalence::{lemma_optimize_keeps_bracket_error, lemma_optimized_run_agrees};
use crate::error::Error;
use crate::input::Input;
use crate::machine::Machine;
use crate::optimizer::optimize;
use crate::parser::parse;
use crate::program::Program;
use crate::semantics::{as_chars, run, State};
use crate::tape::Tape;

verus! {

/// Number of cells of the tape that `execute_program` runs on.
pub const TAPE_SIZE: usize = 30000;

/// Number of commands that `execute_program` executes at most.
pub const STEP_BUDGET: u64 = 0xffff_ffff_ffff_ffff;

/// What running a program comes to: the fault in its brackets, reported
/// before anything runs; or else what its execution on a fresh tape of
/// `tape_length` cells, for at most `budget` commands, ends in: the bytes
/// put out, or the fault.
pub open spec fn result_of_program(p: Seq<Command>, input: Seq<u8>, tape_length: nat, budget: nat)
    -> Result<Seq<u8>, Error> {
    match bracket_error(p) {
        Some(e) => Err(e),
        None => {
            let outcome = run(p, input, State::initial(tape_length), budget);
            match outcome.error {
                Some(e) => Err(e),
                None => Ok(outcome.state.output),
            }
        },
    }
}

/// What executing source text on given input bytes comes to: the text is
/// parsed, the program optimized and run.
pub open spec fn result_of(source: Seq<char>, input: Seq<u8>, tape_length: nat, budget: nat)
    -> Result<Seq<u8>, Error> {
    result_of_program(optimize(parse(source)), input, tape_length, budget)
}

/// What executing source text comes to when the optimizer is left out.
pub open spec fn unoptimized_result_of(
    source: Seq<char>,
    input: Seq<u8>,
    tape_length: nat,
    budget: nat,
) -> Result<Seq<u8>, Error> {
    result_of_program(parse(source), input, tape_length, budget)
}

/// The optimizer changes no result but a timeout: text whose brackets are
/// at fault is refused with the same fault, and text that, run as parsed,
/// ends within the budget, ends in the same way when optimized first, with
/// the same bytes put out.
pub proof fn lemma_optimizing_keeps_result(
    source: Seq<char>,
    input: Seq<u8>,
    tape_length: nat,
    budget: nat,
)
    requires
        unoptimized_result_of(source, input, tape_length, budget) != Err::<Seq<u8>, Error>(
            Error::Timeout,
        ),
    ensures
        result_of(source, input, tape_length, budget) == unoptimized_result_of(
            source,
            input,
            tape_length,
            budget,
        ),
{
    let p = parse(source);
    lemma_optimize_keeps_bracket_error(p);
    if bracket_error(p) is None {
        lemma_optimized_run_agrees(p, input, State::initial(tape_length), budget);
    }
}

/// Parses, optimizes and executes `program_str` on a fresh tape of
/// `TAPE_SIZE` cells, with the bytes of `input` as its input, and returns
/// what it puts out, each byte as the character of that code point.
///
/// A bracket without a partner is an `UnmatchedLoopEnd` or an
/// `UnmatchedLoopStart`, and nothing is run. An execution that has not ended
/// after `STEP_BUDGET` commands, or that comes to a search for a zero cell
/// which can never end, is a `Timeout`.
pub fn execute_program(program_str: &str, input: &str) -> (r: Result<String, Error>)
    ensures
        match r {
            Ok(text) => result_of(
                program_str@,
                encode_utf8(input@),
                TAPE_SIZE as nat,
                STEP_BUDGET as nat,
            ) matches Ok(bytes) && text@ == as_chars(bytes),
            Err(e) => result_of(
                program_str@,
                encode_utf8(input@),
                TAPE_SIZE as nat,
                STEP_BUDGET as nat,
            ) == Err::<Seq<u8>, Error>(e),
        },
{
    let program = match Program::from_str(program_str) {
        Ok(program) => program,
        Err(e) => {
            return Err(e);
        },
    };
    let program = program.optimize_loop();
    let tape = Tape::new(TAPE_SIZE);
    let mut machine = match Machine::new(program, tape) {
        Ok(machine) => machine,
        Err(e) => {
            return Err(e);
        },
    };
    let input = Input::new(input);
    machine.execute(input, STEP_BUDGET)
}

} // verus!
