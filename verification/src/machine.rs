use vstd::prelude::*;
use crate::brackets::{bracket_error, lemma_partner_of_pair};
use crate::command::Command;
use crate::error::Error;
use crate::input::Input;
use crate::jump_table::JumpTable;
use crate::program::{Program, ProgramCounter};
use crate::semantics::{as_chars, run, step, State};
use crate::tape::{Tape, TapeState};
use crate::text::push_char;

verus! {

/// A program together with the tape it works on, the index of its next
/// command and the table that pairs its brackets.
#[derive(Debug)]
pub struct Machine {
    program: Program,
    tape: Tape,
    pc: ProgramCounter,
    jump_table: JumpTable,
}

impl Machine {
    /// The commands of the program.
    pub closed spec fn program(&self) -> Seq<Command> {
        self.program@
    }

    /// The tape as it is now.
    pub closed spec fn tape(&self) -> TapeState {
        self.tape@
    }

    /// Index of the next command.
    pub closed spec fn pc(&self) -> int {
        self.pc@ as int
    }

    /// The tape is well formed and the table pairs the program's brackets.
    pub closed spec fn wf(&self) -> bool {
        self.tape.wf() && self.jump_table.pairs_brackets_of(self.program@)
    }

    /// The machine's part of an execution state, with the given count of
    /// input bytes read and the given output.
    pub open spec fn state(&self, consumed: int, output: Seq<u8>) -> State {
        State { pc: self.pc(), tape: self.tape(), consumed, output }
    }

    /// A machine about to run `program` from its first command on `tape`;
    /// refused when a bracket of the program has no partner.
    pub fn new(program: Program, tape: Tape) -> (r: Result<Machine, Error>)
        requires
            tape.wf(),
        ensures
            match r {
                Ok(machine) => {
                    &&& bracket_error(program@) is None
                    &&& machine.wf()
                    &&& machine.program() == program@
                    &&& machine.tape() == tape@
                    &&& machine.pc() == 0
                },
                Err(e) => bracket_error(program@) == Some(e),
            },
    {
        match JumpTable::build(&program) {
            Ok(jump_table) => Ok(Machine { jump_table, program, tape, pc: ProgramCounter::from(0) }),
            Err(e) => Err(e),
        }
    }

    /// Whether the counter has left the program.
    pub fn is_end_of_program(&self) -> (ended: bool)
        ensures
            ended == (self.pc() >= self.program().len()),
    {
        self.pc.index() >= self.program.0.len()
    }

    /// Moves the counter to the next command.
    pub fn inc_pc(&mut self)
        requires
            old(self).wf(),
            old(self).pc() < usize::MAX,
        ensures
            final(self).wf(),
            final(self).pc() == old(self).pc() + 1,
            final(self).program() == old(self).program(),
            final(self).tape() == old(self).tape(),
    {
        self.pc.inc();
    }

    /// Moves the counter to `pc`.
    pub fn set_pc(&mut self, pc: ProgramCounter)
        requires
            old(self).wf(),
        ensures
            final(self).wf(),
            final(self).pc() == pc@,
            final(self).program() == old(self).program(),
            final(self).tape() == old(self).tape(),
    {
        self.pc = pc;
    }

    /// Executes the command under the counter: reads from `input` and
    /// appends to `output` as the command asks. A fault leaves the machine
    /// as it was.
    pub fn step(&mut self, input: &mut Input, output: &mut String) -> (r: Result<(), Error>)
        requires
            old(self).wf(),
            0 <= old(self).pc() < old(self).program().len(),
        ensures
            final(self).wf(),
            final(self).program() == old(self).program(),
            final(input).bytes() == old(input).bytes(),
            match step(
                old(self).program(),
                old(input).bytes(),
                old(self).state(old(input).position(), Seq::empty()),
            ) {
                Ok(next) => {
                    &&& r == Ok::<(), Error>(())
                    &&& final(self).tape() == next.tape
                    &&& final(self).pc() == next.pc
                    &&& final(input).position() == next.consumed
                    &&& final(output)@ == old(output)@ + as_chars(next.output)
                },
                Err(e) => {
                    &&& r == Err::<(), Error>(e)
                    &&& final(self).tape() == old(self).tape()
                    &&& final(self).pc() == old(self).pc()
                    &&& final(output)@ == old(output)@
                },
            },
    {
        let ghost p = self.program@;
        let ghost at = self.pc@ as int;
        proof {
            assert(as_chars(Seq::<u8>::empty()) =~= Seq::<char>::empty());
            assert(old(output)@ + Seq::<char>::empty() =~= old(output)@);
        }
        match self.program.read(self.pc) {
            Command::IncCursor(n) => {
                self.tape.inc_cursor(n);
            },
            Command::DecCursor(n) => {
                self.tape.dec_cursor(n);
            },
            Command::IncData(n) => {
                match self.tape.inc_data(n) {
                    Ok(()) => {},
                    Err(e) => {
                        return Err(e);
                    },
                }
            },
            Command::DecData(n) => {
                match self.tape.dec_data(n) {
                    Ok(()) => {},
                    Err(e) => {
                        return Err(e);
                    },
                }
            },
            Command::PutChar => {
                match self.tape.read() {
                    Ok(value) => {
                        push_char(output, value as char);
                        proof {
                            assert(as_chars(Seq::<u8>::empty().push(value)) =~= seq![value as char]);
                            assert(old(output)@.push(value as char) =~= old(output)@ + seq![
                                value as char,
                            ]);
                        }
                    },
                    Err(e) => {
                        return Err(e);
                    },
                }
            },
            Command::GetChar => {
                if self.tape.len() == 0 {
                    return Err(Error::OutOfBounds);
                }
                let byte = input.read();
                let _ = self.tape.write(byte);
            },
            Command::LoopStart => {
                match self.tape.read() {
                    Ok(value) => {
                        if value == 0 {
                            proof {
                                assert(self.jump_table@.contains_key(self.pc@));
                                lemma_partner_of_pair(p, at, self.jump_table@[self.pc@] as int);
                            }
                            let target = self.jump_table.find(self.pc);
                            assert(target@ < p.len());
                            self.set_pc(target);
                        }
                    },
                    Err(e) => {
                        return Err(e);
                    },
                }
            },
            Command::LoopEnd => {
                match self.tape.read() {
                    Ok(value) => {
                        if value != 0 {
                            proof {
                                assert(self.jump_table@.contains_key(self.pc@));
                                lemma_partner_of_pair(p, self.jump_table@[self.pc@] as int, at);
                            }
                            let target = self.jump_table.find(self.pc);
                            assert(target@ < p.len());
                            self.set_pc(target);
                        }
                    },
                    Err(e) => {
                        return Err(e);
                    },
                }
            },
            Command::ClearData => {
                match self.tape.write(0) {
                    Ok(()) => {},
                    Err(e) => {
                        return Err(e);
                    },
                }
            },
            Command::SearchZeroInc(n) => {
                match self.tape.search_zero_inc(n) {
                    Ok(()) => {},
                    Err(e) => {
                        return Err(e);
                    },
                }
            },
            Command::SearchZeroDec(n) => {
                match self.tape.search_zero_dec(n) {
                    Ok(()) => {},
                    Err(e) => {
                        return Err(e);
                    },
                }
            },
            Command::MoveDataInc(n) => {
                match self.tape.move_data_inc(n) {
                    Ok(()) => {},
                    Err(e) => {
                        return Err(e);
                    },
                }
            },
            Command::MoveDataDec(n) => {
                match self.tape.move_data_dec(n) {
                    Ok(()) => {},
                    Err(e) => {
                        return Err(e);
                    },
                }
            },
        }
        assert(self.pc@ < self.program.0.len());
        self.inc_pc();
        Ok(())
    }

    /// Runs the program from the counter on until the counter leaves it,
    /// reading from `input`, and returns what was put out. At most `budget`
    /// commands are executed: a program that has not ended by then is a
    /// `Timeout`. A fault leaves the machine in the state in which it arose.
    pub fn execute(&mut self, input: Input, budget: u64) -> (r: Result<String, Error>)
        requires
            old(self).wf(),
        ensures
            final(self).wf(),
            final(self).program() == old(self).program(),
            ({
                let outcome = run(
                    old(self).program(),
                    input.bytes(),
                    old(self).state(input.position(), Seq::empty()),
                    budget as nat,
                );
                &&& final(self).tape() == outcome.state.tape
                &&& final(self).pc() == outcome.state.pc
                &&& match r {
                    Ok(text) => outcome.error is None && text@ == as_chars(outcome.state.output),
                    Err(e) => outcome.error == Some(e),
                }
            }),
    {
        let mut source = input;
        let mut output = String::new();
        let mut left = budget;
        let ghost p = self.program();
        let ghost bytes = input.bytes();
        let ghost goal = run(p, bytes, self.state(input.position(), Seq::empty()), budget as nat);
        let ghost mut put: Seq<u8> = Seq::empty();
        proof {
            assert(as_chars(put) =~= Seq::<char>::empty());
        }
        while !self.is_end_of_program()
            invariant
                self.wf(),
                self.program() == p,
                p == old(self).program(),
                bytes == input.bytes(),
                goal == run(
                    old(self).program(),
                    input.bytes(),
                    old(self).state(input.position(), Seq::empty()),
                    budget as nat,
                ),
                source.bytes() == bytes,
                output@ == as_chars(put),
                run(p, bytes, self.state(source.position(), put), left as nat) == goal,
            decreases left,
        {
            if left == 0 {
                return Err(Error::Timeout);
            }
            let ghost bare = self.state(source.position(), Seq::empty());
            proof {
                lemma_step_appends(p, bytes, bare, put);
            }
            match self.step(&mut source, &mut output) {
                Ok(()) => {
                    proof {
                        let next = step(p, bytes, bare)->Ok_0;
                        assert(as_chars(put + next.output) =~= as_chars(put) + as_chars(
                            next.output,
                        ));
                        put = put + next.output;
                    }
                },
                Err(e) => {
                    return Err(e);
                },
            }
            left -= 1;
        }
        Ok(output)
    }
}

/// A step does not look at the output so far: it appends to it.
pub proof fn lemma_step_appends(p: Seq<Command>, input: Seq<u8>, s: State, put: Seq<u8>)
    requires
        s.output == Seq::<u8>::empty(),
    ensures
        ({
            let with_output = State { pc: s.pc, tape: s.tape, consumed: s.consumed, output: put };
            match step(p, input, s) {
                Ok(next) => step(p, input, with_output) == Ok::<State, Error>(
                    State {
                        pc: next.pc,
                        tape: next.tape,
                        consumed: next.consumed,
                        output: put + next.output,
                    },
                ),
                Err(e) => step(p, input, with_output) == Err::<State, Error>(e),
            }
        }),
{
    let with_output = State { pc: s.pc, tape: s.tape, consumed: s.consumed, output: put };
    match step(p, input, s) {
        Ok(next) => {
            let after = step(p, input, with_output)->Ok_0;
            assert(after.output =~= put + next.output);
        },
        Err(e) => {},
    }
}

} // verus!
