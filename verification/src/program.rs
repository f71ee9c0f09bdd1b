use vstd::prelude::*;
use crate::command::Command;
use crate::error::Error;
use crate::parser::{
    fold_runs, folded, is_foldable, is_symbol, lemma_fold_run, lemma_symbols_at_end,
    lemma_symbols_step, parse, repeat, single, symbols,
};
use crate::text::chars_of;
use crate::optimizer::{
    command_at, emitted_at, idiom_at, lemma_span_bounds, optimize, optimize_from, rule_clear,
    rule_move_backward, rule_move_forward, rule_search_backward, rule_search_forward, span_at,
    Rewrite,
};

verus! {

/// An index into a program; the program's length stands for "finished".
#[derive(Debug, Clone, Copy, PartialEq, Eq, PartialOrd, Ord, Hash, Structural)]
pub struct ProgramCounter(usize);

impl View for ProgramCounter {
    type V = usize;

    closed spec fn view(&self) -> usize {
        self.0
    }
}

impl ProgramCounter {
    /// Steps to the next command.
    pub fn inc(&mut self)
        requires
            old(self)@ < usize::MAX,
        ensures
            final(self)@ == old(self)@ + 1,
    {
        self.0 += 1;
    }

    /// The index as a number.
    pub fn index(&self) -> (i: usize)
        ensures
            i == self@,
    {
        self.0
    }
}

impl vstd::std_specs::convert::FromSpecImpl<usize> for ProgramCounter {
    open spec fn obeys_from_spec() -> bool {
        true
    }

    closed spec fn from_spec(value: usize) -> ProgramCounter {
        ProgramCounter(value)
    }
}

impl From<usize> for ProgramCounter {
    fn from(value: usize) -> (pc: ProgramCounter)
        ensures
            pc@ == value,
    {
        ProgramCounter(value)
    }
}

/// Whether `c` is one of the eight meaningful characters.
fn symbol(c: char) -> (b: bool)
    ensures
        b == is_symbol(c),
{
    c == '>' || c == '<' || c == '+' || c == '-' || c == '.' || c == ',' || c == '[' || c == ']'
}

/// A sequence of commands.
#[derive(Debug)]
pub struct Program(pub Vec<Command>);

impl View for Program {
    type V = Seq<Command>;

    open spec fn view(&self) -> Seq<Command> {
        self.0@
    }
}

impl Program {
    /// The command at `pc`.
    pub fn read(&self, pc: ProgramCounter) -> (command: Command)
        requires
            pc@ < self@.len(),
        ensures
            command == self@[pc@ as int],
    {
        self.0[pc.0]
    }

    /// Parses source text: every character but the eight symbols is skipped,
    /// consecutive repeats of a motion or arithmetic symbol fold into one
    /// command (commentary between them does not end the run), and every
    /// other symbol gives one command. No text is refused.
    pub fn from_str(program_str: &str) -> (r: Result<Program, Error>)
        ensures
            r is Ok,
            r->Ok_0@ == parse(program_str@),
    {
        let chars = chars_of(program_str);
        let len = chars.len();
        let mut program: Vec<Command> = Vec::new();
        let mut idx: usize = 0;
        proof {
            assert(chars@.skip(0) =~= chars@);
        }
        while idx < len
            invariant
                len == chars@.len(),
                idx <= len,
                program@ + fold_runs(symbols(chars@.skip(idx as int))) == parse(chars@),
            decreases len - idx,
        {
            let current = chars[idx];
            let ghost start: int = idx as int;
            let ghost before = program@;
            proof {
                lemma_symbols_step(chars@, start);
            }
            if current == '>' || current == '<' || current == '+' || current == '-' {
                idx += 1;
                let mut n_repeat: usize = 1;
                proof {
                    assert(repeat(current, 1) =~= seq![current]);
                }
                while idx < len && (chars[idx] == current || !symbol(chars[idx]))
                    invariant
                        len == chars@.len(),
                        0 <= start < idx <= len,
                        1 <= n_repeat <= idx - start,
                        is_foldable(current),
                        symbols(chars@.skip(start)) == repeat(current, n_repeat as nat) + symbols(
                            chars@.skip(idx as int),
                        ),
                    decreases len - idx,
                {
                    proof {
                        lemma_symbols_step(chars@, idx as int);
                    }
                    if chars[idx] == current {
                        proof {
                            assert(repeat(current, n_repeat as nat) + (seq![current] + symbols(
                                chars@.skip(idx + 1),
                            )) =~= repeat(current, (n_repeat + 1) as nat) + symbols(
                                chars@.skip(idx + 1),
                            ));
                        }
                        n_repeat += 1;
                    }
                    idx += 1;
                }
                proof {
                    let rest = symbols(chars@.skip(idx as int));
                    if idx < len {
                        lemma_symbols_step(chars@, idx as int);
                        assert(rest[0] == chars@[idx as int]);
                    } else {
                        lemma_symbols_at_end(chars@);
                    }
                    lemma_fold_run(current, n_repeat as nat, rest);
                }
                let command = if current == '>' {
                    Command::IncCursor(n_repeat)
                } else if current == '<' {
                    Command::DecCursor(n_repeat)
                } else if current == '+' {
                    Command::IncData((n_repeat % 256) as u8)
                } else {
                    Command::DecData((n_repeat % 256) as u8)
                };
                assert(command == folded(current, n_repeat as nat));
                program.push(command);
                assert(program@ + fold_runs(symbols(chars@.skip(idx as int))) =~= before + (seq![
                    command,
                ] + fold_runs(symbols(chars@.skip(idx as int)))));
            } else if symbol(current) {
                let command = if current == '.' {
                    Command::PutChar
                } else if current == ',' {
                    Command::GetChar
                } else if current == '[' {
                    Command::LoopStart
                } else {
                    Command::LoopEnd
                };
                idx += 1;
                proof {
                    let t = symbols(chars@.skip(start));
                    assert(t.drop_first() =~= symbols(chars@.skip(idx as int)));
                    assert(t[0] == current);
                    assert(command == single(current));
                }
                program.push(command);
                assert(program@ + fold_runs(symbols(chars@.skip(idx as int))) =~= before + (seq![
                    command,
                ] + fold_runs(symbols(chars@.skip(idx as int)))));
            } else {
                idx += 1;
            }
        }
        proof {
            lemma_symbols_at_end(chars@);
            assert(program@ + Seq::<Command>::empty() =~= program@);
        }
        Ok(Program(program))
    }

    /// The command `offset` places after `i`, if the program reaches that far.
    fn peek(&self, i: usize, offset: usize) -> (command: Option<Command>)
        requires
            i < self@.len(),
        ensures
            command == command_at(self@, i + offset),
    {
        if offset < self.0.len() - i {
            Some(self.0[i + offset])
        } else {
            None
        }
    }

    /// The rule for `[+]` and `[-]`, tried at `i`.
    fn match_clear(&self, i: usize) -> (r: Option<Rewrite>)
        requires
            i < self@.len(),
        ensures
            r == rule_clear(self@, i as int),
    {
        match (self.peek(i, 0), self.peek(i, 1), self.peek(i, 2)) {
            (Some(Command::LoopStart), Some(Command::IncData(n)), Some(Command::LoopEnd)) => if n
                == 1 {
                Some(Rewrite { composite: Command::ClearData, span: 3 })
            } else {
                None
            },
            (Some(Command::LoopStart), Some(Command::DecData(n)), Some(Command::LoopEnd)) => if n
                == 1 {
                Some(Rewrite { composite: Command::ClearData, span: 3 })
            } else {
                None
            },
            _ => None,
        }
    }

    /// The rule for `[>..>]`, tried at `i`.
    fn match_search_forward(&self, i: usize) -> (r: Option<Rewrite>)
        requires
            i < self@.len(),
        ensures
            r == rule_search_forward(self@, i as int),
    {
        match (self.peek(i, 0), self.peek(i, 1), self.peek(i, 2)) {
            (Some(Command::LoopStart), Some(Command::IncCursor(n)), Some(Command::LoopEnd)) => Some(
                Rewrite { composite: Command::SearchZeroInc(n), span: 3 },
            ),
            _ => None,
        }
    }

    /// The rule for `[<..<]`, tried at `i`.
    fn match_search_backward(&self, i: usize) -> (r: Option<Rewrite>)
        requires
            i < self@.len(),
        ensures
            r == rule_search_backward(self@, i as int),
    {
        match (self.peek(i, 0), self.peek(i, 1), self.peek(i, 2)) {
            (Some(Command::LoopStart), Some(Command::DecCursor(n)), Some(Command::LoopEnd)) => Some(
                Rewrite { composite: Command::SearchZeroDec(n), span: 3 },
            ),
            _ => None,
        }
    }

    /// The rule for `[->..>+<..<]`, tried at `i`.
    fn match_move_forward(&self, i: usize) -> (r: Option<Rewrite>)
        requires
            i < self@.len(),
        ensures
            r == rule_move_forward(self@, i as int),
    {
        match (
            self.peek(i, 0),
            self.peek(i, 1),
            self.peek(i, 2),
            self.peek(i, 3),
            self.peek(i, 4),
            self.peek(i, 5),
        ) {
            (
                Some(Command::LoopStart),
                Some(Command::DecData(d)),
                Some(Command::IncCursor(n1)),
                Some(Command::IncData(e)),
                Some(Command::DecCursor(n2)),
                Some(Command::LoopEnd),
            ) => if d == 1 && e == 1 && n1 == n2 {
                Some(Rewrite { composite: Command::MoveDataInc(n1), span: 6 })
            } else {
                None
            },
            _ => None,
        }
    }

    /// The rule for `[-<..<+>..>]`, tried at `i`.
    fn match_move_backward(&self, i: usize) -> (r: Option<Rewrite>)
        requires
            i < self@.len(),
        ensures
            r == rule_move_backward(self@, i as int),
    {
        match (
            self.peek(i, 0),
            self.peek(i, 1),
            self.peek(i, 2),
            self.peek(i, 3),
            self.peek(i, 4),
            self.peek(i, 5),
        ) {
            (
                Some(Command::LoopStart),
                Some(Command::DecData(d)),
                Some(Command::DecCursor(n1)),
                Some(Command::IncData(e)),
                Some(Command::IncCursor(n2)),
                Some(Command::LoopEnd),
            ) => if d == 1 && e == 1 && n1 == n2 {
                Some(Rewrite { composite: Command::MoveDataDec(n1), span: 6 })
            } else {
                None
            },
            _ => None,
        }
    }

    /// The idiom that starts at `i`, if one does: the rules are tried in
    /// their order of priority and the first that applies is taken.
    pub fn find_idiom(&self, i: usize) -> (r: Option<Rewrite>)
        requires
            i < self@.len(),
        ensures
            r == idiom_at(self@, i as int),
    {
        let clear = self.match_clear(i);
        if clear.is_some() {
            return clear;
        }
        let search_forward = self.match_search_forward(i);
        if search_forward.is_some() {
            return search_forward;
        }
        let search_backward = self.match_search_backward(i);
        if search_backward.is_some() {
            return search_backward;
        }
        let move_forward = self.match_move_forward(i);
        if move_forward.is_some() {
            return move_forward;
        }
        self.match_move_backward(i)
    }

    /// Rewrites the program in one pass from left to right: each loop idiom
    /// becomes its composite command, every other command is kept.
    pub fn optimize_loop(self) -> (optimized: Program)
        ensures
            optimized@ == optimize(self@),
    {
        let mut new_program: Vec<Command> = Vec::new();
        let mut idx: usize = 0;
        while idx < self.0.len()
            invariant
                idx <= self@.len(),
                new_program@ + optimize_from(self@, idx as int) == optimize(self@),
            decreases self@.len() - idx,
        {
            proof {
                lemma_span_bounds(self@, idx as int);
            }
            let ghost before = new_program@;
            let ghost at: int = idx as int;
            match self.find_idiom(idx) {
                Some(rewrite) => {
                    new_program.push(rewrite.composite);
                    idx += rewrite.span;
                },
                None => {
                    new_program.push(self.0[idx]);
                    idx += 1;
                },
            }
            assert(new_program@ + optimize_from(self@, idx as int) =~= before + (seq![
                emitted_at(self@, at),
            ] + optimize_from(self@, at + span_at(self@, at))));
        }
        Program(new_program)
    }
}

} // verus!
