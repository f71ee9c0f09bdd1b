use vstd::prelude::*;
use crate::command::Command;

verus! {

/// A loop idiom found in a program: the composite that replaces it and the
/// number of commands it spans.
#[derive(Debug, Clone, Copy, PartialEq, Eq, Structural)]
pub struct Rewrite {
    pub composite: Command,
    pub span: usize,
}

/// The command at `i`, if there is one.
pub open spec fn command_at(p: Seq<Command>, i: int) -> Option<Command> {
    if 0 <= i < p.len() {
        Some(p[i])
    } else {
        None
    }
}

/// `[+]` or `[-]`: the loop that clears the current cell.
pub open spec fn rule_clear(p: Seq<Command>, i: int) -> Option<Rewrite> {
    match (command_at(p, i), command_at(p, i + 1), command_at(p, i + 2)) {
        (Some(Command::LoopStart), Some(Command::IncData(n)), Some(Command::LoopEnd)) => if n
            == 1 {
            Some(Rewrite { composite: Command::ClearData, span: 3 })
        } else {
            None
        },
        (Some(Command::LoopStart), Some(Command::DecData(n)), Some(Command::LoopEnd)) => if n
            == 1 {
            Some(Rewrite { composite: Command::ClearData, span: 3 })
        } else {
            None
        },
        _ => None,
    }
}

/// `[>..>]`: the loop that walks forward to a zero cell.
pub open spec fn rule_search_forward(p: Seq<Command>, i: int) -> Option<Rewrite> {
    match (command_at(p, i), command_at(p, i + 1), command_at(p, i + 2)) {
        (Some(Command::LoopStart), Some(Command::IncCursor(n)), Some(Command::LoopEnd)) => Some(
            Rewrite { composite: Command::SearchZeroInc(n), span: 3 },
        ),
        _ => None,
    }
}

/// `[<..<]`: the loop that walks back to a zero cell.
pub open spec fn rule_search_backward(p: Seq<Command>, i: int) -> Option<Rewrite> {
    match (command_at(p, i), command_at(p, i + 1), command_at(p, i + 2)) {
        (Some(Command::LoopStart), Some(Command::DecCursor(n)), Some(Command::LoopEnd)) => Some(
            Rewrite { composite: Command::SearchZeroDec(n), span: 3 },
        ),
        _ => None,
    }
}

/// `[->..>+<..<]` with equal strides: the loop that moves the current cell's
/// value to a cell ahead.
pub open spec fn rule_move_forward(p: Seq<Command>, i: int) -> Option<Rewrite> {
    match (
        command_at(p, i),
        command_at(p, i + 1),
        command_at(p, i + 2),
        command_at(p, i + 3),
        command_at(p, i + 4),
        command_at(p, i + 5),
    ) {
        (
            Some(Command::LoopStart),
            Some(Command::DecData(d)),
            Some(Command::IncCursor(n1)),
            Some(Command::IncData(e)),
            Some(Command::DecCursor(n2)),
            Some(Command::LoopEnd),
        ) => if d == 1 && e == 1 && n1 == n2 {
            Some(Rewrite { composite: Command::MoveDataInc(n1), span: 6 })
        } else {
            None
        },
        _ => None,
    }
}

/// `[-<..<+>..>]` with equal strides: the loop that moves the current cell's
/// value to a cell behind.
pub open spec fn rule_move_backward(p: Seq<Command>, i: int) -> Option<Rewrite> {
    match (
        command_at(p, i),
        command_at(p, i + 1),
        command_at(p, i + 2),
        command_at(p, i + 3),
        command_at(p, i + 4),
        command_at(p, i + 5),
    ) {
        (
            Some(Command::LoopStart),
            Some(Command::DecData(d)),
            Some(Command::DecCursor(n1)),
            Some(Command::IncData(e)),
            Some(Command::IncCursor(n2)),
            Some(Command::LoopEnd),
        ) => if d == 1 && e == 1 && n1 == n2 {
            Some(Rewrite { composite: Command::MoveDataDec(n1), span: 6 })
        } else {
            None
        },
        _ => None,
    }
}

/// The first rule, in order of priority, that applies at `i`.
pub open spec fn idiom_at(p: Seq<Command>, i: int) -> Option<Rewrite> {
    if rule_clear(p, i) is Some {
        rule_clear(p, i)
    } else if rule_search_forward(p, i) is Some {
        rule_search_forward(p, i)
    } else if rule_search_backward(p, i) is Some {
        rule_search_backward(p, i)
    } else if rule_move_forward(p, i) is Some {
        rule_move_forward(p, i)
    } else {
        rule_move_backward(p, i)
    }
}

/// Number of commands that one pass of the optimizer takes in at `i`.
pub open spec fn span_at(p: Seq<Command>, i: int) -> int {
    match idiom_at(p, i) {
        Some(rewrite) => rewrite.span as int,
        None => 1,
    }
}

/// The command that the optimizer puts out for what it takes in at `i`.
pub open spec fn emitted_at(p: Seq<Command>, i: int) -> Command {
    match idiom_at(p, i) {
        Some(rewrite) => rewrite.composite,
        None => p[i],
    }
}

/// The optimized form of the commands of `p` from `i` on.
pub open spec fn optimize_from(p: Seq<Command>, i: int) -> Seq<Command>
    decreases p.len() - i,
{
    if 0 <= i < p.len() {
        if span_at(p, i) >= 1 {
            seq![emitted_at(p, i)] + optimize_from(p, i + span_at(p, i))
        } else {
            Seq::empty()
        }
    } else {
        Seq::empty()
    }
}

/// The optimized form of `p`: one pass from left to right, each idiom
/// replaced by its composite, every other command kept.
pub open spec fn optimize(p: Seq<Command>) -> Seq<Command> {
    optimize_from(p, 0)
}

/// An idiom lies within the program and spans three or six commands.
pub proof fn lemma_span_bounds(p: Seq<Command>, i: int)
    requires
        0 <= i < p.len(),
    ensures
        1 <= span_at(p, i),
        i + span_at(p, i) <= p.len(),
        idiom_at(p, i) is Some ==> span_at(p, i) == 3 || span_at(p, i) == 6,
{
}

/// Without an idiom from `i` on, the optimizer puts out what it takes in.
proof fn lemma_optimize_from_without_idiom(p: Seq<Command>, i: int)
    requires
        0 <= i <= p.len(),
        forall|k: int| i <= k < p.len() ==> idiom_at(p, k) is None,
    ensures
        optimize_from(p, i) == p.skip(i),
    decreases p.len() - i,
{
    if i < p.len() {
        lemma_optimize_from_without_idiom(p, i + 1);
        assert(p.skip(i) =~= seq![p[i]] + p.skip(i + 1));
    } else {
        assert(p.skip(i) =~= Seq::<Command>::empty());
    }
}

/// Optimizing a program in which no idiom starts anywhere gives the same
/// program, command for command.
pub proof fn lemma_optimize_without_idiom(p: Seq<Command>)
    requires
        forall|i: int| 0 <= i < p.len() ==> idiom_at(p, i) is None,
    ensures
        optimize(p) == p,
{
    lemma_optimize_from_without_idiom(p, 0);
    assert(p.skip(0) =~= p);
}

} // verus!
