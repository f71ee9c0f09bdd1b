use std::collections::HashMap;
use vstd::prelude::*;
use crate::brackets::{
    balanced, bracket_error, depth, has_unmatched_end, is_pair, lemma_pair_unique,
    lemma_partner_of_pair, partner,
};
use crate::command::Command;
use crate::error::Error;
use crate::program::{Program, ProgramCounter};

verus! {

/// Whether the command is one of the two brackets.
pub open spec fn is_bracket(c: Command) -> bool {
    c == Command::LoopStart || c == Command::LoopEnd
}

/// For each bracket of a program, the index of the bracket it belongs to.
#[derive(Debug)]
pub struct JumpTable(HashMap<usize, usize>);

impl View for JumpTable {
    type V = Map<usize, usize>;

    closed spec fn view(&self) -> Map<usize, usize> {
        self.0@
    }
}

impl JumpTable {
    /// The table holds exactly the brackets of `p`, each with the bracket it
    /// is paired with.
    pub open spec fn pairs_brackets_of(&self, p: Seq<Command>) -> bool {
        &&& forall|i: usize| #[trigger]
            self@.contains_key(i) <==> (i < p.len() && is_bracket(p[i as int]))
        &&& forall|i: usize| #[trigger]
            self@.contains_key(i) && p[i as int] == Command::LoopStart ==> is_pair(
                p,
                i as int,
                self@[i] as int,
            )
        &&& forall|i: usize| #[trigger]
            self@.contains_key(i) && p[i as int] == Command::LoopEnd ==> is_pair(
                p,
                self@[i] as int,
                i as int,
            )
    }

    /// A table without entries.
    pub fn new() -> (table: JumpTable)
        ensures
            table@ == Map::<usize, usize>::empty(),
    {
        JumpTable(HashMap::new())
    }

    /// Pairs the brackets of `program`, or says which bracket has no partner.
    ///
    /// A loop end without a loop start in front of it is reported first;
    /// a loop start that is never closed is reported when no such end exists.
    pub fn build(program: &Program) -> (r: Result<JumpTable, Error>)
        ensures
            match r {
                Ok(table) => balanced(program@) && table.pairs_brackets_of(program@),
                Err(e) => bracket_error(program@) == Some(e),
            },
    {
        let mut jump_table = JumpTable::new();
        let mut stack: Vec<usize> = Vec::new();
        let len = program.0.len();
        let ghost p = program@;
        let mut pc: usize = 0;
        while pc < len
            invariant
                p == program@,
                len == p.len(),
                pc <= len,
                forall|k: int| 0 <= k <= pc ==> #[trigger] depth(p, k) >= 0,
                stack@.len() == depth(p, pc as int),
                forall|t: int|
                    0 <= t < stack@.len() ==> {
                        &&& (#[trigger] stack@[t]) < pc
                        &&& p[stack@[t] as int] == Command::LoopStart
                        &&& depth(p, stack@[t] as int) == t
                    },
                forall|t: int, m: int|
                    0 <= t < stack@.len() && stack@[t] < m <= pc ==> #[trigger] depth(p, m)
                        > #[trigger] depth(p, stack@[t] as int),
                forall|i: usize| #[trigger]
                    jump_table@.contains_key(i) <==> (i < pc && is_bracket(p[i as int])
                        && !stack@.contains(i)),
                forall|i: usize| #[trigger]
                    jump_table@.contains_key(i) && p[i as int] == Command::LoopStart ==> is_pair(
                        p,
                        i as int,
                        jump_table@[i] as int,
                    ),
                forall|i: usize| #[trigger]
                    jump_table@.contains_key(i) && p[i as int] == Command::LoopEnd ==> is_pair(
                        p,
                        jump_table@[i] as int,
                        i as int,
                    ),
            decreases len - pc,
        {
            let ghost old_stack = stack@;
            let ghost old_table = jump_table@;
            match program.0[pc] {
                Command::LoopStart => {
                    stack.push(pc);
                    proof {
                        assert forall|i: usize| old_stack.contains(i) implies stack@.contains(
                            i,
                        ) by {
                            let t = choose|t: int| 0 <= t < old_stack.len() && old_stack[t] == i;
                            assert(stack@[t] == i);
                        }
                        assert(stack@[stack@.len() - 1] == pc);
                    }
                },
                Command::LoopEnd => {
                    match stack.pop() {
                        Some(start) => {
                            jump_table.0.insert(start, pc);
                            jump_table.0.insert(pc, start);
                            proof {
                                let t = old_stack.len() - 1;
                                assert(old_stack[t] == start);
                                assert(is_pair(p, start as int, pc as int));
                                assert forall|i: usize|
                                    i != start && old_stack.contains(i) implies stack@.contains(
                                    i,
                                ) by {
                                    let u = choose|u: int|
                                        0 <= u < old_stack.len() && old_stack[u] == i;
                                    assert(stack@[u] == i);
                                }
                                assert(!stack@.contains(start)) by {
                                    if stack@.contains(start) {
                                        let u = choose|u: int|
                                            0 <= u < stack@.len() && stack@[u] == start;
                                        assert(old_stack[u] == start);
                                    }
                                }
                            }
                        },
                        None => {
                            proof {
                                assert(depth(p, pc + 1) < 0);
                                assert(has_unmatched_end(p));
                            }
                            return Err(Error::UnmatchedLoopEnd);
                        },
                    }
                },
                _ => {},
            }
            pc += 1;
        }
        if stack.len() > 0 {
            return Err(Error::UnmatchedLoopStart);
        }
        proof {
            assert forall|i: usize| !(#[trigger] stack@.contains(i)) by {}
        }
        Ok(jump_table)
    }

    /// The index of the bracket paired with the bracket at `pc`.
    pub fn find(&self, pc: ProgramCounter) -> (partner: ProgramCounter)
        requires
            self@.contains_key(pc@),
        ensures
            partner@ == self@[pc@],
    {
        let key = pc.index();
        match self.0.get(&key) {
            Some(target) => ProgramCounter::from(*target),
            None => pc,
        }
    }
}

/// In a table that pairs the brackets of a program, each bracket leads to
/// its partner and the partner leads back: a loop start to the loop end
/// after it, a loop end to the loop start before it.
pub proof fn lemma_table_round_trip(table: JumpTable, p: Seq<Command>, i: usize)
    requires
        table.pairs_brackets_of(p),
        table@.contains_key(i),
    ensures
        table@.contains_key(table@[i]),
        table@[table@[i]] == i,
        table@[i] as int == partner(p, i as int),
        p[i as int] == Command::LoopStart ==> p[table@[i] as int] == Command::LoopEnd && i
            < table@[i],
        p[i as int] == Command::LoopEnd ==> p[table@[i] as int] == Command::LoopStart && table@[i]
            < i,
{
    let j = table@[i];
    if p[i as int] == Command::LoopStart {
        assert(is_pair(p, i as int, j as int));
        assert(table@.contains_key(j));
        assert(is_pair(p, table@[j] as int, j as int));
        lemma_pair_unique(p, i as int, j as int, table@[j] as int, j as int);
        lemma_partner_of_pair(p, i as int, j as int);
    } else {
        assert(is_pair(p, j as int, i as int));
        assert(table@.contains_key(j));
        assert(is_pair(p, j as int, table@[j] as int));
        lemma_pair_unique(p, j as int, i as int, j as int, table@[j] as int);
        lemma_partner_of_pair(p, j as int, i as int);
    }
}

} // verus!
