use vstd::prelude::*;
use crate::command::Command;
use crate::error::Error;

verus! {

/// What a command adds to the nesting depth.
pub open spec fn delta(c: Command) -> int {
    match c {
        Command::LoopStart => 1,
        Command::LoopEnd => -1,
        _ => 0,
    }
}

/// Nesting depth in front of the command at `k`: loop starts minus loop ends
/// among the first `k` commands.
pub open spec fn depth(p: Seq<Command>, k: int) -> int
    decreases k,
{
    if k <= 0 {
        0
    } else {
        depth(p, k - 1) + delta(p[k - 1])
    }
}

/// Some loop end has no loop start before it: the depth falls below zero.
pub open spec fn has_unmatched_end(p: Seq<Command>) -> bool {
    exists|k: int| 0 <= k <= p.len() && #[trigger] depth(p, k) < 0
}

/// Every loop start has its loop end and every loop end its loop start.
pub open spec fn balanced(p: Seq<Command>) -> bool {
    !has_unmatched_end(p) && depth(p, p.len() as int) == 0
}

/// The fault in the brackets of `p`, if there is one. A loop end without a
/// start is reported before a loop start without an end.
pub open spec fn bracket_error(p: Seq<Command>) -> Option<Error> {
    if has_unmatched_end(p) {
        Some(Error::UnmatchedLoopEnd)
    } else if depth(p, p.len() as int) > 0 {
        Some(Error::UnmatchedLoopStart)
    } else {
        None
    }
}

/// The loop start at `i` and the loop end at `j` belong together: the end
/// brings the depth back to what it was in front of the start, and nothing
/// between them does.
pub open spec fn is_pair(p: Seq<Command>, i: int, j: int) -> bool {
    &&& 0 <= i < j < p.len()
    &&& p[i] == Command::LoopStart
    &&& p[j] == Command::LoopEnd
    &&& depth(p, j + 1) == depth(p, i)
    &&& forall|m: int| i < m <= j ==> #[trigger] depth(p, m) > depth(p, i)
}

/// The index of the bracket that belongs to the bracket at `i`.
pub open spec fn partner(p: Seq<Command>, i: int) -> int {
    if p[i] == Command::LoopStart {
        choose|j: int| is_pair(p, i, j)
    } else {
        choose|j: int| is_pair(p, j, i)
    }
}

/// A loop start has at most one loop end, and a loop end at most one start.
pub proof fn lemma_pair_unique(p: Seq<Command>, i: int, j: int, i2: int, j2: int)
    requires
        is_pair(p, i, j),
        is_pair(p, i2, j2),
    ensures
        i == i2 <==> j == j2,
{
    if i == i2 && j != j2 {
        if j < j2 {
            assert(depth(p, j + 1) > depth(p, i2));
        } else {
            assert(depth(p, j2 + 1) > depth(p, i));
        }
    }
    if j == j2 && i != i2 {
        if i < i2 {
            assert(depth(p, i2) > depth(p, i));
        } else {
            assert(depth(p, i) > depth(p, i2));
        }
    }
}

/// Each bracket of a pair is the partner of the other.
pub proof fn lemma_partner_of_pair(p: Seq<Command>, i: int, j: int)
    requires
        is_pair(p, i, j),
    ensures
        partner(p, i) == j,
        partner(p, j) == i,
{
    let j2 = choose|j2: int| is_pair(p, i, j2);
    lemma_pair_unique(p, i, j, i, j2);
    let i2 = choose|i2: int| is_pair(p, i2, j);
    lemma_pair_unique(p, i, j, i2, j);
}

/// In a balanced program every loop start has a loop end: the search from
/// `j` on finds it.
proof fn lemma_find_end(p: Seq<Command>, i: int, j: int) -> (e: int)
    requires
        balanced(p),
        0 <= i < j <= p.len(),
        p[i] == Command::LoopStart,
        forall|m: int| i < m <= j ==> #[trigger] depth(p, m) > depth(p, i),
    ensures
        is_pair(p, i, e),
    decreases p.len() - j,
{
    assert(depth(p, i) >= 0);
    assert(depth(p, j) > depth(p, i));
    if j == p.len() {
        assert(false);
        arbitrary()
    } else if depth(p, j + 1) == depth(p, i) {
        j
    } else {
        lemma_find_end(p, i, j + 1)
    }
}

/// In a balanced program every loop end has a loop start: the search from
/// `j` back finds it.
proof fn lemma_find_start(p: Seq<Command>, e: int, j: int) -> (i: int)
    requires
        balanced(p),
        0 <= j < e < p.len(),
        p[e] == Command::LoopEnd,
        forall|m: int| j < m <= e ==> #[trigger] depth(p, m) > depth(p, e + 1),
    ensures
        is_pair(p, i, e),
    decreases j,
{
    assert(depth(p, e + 1) >= 0);
    assert(depth(p, j + 1) > depth(p, e + 1));
    assert(depth(p, j + 1) == depth(p, j) + delta(p[j]));
    if depth(p, j) == depth(p, e + 1) {
        j
    } else {
        assert(depth(p, 0) == 0);
        lemma_find_start(p, e, j - 1)
    }
}

/// In a balanced program every loop start has its loop end.
pub proof fn lemma_start_has_partner(p: Seq<Command>, i: int)
    requires
        balanced(p),
        0 <= i < p.len(),
        p[i] == Command::LoopStart,
    ensures
        is_pair(p, i, partner(p, i)),
{
    assert(depth(p, i + 1) == depth(p, i) + 1);
    let e = lemma_find_end(p, i, i + 1);
    lemma_partner_of_pair(p, i, e);
}

/// In a balanced program every loop end has its loop start.
pub proof fn lemma_end_has_partner(p: Seq<Command>, e: int)
    requires
        balanced(p),
        0 <= e < p.len(),
        p[e] == Command::LoopEnd,
    ensures
        is_pair(p, partner(p, e), e),
{
    assert(depth(p, e + 1) == depth(p, e) - 1);
    assert(depth(p, e + 1) >= 0);
    assert(depth(p, 0) == 0);
    assert(e > 0);
    let i = lemma_find_start(p, e, e - 1);
    lemma_partner_of_pair(p, i, e);
}

} // verus!
