use vstd::prelude::*;
use crate::brackets::{
    balanced, bracket_error, delta, depth, has_unmatched_end, is_pair, lemma_end_has_partner,
    lemma_pair_unique, lemma_partner_of_pair, lemma_start_has_partner, partner,
};
use crate::command::Command;
use crate::error::Error;
use crate::optimizer::{emitted_at, idiom_at, lemma_span_bounds, optimize, optimize_from, span_at};
use crate::semantics::{
    lemma_more_fuel, lemma_run_faults, lemma_run_in_bounds, lemma_run_unfolds,
    lemma_step_keeps_tape, moved, run, step, Outcome, State,
};
use crate::tape::{lemma_inc_cursor_wf, lemma_search_bound, lemma_there_and_back, TapeState};

verus! {

/// The indices of `p`, from `i` on, at which the optimizer's pass stands:
/// each is the one before plus what the pass took in there.
pub open spec fn stops_from(p: Seq<Command>, i: int) -> Seq<int>
    decreases p.len() - i,
{
    if 0 <= i < p.len() && span_at(p, i) >= 1 {
        seq![i] + stops_from(p, i + span_at(p, i))
    } else {
        Seq::empty()
    }
}

/// The index in `p` of what became the command at `j` of the optimized
/// program; the length of `p` for the optimized program's length.
pub open spec fn source_index(p: Seq<Command>, j: int) -> int {
    if 0 <= j < stops_from(p, 0).len() {
        stops_from(p, 0)[j]
    } else {
        p.len() as int
    }
}

/// The stop after the one at `t` of `stops`; the program's length after the last.
spec fn stop_after(p: Seq<Command>, stops: Seq<int>, t: int) -> int {
    if t + 1 < stops.len() {
        stops[t + 1]
    } else {
        p.len() as int
    }
}

proof fn lemma_stops_from(p: Seq<Command>, i: int)
    requires
        0 <= i <= p.len(),
    ensures
        stops_from(p, i).len() == optimize_from(p, i).len(),
        i < p.len() ==> stops_from(p, i).len() > 0 && stops_from(p, i)[0] == i,
        i == p.len() ==> stops_from(p, i).len() == 0,
        forall|t: int|
            0 <= t < stops_from(p, i).len() ==> {
                let at = #[trigger] stops_from(p, i)[t];
                &&& i <= at < p.len()
                &&& optimize_from(p, i)[t] == emitted_at(p, at)
                &&& stop_after(p, stops_from(p, i), t) == at + span_at(p, at)
            },
    decreases p.len() - i,
{
    if i < p.len() {
        lemma_span_bounds(p, i);
        let next = i + span_at(p, i);
        lemma_stops_from(p, next);
        let stops = stops_from(p, i);
        let rest = stops_from(p, next);
        assert(stops =~= seq![i] + rest);
        assert(optimize_from(p, i) =~= seq![emitted_at(p, i)] + optimize_from(p, next));
        assert forall|t: int| 0 <= t < stops.len() implies {
            let at = #[trigger] stops[t];
            &&& i <= at < p.len()
            &&& optimize_from(p, i)[t] == emitted_at(p, at)
            &&& stop_after(p, stops, t) == at + span_at(p, at)
        } by {
            if t > 0 {
                assert(stops[t] == rest[t - 1]);
                assert(stop_after(p, stops, t) == stop_after(p, rest, t - 1));
            }
        }
    }
}

/// How the optimized program lies over the program it was made from: the
/// command at `j` is what the pass put out for what it took in at the source
/// index of `j`, and the source index of `j + 1` is where the pass went on.
pub proof fn lemma_pass(p: Seq<Command>)
    ensures
        source_index(p, 0) == 0,
        source_index(p, optimize(p).len() as int) == p.len(),
        forall|j: int|
            0 <= j < optimize(p).len() ==> {
                let at = #[trigger] source_index(p, j);
                &&& 0 <= at < p.len()
                &&& optimize(p)[j] == emitted_at(p, at)
                &&& 1 <= span_at(p, at)
                &&& source_index(p, j + 1) == at + span_at(p, at)
            },
{
    lemma_stops_from(p, 0);
    let stops = stops_from(p, 0);
    assert forall|j: int| 0 <= j < optimize(p).len() implies {
        let at = #[trigger] source_index(p, j);
        &&& 0 <= at < p.len()
        &&& optimize(p)[j] == emitted_at(p, at)
        &&& 1 <= span_at(p, at)
        &&& source_index(p, j + 1) == at + span_at(p, at)
    } by {
        let at = stops[j];
        lemma_span_bounds(p, at);
        assert(stop_after(p, stops, j) == at + span_at(p, at));
    }
}

/// Source indices grow with the indices of the optimized program, and none
/// lies inside what the pass took in at an earlier one.
pub proof fn lemma_source_index_grows(p: Seq<Command>, j: int, k: int)
    requires
        0 <= j < k <= optimize(p).len(),
    ensures
        source_index(p, j) + span_at(p, source_index(p, j)) <= source_index(p, k),
    decreases k - j,
{
    lemma_pass(p);
    if j + 1 < k {
        lemma_source_index_grows(p, j + 1, k);
    }
}

/// Every index of `p` lies in what the pass took in at exactly one stop.
pub proof fn lemma_covering_stop(p: Seq<Command>, e: int, j: int) -> (found: int)
    requires
        0 <= j < optimize(p).len(),
        source_index(p, j) <= e < p.len(),
    ensures
        j <= found < optimize(p).len(),
        source_index(p, found) <= e < source_index(p, found + 1),
    decreases optimize(p).len() - j,
{
    lemma_pass(p);
    if e < source_index(p, j + 1) {
        j
    } else {
        lemma_covering_stop(p, e, j + 1)
    }
}

/// What an idiom looks like to the depth: it opens one level at its first
/// command, stays there, and closes it with its last.
pub proof fn lemma_idiom_depth(p: Seq<Command>, i: int)
    requires
        idiom_at(p, i) is Some,
    ensures
        0 <= i,
        i + span_at(p, i) <= p.len(),
        p[i] == Command::LoopStart,
        p[i + span_at(p, i) - 1] == Command::LoopEnd,
        forall|m: int| i < m < i + span_at(p, i) - 1 ==> delta(#[trigger] p[m]) == 0,
        forall|m: int| i < m < i + span_at(p, i) ==> #[trigger] depth(p, m) == depth(p, i) + 1,
        depth(p, i + span_at(p, i)) == depth(p, i),
        is_pair(p, i, i + span_at(p, i) - 1),
        delta(emitted_at(p, i)) == 0,
{
    let d = depth(p, i);
    assert(depth(p, i + 1) == d + 1);
    assert(depth(p, i + 2) == d + 1);
    if span_at(p, i) == 3 {
        assert(depth(p, i + 3) == d);
    } else {
        assert(depth(p, i + 3) == d + 1);
        assert(depth(p, i + 4) == d + 1);
        assert(depth(p, i + 5) == d + 1);
        assert(depth(p, i + 6) == d);
    }
}

/// The depth in front of a command of the optimized program is the depth
/// in front of its source.
pub proof fn lemma_depth_corresponds(p: Seq<Command>, j: int)
    requires
        0 <= j <= optimize(p).len(),
    ensures
        depth(optimize(p), j) == depth(p, source_index(p, j)),
    decreases j,
{
    lemma_pass(p);
    if j > 0 {
        lemma_depth_corresponds(p, j - 1);
        let at = source_index(p, j - 1);
        if idiom_at(p, at) is Some {
            lemma_idiom_depth(p, at);
        }
    }
}

/// The depth never goes below the depth in front of the stop that covers it.
proof fn lemma_depth_in_span(p: Seq<Command>, j: int, k: int)
    requires
        0 <= j < optimize(p).len(),
        source_index(p, j) <= k < source_index(p, j + 1),
    ensures
        depth(p, source_index(p, j)) <= depth(p, k),
{
    lemma_pass(p);
    let at = source_index(p, j);
    if idiom_at(p, at) is Some {
        lemma_idiom_depth(p, at);
    }
}

/// Optimizing does not change which bracket fault a program has, if any.
pub proof fn lemma_optimize_keeps_bracket_error(p: Seq<Command>)
    ensures
        bracket_error(optimize(p)) == bracket_error(p),
        balanced(optimize(p)) == balanced(p),
{
    let q = optimize(p);
    lemma_pass(p);
    lemma_depth_corresponds(p, q.len() as int);
    if has_unmatched_end(q) {
        let j = choose|j: int| 0 <= j <= q.len() && #[trigger] depth(q, j) < 0;
        lemma_depth_corresponds(p, j);
        assert(depth(p, source_index(p, j)) < 0);
    }
    if has_unmatched_end(p) {
        let k = choose|k: int| 0 <= k <= p.len() && #[trigger] depth(p, k) < 0;
        if k == p.len() {
            assert(depth(q, q.len() as int) < 0);
        } else {
            assert(q.len() > 0);
            let j = lemma_covering_stop(p, k, 0);
            lemma_depth_in_span(p, j, k);
            lemma_depth_corresponds(p, j);
            assert(depth(q, j) < 0);
        }
    }
}

/// The stop whose source index is `at`, where there is one.
proof fn lemma_stop_of(p: Seq<Command>, at: int, j: int)
    requires
        0 <= j < optimize(p).len(),
        source_index(p, j) <= at < source_index(p, j + 1),
        idiom_at(p, source_index(p, j)) is None,
    ensures
        source_index(p, j) == at,
{
    lemma_pass(p);
}

/// A pair of brackets of `p` whose start and end were both kept by the pass
/// is a pair of the optimized program.
proof fn lemma_pair_carries_over(p: Seq<Command>, j: int, k: int)
    requires
        0 <= j < optimize(p).len(),
        0 <= k < optimize(p).len(),
        is_pair(p, source_index(p, j), source_index(p, k)),
        idiom_at(p, source_index(p, j)) is None,
    ensures
        is_pair(optimize(p), j, k),
{
    let q = optimize(p);
    lemma_pass(p);
    let i = source_index(p, j);
    let e = source_index(p, k);
    if k <= j {
        if k < j {
            lemma_source_index_grows(p, k, j);
        }
        assert(false);
    }
    assert(idiom_at(p, e) is None);
    lemma_depth_corresponds(p, j);
    lemma_depth_corresponds(p, k + 1);
    assert forall|m: int| j < m <= k implies #[trigger] depth(q, m) > depth(q, j) by {
        lemma_depth_corresponds(p, m);
        lemma_source_index_grows(p, j, m);
        if m < k {
            lemma_source_index_grows(p, m, k);
        }
        assert(i < source_index(p, m) <= e);
    }
}

/// Where the pass kept a loop start of a balanced program, it kept the
/// loop end that belongs to it, and the two are partners in the optimized
/// program as well.
pub proof fn lemma_kept_start(p: Seq<Command>, j: int) -> (k: int)
    requires
        balanced(p),
        0 <= j < optimize(p).len(),
        optimize(p)[j] == Command::LoopStart,
    ensures
        0 <= k < optimize(p).len(),
        source_index(p, k) == partner(p, source_index(p, j)),
        source_index(p, k + 1) == partner(p, source_index(p, j)) + 1,
        partner(optimize(p), j) == k,
{
    let q = optimize(p);
    lemma_pass(p);
    let i = source_index(p, j);
    if idiom_at(p, i) is Some {
        assert(false);
    }
    lemma_start_has_partner(p, i);
    let e = partner(p, i);
    let k = lemma_covering_stop(p, e, j);
    let b = source_index(p, k);
    if b != e {
        // The end lies inside an idiom, so it closes that idiom's start.
        if idiom_at(p, b) is None {
            lemma_stop_of(p, e, k);
        }
        lemma_idiom_depth(p, b);
        assert(delta(p[e]) == -1);
        assert(e == b + span_at(p, b) - 1);
        lemma_pair_unique(p, i, e, b, e);
        assert(false);
    }
    assert(idiom_at(p, e) is None);
    lemma_pair_carries_over(p, j, k);
    lemma_partner_of_pair(q, j, k);
    k
}

/// Where the pass kept a loop end of a balanced program, it kept the loop
/// start that belongs to it, and the two are partners in the optimized
/// program as well.
pub proof fn lemma_kept_end(p: Seq<Command>, k: int) -> (j: int)
    requires
        balanced(p),
        0 <= k < optimize(p).len(),
        optimize(p)[k] == Command::LoopEnd,
    ensures
        0 <= j < optimize(p).len(),
        source_index(p, j) == partner(p, source_index(p, k)),
        source_index(p, j + 1) == partner(p, source_index(p, k)) + 1,
        partner(optimize(p), k) == j,
{
    let q = optimize(p);
    lemma_pass(p);
    let e = source_index(p, k);
    if idiom_at(p, e) is Some {
        assert(false);
    }
    lemma_end_has_partner(p, e);
    let i = partner(p, e);
    assert(q.len() > 0);
    let j = lemma_covering_stop(p, i, 0);
    let b = source_index(p, j);
    if idiom_at(p, b) is Some {
        // The start lies in an idiom: it opens it, and the idiom's own end
        // would be its partner, which the pass did not keep.
        lemma_idiom_depth(p, b);
        if i != b {
            assert(delta(p[i]) == 1);
            assert(i == b + span_at(p, b) - 1);
            assert(false);
        }
        lemma_pair_unique(p, i, e, b, b + span_at(p, b) - 1);
        if j < k {
            lemma_source_index_grows(p, j, k);
        } else if k < j {
            lemma_source_index_grows(p, k, j);
        }
        assert(false);
    }
    lemma_stop_of(p, i, j);
    lemma_pair_carries_over(p, j, k);
    lemma_partner_of_pair(q, j, k);
    j
}

/// The loop `[-]` or `[+]`, entered on a cell that is not zero, ends with
/// the cell at zero and the counter behind the loop.
proof fn lemma_clear_loop(p: Seq<Command>, input: Seq<u8>, s: State, fuel: nat, i: int) -> (left:
    nat)
    requires
        idiom_at(p, i) is Some,
        emitted_at(p, i) == Command::ClearData,
        s.pc == i + 1,
        s.tape.wf(),
        s.tape.cells.len() > 0,
        s.tape.current() != 0,
        run(p, input, s, fuel).error is None,
    ensures
        left < fuel,
        run(p, input, s, fuel) == run(p, input, moved(s, i + 3, s.tape.with_current(0)), left),
    decreases
            (if p[i + 1] == Command::DecData(1) {
                s.tape.current() as int
            } else {
                256 - s.tape.current()
            }),
{
    lemma_idiom_depth(p, i);
    lemma_partner_of_pair(p, i, i + 2);
    lemma_run_unfolds(p, input, s, fuel);
    let s1 = step(p, input, s)->Ok_0;
    lemma_run_unfolds(p, input, s1, (fuel - 1) as nat);
    let s2 = step(p, input, s1)->Ok_0;
    assert(s1.tape.with_current(0).cells =~= s.tape.with_current(0).cells);
    if s1.tape.current() != 0 {
        assert(s2 == moved(s, i + 1, s1.tape));
        lemma_clear_loop(p, input, s2, (fuel - 2) as nat, i)
    } else {
        assert(s1.tape.cells =~= s.tape.with_current(0).cells);
        assert(s2 == moved(s, i + 3, s.tape.with_current(0)));
        (fuel - 2) as nat
    }
}

/// The stride, forward counted positive, of a composite that walks or moves.
pub open spec fn stride_of(c: Command) -> int {
    match c {
        Command::SearchZeroInc(n) => n as int,
        Command::SearchZeroDec(n) => -(n as int),
        Command::MoveDataInc(n) => n as int,
        Command::MoveDataDec(n) => -(n as int),
        _ => 0,
    }
}

/// The loop `[>..>]` or `[<..<]`, entered on a cell that is not zero, ends
/// where the search in those strides comes to rest.
proof fn lemma_search_loop(p: Seq<Command>, input: Seq<u8>, s: State, fuel: nat, i: int) -> (r: (
    nat,
    nat,
))
    requires
        idiom_at(p, i) is Some,
        emitted_at(p, i) is SearchZeroInc || emitted_at(p, i) is SearchZeroDec,
        s.pc == i + 1,
        s.tape.wf(),
        s.tape.cells.len() > 0,
        s.tape.current() != 0,
        run(p, input, s, fuel).error is None,
    ensures
        r.0 < fuel,
        s.tape.search_zero(stride_of(emitted_at(p, i)), r.1) is Some,
        run(p, input, s, fuel) == run(
            p,
            input,
            moved(s, i + 3, s.tape.search_zero(stride_of(emitted_at(p, i)), r.1)->Some_0),
            r.0,
        ),
    decreases fuel,
{
    let stride = stride_of(emitted_at(p, i));
    lemma_idiom_depth(p, i);
    lemma_partner_of_pair(p, i, i + 2);
    lemma_run_unfolds(p, input, s, fuel);
    let s1 = step(p, input, s)->Ok_0;
    assert(s1 == moved(s, i + 2, s.tape.inc_cursor(stride)));
    lemma_inc_cursor_wf(s.tape, stride);
    lemma_run_unfolds(p, input, s1, (fuel - 1) as nat);
    let s2 = step(p, input, s1)->Ok_0;
    if s1.tape.current() != 0 {
        assert(s2 == moved(s, i + 1, s1.tape));
        let (left, hops) = lemma_search_loop(p, input, s2, (fuel - 2) as nat, i);
        assert(s.tape.search_zero(stride, hops + 1) == s1.tape.search_zero(stride, hops));
        (left, hops + 1)
    } else {
        assert(s2 == moved(s, i + 3, s1.tape));
        assert(s1.tape.search_zero(stride, 0) == Some(s1.tape));
        assert(s.tape.search_zero(stride, 1) == s1.tape.search_zero(stride, 0));
        ((fuel - 2) as nat, 1)
    }
}

/// One round of the loop `[->..>+<..<]` or `[-<..<+>..>]`, entered on a
/// cell that is not zero: what the tape is when the loop end is reached.
spec fn after_round(tape: TapeState, stride: int) -> TapeState {
    tape.dec_data(1).inc_cursor(stride).inc_data(1).inc_cursor(-stride)
}

/// The five commands of one round lead from the loop's second command to
/// its end, and from there back or out.
proof fn lemma_move_round(p: Seq<Command>, input: Seq<u8>, s: State, fuel: nat, i: int)
    requires
        idiom_at(p, i) is Some,
        emitted_at(p, i) is MoveDataInc || emitted_at(p, i) is MoveDataDec,
        s.pc == i + 1,
        s.tape.wf(),
        s.tape.cells.len() > 0,
        run(p, input, s, fuel).error is None,
    ensures
        fuel >= 5,
        after_round(s.tape, stride_of(emitted_at(p, i))).wf(),
        after_round(s.tape, stride_of(emitted_at(p, i))).cursor == s.tape.cursor,
        run(p, input, s, fuel) == run(
            p,
            input,
            moved(
                s,
                if after_round(s.tape, stride_of(emitted_at(p, i))).current() != 0 {
                    i + 1
                } else {
                    i + 6
                },
                after_round(s.tape, stride_of(emitted_at(p, i))),
            ),
            (fuel - 5) as nat,
        ),
{
    let stride = stride_of(emitted_at(p, i));
    let len = s.tape.cells.len() as int;
    lemma_idiom_depth(p, i);
    lemma_partner_of_pair(p, i, i + 5);
    lemma_run_unfolds(p, input, s, fuel);
    let s1 = step(p, input, s)->Ok_0;
    assert(s1 == moved(s, i + 2, s.tape.dec_data(1)));
    lemma_run_unfolds(p, input, s1, (fuel - 1) as nat);
    let s2 = step(p, input, s1)->Ok_0;
    assert(s2 == moved(s, i + 3, s1.tape.inc_cursor(stride)));
    lemma_inc_cursor_wf(s1.tape, stride);
    lemma_run_unfolds(p, input, s2, (fuel - 2) as nat);
    let s3 = step(p, input, s2)->Ok_0;
    assert(s3 == moved(s, i + 4, s2.tape.inc_data(1)));
    lemma_run_unfolds(p, input, s3, (fuel - 3) as nat);
    let s4 = step(p, input, s3)->Ok_0;
    assert(s4 == moved(s, i + 5, s3.tape.inc_cursor(-stride)));
    lemma_inc_cursor_wf(s3.tape, -stride);
    lemma_there_and_back(s.tape.cursor, stride, len);
    lemma_run_unfolds(p, input, s4, (fuel - 4) as nat);
}

/// Where the stride is a multiple of the tape's length the loop adds back
/// what it took from the same cell, and never ends.
proof fn lemma_move_spins(p: Seq<Command>, input: Seq<u8>, s: State, fuel: nat, i: int)
    requires
        idiom_at(p, i) is Some,
        emitted_at(p, i) is MoveDataInc || emitted_at(p, i) is MoveDataDec,
        s.pc == i + 1,
        s.tape.wf(),
        s.tape.cells.len() > 0,
        s.tape.current() != 0,
        s.tape.inc_cursor(stride_of(emitted_at(p, i))).cursor == s.tape.cursor,
    ensures
        run(p, input, s, fuel).error is Some,
    decreases fuel,
{
    if run(p, input, s, fuel).error is None {
        let stride = stride_of(emitted_at(p, i));
        lemma_move_round(p, input, s, fuel, i);
        let round = after_round(s.tape, stride);
        assert(round.cells =~= s.tape.cells);
        assert(round == s.tape);
        assert(moved(s, i + 1, round) == s);
        lemma_move_spins(p, input, s, (fuel - 5) as nat, i);
    }
}

/// The loop `[->..>+<..<]` or `[-<..<+>..>]`, entered on a cell that is
/// not zero, ends with the cell's value added to the cell a stride away and
/// the cell itself at zero.
proof fn lemma_move_loop(p: Seq<Command>, input: Seq<u8>, s: State, fuel: nat, i: int) -> (left:
    nat)
    requires
        idiom_at(p, i) is Some,
        emitted_at(p, i) is MoveDataInc || emitted_at(p, i) is MoveDataDec,
        s.pc == i + 1,
        s.tape.wf(),
        s.tape.cells.len() > 0,
        s.tape.current() != 0,
        run(p, input, s, fuel).error is None,
    ensures
        left < fuel,
        run(p, input, s, fuel) == run(
            p,
            input,
            moved(s, i + 6, s.tape.move_data(stride_of(emitted_at(p, i)))),
            left,
        ),
    decreases s.tape.current(),
{
    let stride = stride_of(emitted_at(p, i));
    let len = s.tape.cells.len() as int;
    let target = s.tape.inc_cursor(stride).cursor;
    lemma_inc_cursor_wf(s.tape, stride);
    if target == s.tape.cursor {
        lemma_move_spins(p, input, s, fuel, i);
        assert(false);
    }
    lemma_move_round(p, input, s, fuel, i);
    let round = after_round(s.tape, stride);
    lemma_there_and_back(s.tape.cursor, stride, len);
    let goal = s.tape.move_data(stride);
    assert(goal.cursor == s.tape.cursor);
    if round.current() != 0 {
        let left = lemma_move_loop(
            p,
            input,
            moved(s, i + 1, round),
            (fuel - 5) as nat,
            i,
        );
        assert(round.move_data(stride).cells =~= goal.cells);
        assert(round.move_data(stride) == goal);
        left
    } else {
        assert(round.cells =~= goal.cells);
        assert(round == goal);
        (fuel - 5) as nat
    }
}

/// What a composite command does to a tape that has cells; `None` for a
/// search that never comes to rest, and for every other command.
pub open spec fn composite_effect(c: Command, tape: TapeState) -> Option<TapeState> {
    match c {
        Command::ClearData => Some(tape.with_current(0)),
        Command::SearchZeroInc(_) | Command::SearchZeroDec(_) => tape.search_zero(
            stride_of(c),
            tape.cells.len(),
        ),
        Command::MoveDataInc(_) | Command::MoveDataDec(_) => Some(tape.move_data(stride_of(c))),
        _ => None,
    }
}

/// An idiom that is run command by command, in an execution that ends,
/// leaves the tape as its composite does, with the counter behind it.
proof fn lemma_idiom_run(p: Seq<Command>, input: Seq<u8>, s: State, fuel: nat) -> (left: nat)
    requires
        idiom_at(p, s.pc) is Some,
        s.tape.wf(),
        run(p, input, s, fuel).error is None,
    ensures
        left < fuel,
        s.tape.cells.len() > 0,
        composite_effect(emitted_at(p, s.pc), s.tape) is Some,
        run(p, input, s, fuel) == run(
            p,
            input,
            moved(
                s,
                s.pc + span_at(p, s.pc),
                composite_effect(emitted_at(p, s.pc), s.tape)->Some_0,
            ),
            left,
        ),
{
    let i = s.pc;
    let c = emitted_at(p, i);
    lemma_idiom_depth(p, i);
    lemma_partner_of_pair(p, i, i + span_at(p, i) - 1);
    lemma_run_unfolds(p, input, s, fuel);
    let s1 = step(p, input, s)->Ok_0;
    if s.tape.current() == 0 {
        assert(s.tape.with_current(0).cells =~= s.tape.cells);
        assert(s1 == moved(s, i + span_at(p, i), s.tape));
        (fuel - 1) as nat
    } else {
        assert(s1 == moved(s, i + 1, s.tape));
        if c == Command::ClearData {
            lemma_clear_loop(p, input, s1, (fuel - 1) as nat, i)
        } else if c is SearchZeroInc || c is SearchZeroDec {
            let (left, hops) = lemma_search_loop(p, input, s1, (fuel - 1) as nat, i);
            lemma_search_bound(s.tape, stride_of(c), hops);
            left
        } else {
            lemma_move_loop(p, input, s1, (fuel - 1) as nat, i)
        }
    }
}

/// The optimized program, started where the program it was made from is
/// started, ends as that one does whenever that one ends.
proof fn lemma_simulation(p: Seq<Command>, input: Seq<u8>, s: State, fuel: nat)
    requires
        balanced(p),
        0 <= s.pc <= optimize(p).len(),
        s.tape.wf(),
        run(p, input, moved(s, source_index(p, s.pc), s.tape), fuel).error is None,
    ensures
        agree(
            run(p, input, moved(s, source_index(p, s.pc), s.tape), fuel),
            run(optimize(p), input, s, fuel),
        ),
    decreases fuel,
{
    let q = optimize(p);
    let j = s.pc;
    let i = source_index(p, j);
    let plain = moved(s, i, s.tape);
    lemma_pass(p);
    if j < q.len() {
        assert(source_index(p, j) == i);
        if idiom_at(p, i) is Some {
            let left = lemma_idiom_run(p, input, plain, fuel);
            let tape = composite_effect(emitted_at(p, i), s.tape)->Some_0;
            let next = moved(s, j + 1, tape);
            assert(step(q, input, s) == Ok::<State, Error>(next));
            lemma_step_keeps_tape(q, input, s);
            assert(moved(next, source_index(p, j + 1), tape) == moved(
                plain,
                i + span_at(p, i),
                tape,
            ));
            lemma_simulation(p, input, next, left);
            lemma_more_fuel(q, input, next, left, (fuel - 1) as nat);
        } else {
            lemma_run_unfolds(p, input, plain, fuel);
            let plain_next = step(p, input, plain)->Ok_0;
            if p[i] == Command::LoopStart && s.tape.current() == 0 {
                let k = lemma_kept_start(p, j);
            } else if p[i] == Command::LoopEnd && s.tape.current() != 0 {
                let k = lemma_kept_end(p, j);
            }
            let next = step(q, input, s)->Ok_0;
            assert(step(q, input, s) is Ok);
            assert(plain_next == moved(next, source_index(p, next.pc), next.tape));
            lemma_step_keeps_tape(q, input, s);
            lemma_simulation(p, input, next, (fuel - 1) as nat);
        }
    }
}

/// Two executions ended alike, and not as a timeout: both without a fault
/// or both with the same one, with the same tape, the same input read and
/// the same output.
pub open spec fn agree(a: Outcome, b: Outcome) -> bool {
    &&& a.error != Some(Error::Timeout)
    &&& a.error == b.error
    &&& a.state.tape == b.state.tape
    &&& a.state.consumed == b.state.consumed
    &&& a.state.output == b.state.output
}

/// On a tape without cells the optimized program gets as far as the
/// program it was made from: through the moves of the cursor in front, to
/// the first command that touches a cell.
proof fn lemma_simulation_without_cells(p: Seq<Command>, input: Seq<u8>, s: State, fuel: nat)
    requires
        0 <= s.pc <= optimize(p).len(),
        s.tape.wf(),
        s.tape.cells.len() == 0,
        run(p, input, moved(s, source_index(p, s.pc), s.tape), fuel).error != Some(
            Error::Timeout,
        ),
    ensures
        agree(
            run(p, input, moved(s, source_index(p, s.pc), s.tape), fuel),
            run(optimize(p), input, s, fuel),
        ),
    decreases fuel,
{
    let q = optimize(p);
    let j = s.pc;
    let i = source_index(p, j);
    let plain = moved(s, i, s.tape);
    lemma_pass(p);
    if j < q.len() {
        assert(source_index(p, j) == i);
        if idiom_at(p, i) is Some {
            assert(step(p, input, plain) == Err::<State, Error>(Error::OutOfBounds));
            assert(step(q, input, s) == Err::<State, Error>(Error::OutOfBounds));
        } else if p[i] is IncCursor || p[i] is DecCursor {
            let next = step(q, input, s)->Ok_0;
            assert(step(p, input, plain) == Ok::<State, Error>(
                moved(next, source_index(p, next.pc), next.tape),
            ));
            lemma_simulation_without_cells(p, input, next, (fuel - 1) as nat);
        } else {
            assert(step(p, input, plain) == Err::<State, Error>(Error::OutOfBounds));
            assert(step(q, input, s) == Err::<State, Error>(Error::OutOfBounds));
        }
    }
}

/// The optimizer keeps what a program does. Whenever a program with
/// balanced brackets, run from its first command, ends within some number of
/// commands, its optimized form, run on the same tape and the same input,
/// ends within that number too and in the same way: with the same output,
/// the same tape and the same input read, and with the same fault if the
/// program ended in one. Only of an execution that is a timeout nothing is
/// said: the optimized program needs fewer commands, and it does not stay
/// in a loop that moves a cell's value onto the cell itself.
pub proof fn lemma_optimized_run_agrees(
    p: Seq<Command>,
    input: Seq<u8>,
    start: State,
    fuel: nat,
)
    requires
        balanced(p),
        start.pc == 0,
        start.tape.wf(),
        run(p, input, start, fuel).error != Some(Error::Timeout),
    ensures
        balanced(optimize(p)),
        agree(run(p, input, start, fuel), run(optimize(p), input, start, fuel)),
{
    lemma_optimize_keeps_bracket_error(p);
    lemma_pass(p);
    assert(moved(start, source_index(p, 0), start.tape) == start);
    if start.tape.cells.len() == 0 {
        lemma_simulation_without_cells(p, input, start, fuel);
    } else {
        lemma_run_faults(p, input, start, fuel);
        lemma_run_in_bounds(p, input, start, fuel);
        lemma_simulation(p, input, start, fuel);
    }
}

} // verus!
