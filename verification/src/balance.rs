use vstd::prelude::*;
use crate::brackets::{bracket_error, delta, depth, has_unmatched_end};
use crate::command::Command;
use crate::equivalence::lemma_optimize_keeps_bracket_error;
use crate::error::Error;
use crate::optimizer::optimize;
use crate::parser::{
    fold_runs, is_foldable, is_symbol, lemma_run_length_bounds, parse, run_length, single,
    symbol_pred, symbols,
};

verus! {

/// What a character adds to the nesting depth.
pub open spec fn char_delta(c: char) -> int {
    if c == '[' {
        1
    } else if c == ']' {
        -1
    } else {
        0
    }
}

/// Running balance of the brackets among the first `k` characters of a
/// text: the `[` minus the `]`.
pub open spec fn text_depth(s: Seq<char>, k: int) -> int
    decreases k,
{
    if k <= 0 {
        0
    } else {
        text_depth(s, k - 1) + char_delta(s[k - 1])
    }
}

/// The fault in the brackets of a text, if there is one: a `]` that brings
/// the running balance below zero, or else more `[` than `]` in all.
pub open spec fn text_bracket_error(s: Seq<char>) -> Option<Error> {
    if exists|k: int| 0 <= k <= s.len() && #[trigger] text_depth(s, k) < 0 {
        Some(Error::UnmatchedLoopEnd)
    } else if text_depth(s, s.len() as int) > 0 {
        Some(Error::UnmatchedLoopStart)
    } else {
        None
    }
}

/// Starting from `d`, the running balance of the text falls below zero.
spec fn text_dips(s: Seq<char>, d: int) -> bool {
    exists|k: int| 0 <= k <= s.len() && d + #[trigger] text_depth(s, k) < 0
}

/// Starting from `d`, the depth of the program falls below zero.
spec fn dips(p: Seq<Command>, d: int) -> bool {
    exists|k: int| 0 <= k <= p.len() && d + #[trigger] depth(p, k) < 0
}

/// The running balance in front of `k` looks at the first `k` characters only.
proof fn lemma_text_depth_agrees(a: Seq<char>, b: Seq<char>, k: int)
    requires
        0 <= k <= a.len(),
        k <= b.len(),
        forall|m: int| 0 <= m < k ==> a[m] == b[m],
    ensures
        text_depth(a, k) == text_depth(b, k),
    decreases k,
{
    if k > 0 {
        lemma_text_depth_agrees(a, b, k - 1);
    }
}

/// The running balance of a text is that of a first part plus that of the rest.
proof fn lemma_text_depth_split(t: Seq<char>, n: int, k: int)
    requires
        0 <= n,
        0 <= k,
        n + k <= t.len(),
    ensures
        text_depth(t, n + k) == text_depth(t, n) + text_depth(t.skip(n), k),
    decreases k,
{
    if k > 0 {
        lemma_text_depth_split(t, n, k - 1);
    }
}

/// The depth of a program is what its first command adds plus the depth of the rest.
proof fn lemma_depth_behind_first(c: Command, r: Seq<Command>, k: int)
    requires
        0 <= k <= r.len(),
    ensures
        depth(seq![c] + r, k + 1) == delta(c) + depth(r, k),
    decreases k,
{
    let p = seq![c] + r;
    if k > 0 {
        lemma_depth_behind_first(c, r, k - 1);
        assert(p[k] == r[k - 1]);
    } else {
        assert(depth(p, 0) == 0);
        assert(p[0] == c);
    }
}

/// A text with one more character dips where the text without it does, or
/// at its end.
proof fn lemma_text_dips_push(s: Seq<char>, c: char, d: int)
    ensures
        text_dips(s.push(c), d) <==> (text_dips(s, d) || d + text_depth(
            s.push(c),
            s.len() as int + 1,
        ) < 0),
{
    let longer = s.push(c);
    if text_dips(longer, d) {
        let k = choose|k: int| 0 <= k <= longer.len() && d + #[trigger] text_depth(longer, k) < 0;
        if k <= s.len() {
            lemma_text_depth_agrees(longer, s, k);
            assert(d + text_depth(s, k) < 0);
        }
    }
    if text_dips(s, d) {
        let k = choose|k: int| 0 <= k <= s.len() && d + #[trigger] text_depth(s, k) < 0;
        lemma_text_depth_agrees(longer, s, k);
        assert(d + text_depth(longer, k) < 0);
    }
}

/// Leaving the commentary out of a text changes neither its balance nor
/// whether it dips.
proof fn lemma_symbols_keep_depth(s: Seq<char>, d: int)
    ensures
        text_depth(symbols(s), symbols(s).len() as int) == text_depth(s, s.len() as int),
        text_dips(symbols(s), d) == text_dips(s, d),
    decreases s.len(),
{
    reveal(Seq::filter);
    if s.len() == 0 {
        assert(symbols(s) =~= s);
    } else {
        let front = s.drop_last();
        let c = s.last();
        let kept = symbols(front);
        lemma_symbols_keep_depth(front, d);
        assert(s =~= front.push(c));
        lemma_text_depth_agrees(s, front, front.len() as int);
        lemma_text_dips_push(front, c, d);
        if is_symbol(c) {
            assert(symbols(s) == kept.push(c));
            lemma_text_depth_agrees(kept.push(c), kept, kept.len() as int);
            lemma_text_dips_push(kept, c, d);
        } else {
            assert(symbols(s) == kept);
            if d + text_depth(s, s.len() as int) < 0 {
                assert(d + text_depth(front, front.len() as int) < 0);
            }
        }
    }
}

/// A program dips where it starts below zero, or where what follows its
/// first command dips from what that command leaves.
proof fn lemma_dips_behind_first(c: Command, r: Seq<Command>, d: int)
    ensures
        dips(seq![c] + r, d) <==> (d < 0 || dips(r, d + delta(c))),
{
    let p = seq![c] + r;
    assert(depth(p, 0) == 0);
    if dips(p, d) {
        let k = choose|k: int| 0 <= k <= p.len() && d + #[trigger] depth(p, k) < 0;
        if k > 0 {
            lemma_depth_behind_first(c, r, k - 1);
            assert(d + delta(c) + depth(r, k - 1) < 0);
        }
    }
    if dips(r, d + delta(c)) {
        let k = choose|k: int| 0 <= k <= r.len() && d + delta(c) + #[trigger] depth(r, k) < 0;
        lemma_depth_behind_first(c, r, k);
        assert(d + depth(p, k + 1) < 0);
    }
    if d < 0 {
        assert(d + depth(p, 0) < 0);
    }
}

/// A text dips within its first `n` characters, or behind them from what
/// they leave.
proof fn lemma_text_dips_split(t: Seq<char>, n: int, d: int)
    requires
        0 <= n <= t.len(),
    ensures
        text_dips(t, d) <==> ((exists|k: int| 0 <= k <= n && d + #[trigger] text_depth(t, k) < 0)
            || text_dips(t.skip(n), d + text_depth(t, n))),
{
    let rest = t.skip(n);
    if text_dips(t, d) {
        let k = choose|k: int| 0 <= k <= t.len() && d + #[trigger] text_depth(t, k) < 0;
        if k > n {
            lemma_text_depth_split(t, n, k - n);
            assert(d + text_depth(t, n) + text_depth(rest, k - n) < 0);
        }
    }
    if text_dips(rest, d + text_depth(t, n)) {
        let k = choose|k: int|
            0 <= k <= rest.len() && d + text_depth(t, n) + #[trigger] text_depth(rest, k) < 0;
        lemma_text_depth_split(t, n, k);
        assert(d + text_depth(t, n + k) < 0);
    }
}

/// A run holds its character only.
proof fn lemma_run_holds(t: Seq<char>, c: char, m: int)
    requires
        0 <= m < run_length(t, c),
    ensures
        m < t.len(),
        t[m] == c,
    decreases t.len(),
{
    lemma_run_length_bounds(t, c);
    if m > 0 {
        lemma_run_holds(t.drop_first(), c, m - 1);
    }
}

/// Within a run of a character that is no bracket the balance stays at zero.
proof fn lemma_flat_run(t: Seq<char>, c: char, k: int)
    requires
        char_delta(c) == 0,
        0 <= k <= run_length(t, c),
    ensures
        k <= t.len(),
        text_depth(t, k) == 0,
    decreases k,
{
    lemma_run_length_bounds(t, c);
    if k > 0 {
        lemma_run_holds(t, c, k - 1);
        lemma_flat_run(t, c, k - 1);
    }
}

/// Folding the runs of a text of symbols changes neither its balance nor
/// whether it dips.
proof fn lemma_fold_keeps_depth(t: Seq<char>, d: int)
    requires
        forall|m: int| 0 <= m < t.len() ==> is_symbol(#[trigger] t[m]),
    ensures
        depth(fold_runs(t), fold_runs(t).len() as int) == text_depth(t, t.len() as int),
        dips(fold_runs(t), d) == text_dips(t, d),
    decreases t.len(),
{
    let folded = fold_runs(t);
    if t.len() == 0 {
        assert(depth(folded, 0) == 0);
        assert(text_depth(t, 0) == 0);
        if dips(folded, d) {
            let k = choose|k: int| 0 <= k <= folded.len() && d + #[trigger] depth(folded, k) < 0;
            assert(d + text_depth(t, 0) < 0);
        }
        if text_dips(t, d) {
            let k = choose|k: int| 0 <= k <= t.len() && d + #[trigger] text_depth(t, k) < 0;
            assert(d + depth(folded, 0) < 0);
        }
    } else {
        let c = t[0];
        let n: int = if is_foldable(c) {
            run_length(t, c) as int
        } else {
            1
        };
        lemma_run_length_bounds(t, c);
        let rest = t.skip(n);
        let first = folded[0];
        let behind = fold_runs(rest);
        assert(t.drop_first() =~= t.skip(1));
        assert(folded =~= seq![first] + behind);
        assert(text_depth(t, 0) == 0);
        if is_foldable(c) {
            lemma_flat_run(t, c, n);
            assert forall|k: int| 0 <= k <= n implies text_depth(t, k) == 0 by {
                lemma_flat_run(t, c, k);
            }
        } else {
            assert(text_depth(t, 1) == char_delta(c));
            assert(first == single(c));
        }
        assert(delta(first) == text_depth(t, n));
        lemma_fold_keeps_depth(rest, d + delta(first));
        lemma_dips_behind_first(first, behind, d);
        lemma_text_dips_split(t, n, d);
        lemma_depth_behind_first(first, behind, behind.len() as int);
        lemma_text_depth_split(t, n, rest.len() as int);
        if exists|k: int| 0 <= k <= n && d + #[trigger] text_depth(t, k) < 0 {
            let k = choose|k: int| 0 <= k <= n && d + #[trigger] text_depth(t, k) < 0;
            if !is_foldable(c) && k == 1 {
                assert(d + delta(first) + text_depth(rest, 0) < 0);
            }
        }
        if d < 0 {
            assert(d + text_depth(t, 0) < 0);
        }
    }
}

/// Parsing carries the brackets of the text over: the program's brackets
/// are at fault where the text's are, and in the same way.
pub proof fn lemma_parse_keeps_bracket_error(s: Seq<char>)
    ensures
        bracket_error(parse(s)) == text_bracket_error(s),
{
    let t = symbols(s);
    let p = parse(s);
    lemma_symbols_keep_depth(s, 0);
    assert forall|m: int| 0 <= m < t.len() implies is_symbol(#[trigger] t[m]) by {
        s.lemma_filter_pred(symbol_pred(), m);
    }
    lemma_fold_keeps_depth(t, 0);
    assert(has_unmatched_end(p) == dips(p, 0));
    assert(text_dips(s, 0) == (exists|k: int|
        0 <= k <= s.len() && #[trigger] text_depth(s, k) < 0));
}

/// A program text whose brackets do not balance is refused with the fault
/// of its brackets, and no other text is: whether and how the pairing of
/// brackets fails for the optimized program of a text is read off the text.
pub proof fn lemma_bracket_error_of_text(s: Seq<char>)
    ensures
        bracket_error(optimize(parse(s))) == text_bracket_error(s),
{
    lemma_parse_keeps_bracket_error(s);
    lemma_optimize_keeps_bracket_error(parse(s));
}

} // verus!
