use vstd::prelude::*;
use crate::command::Command;

verus! {

/// The eight characters that mean something; every other is commentary.
pub open spec fn is_symbol(c: char) -> bool {
    c == '>' || c == '<' || c == '+' || c == '-' || c == '.' || c == ',' || c == '[' || c == ']'
}

/// The four symbols whose repeats fold into one command.
pub open spec fn is_foldable(c: char) -> bool {
    c == '>' || c == '<' || c == '+' || c == '-'
}

/// `is_symbol` as a predicate value.
pub open spec fn symbol_pred() -> spec_fn(char) -> bool {
    |c: char| is_symbol(c)
}

/// The meaningful characters of `s`, in order.
pub open spec fn symbols(s: Seq<char>) -> Seq<char> {
    s.filter(symbol_pred())
}

/// `n` times the character `c`.
pub open spec fn repeat(c: char, n: nat) -> Seq<char> {
    Seq::new(n, |i: int| c)
}

/// Length of the longest prefix of `t` that holds only `c`.
pub open spec fn run_length(t: Seq<char>, c: char) -> nat
    decreases t.len(),
{
    if t.len() > 0 && t[0] == c {
        1 + run_length(t.drop_first(), c)
    } else {
        0
    }
}

/// The command for a run of `n` times the foldable symbol `c`: motion keeps
/// the count, arithmetic keeps it modulo 256.
pub open spec fn folded(c: char, n: nat) -> Command {
    if c == '>' {
        Command::IncCursor(n as usize)
    } else if c == '<' {
        Command::DecCursor(n as usize)
    } else if c == '+' {
        Command::IncData((n % 256) as u8)
    } else {
        Command::DecData((n % 256) as u8)
    }
}

/// The command for one occurrence of a symbol that does not fold.
pub open spec fn single(c: char) -> Command {
    if c == '.' {
        Command::PutChar
    } else if c == ',' {
        Command::GetChar
    } else if c == '[' {
        Command::LoopStart
    } else {
        Command::LoopEnd
    }
}

/// The commands for a sequence of symbols: each maximal run of one foldable
/// symbol gives one command, each other symbol gives one command.
pub open spec fn fold_runs(t: Seq<char>) -> Seq<Command>
    decreases t.len(),
    via fold_runs_decreases
{
    if t.len() == 0 {
        Seq::empty()
    } else if is_foldable(t[0]) {
        let n = run_length(t, t[0]);
        seq![folded(t[0], n)] + fold_runs(t.skip(n as int))
    } else {
        seq![single(t[0])] + fold_runs(t.drop_first())
    }
}

#[via_fn]
proof fn fold_runs_decreases(t: Seq<char>) {
    if t.len() > 0 {
        lemma_run_length_bounds(t, t[0]);
    }
}

/// A run is no longer than the text, and is not empty where the text starts
/// with the character.
pub proof fn lemma_run_length_bounds(t: Seq<char>, c: char)
    ensures
        run_length(t, c) <= t.len(),
        t.len() > 0 && t[0] == c ==> run_length(t, c) >= 1,
    decreases t.len(),
{
    if t.len() > 0 && t[0] == c {
        lemma_run_length_bounds(t.drop_first(), c);
    }
}

/// The program that source text `s` stands for.
pub open spec fn parse(s: Seq<char>) -> Seq<Command> {
    fold_runs(symbols(s))
}

/// The symbols of a one-character text.
pub proof fn lemma_symbols_of_one(c: char)
    ensures
        symbols(seq![c]) == if is_symbol(c) {
            seq![c]
        } else {
            Seq::<char>::empty()
        },
{
    reveal_with_fuel(Seq::filter, 2);
    let s = seq![c];
    assert(s.drop_last() =~= Seq::<char>::empty());
    assert(s.last() == c);
    assert(Seq::<char>::empty().push(c) =~= seq![c]);
}

/// The symbols of a text from `i` on: its character at `i`, if that is a
/// symbol, and then the symbols from `i + 1` on.
pub proof fn lemma_symbols_step(s: Seq<char>, i: int)
    requires
        0 <= i < s.len(),
    ensures
        is_symbol(s[i]) ==> symbols(s.skip(i)) == seq![s[i]] + symbols(s.skip(i + 1)),
        !is_symbol(s[i]) ==> symbols(s.skip(i)) == symbols(s.skip(i + 1)),
{
    assert(s.skip(i) =~= seq![s[i]] + s.skip(i + 1));
    Seq::filter_distributes_over_add(seq![s[i]], s.skip(i + 1), symbol_pred());
    lemma_symbols_of_one(s[i]);
    assert(Seq::<char>::empty() + symbols(s.skip(i + 1)) =~= symbols(s.skip(i + 1)));
}

/// A text has no symbols past its end.
pub proof fn lemma_symbols_at_end(s: Seq<char>)
    ensures
        symbols(s.skip(s.len() as int)) == Seq::<char>::empty(),
{
    reveal_with_fuel(Seq::filter, 1);
    assert(s.skip(s.len() as int) =~= Seq::<char>::empty());
}

/// A run of `n` times `c`, followed by something that does not start with
/// `c`, has run length `n`.
pub proof fn lemma_run_length(c: char, n: nat, rest: Seq<char>)
    requires
        rest.len() == 0 || rest[0] != c,
    ensures
        run_length(repeat(c, n) + rest, c) == n,
        (repeat(c, n) + rest).skip(n as int) == rest,
    decreases n,
{
    let t = repeat(c, n) + rest;
    assert(t.skip(n as int) =~= rest);
    if n == 0 {
        assert(t =~= rest);
    } else {
        assert(t.drop_first() =~= repeat(c, (n - 1) as nat) + rest);
        lemma_run_length(c, (n - 1) as nat, rest);
    }
}

/// A run of a foldable symbol at the head of a text folds into one command.
pub proof fn lemma_fold_run(c: char, n: nat, rest: Seq<char>)
    requires
        is_foldable(c),
        n >= 1,
        rest.len() == 0 || rest[0] != c,
    ensures
        fold_runs(repeat(c, n) + rest) == seq![folded(c, n)] + fold_runs(rest),
{
    lemma_run_length(c, n, rest);
    assert((repeat(c, n) + rest)[0] == c);
}

/// A text made of symbols only has all its characters as its symbols.
pub proof fn lemma_symbols_of_run(c: char, n: nat)
    requires
        is_symbol(c),
    ensures
        symbols(repeat(c, n)) == repeat(c, n),
    decreases n,
{
    reveal(Seq::filter);
    if n > 0 {
        lemma_symbols_of_run(c, (n - 1) as nat);
        assert(repeat(c, n).drop_last() =~= repeat(c, (n - 1) as nat));
        assert(repeat(c, (n - 1) as nat).push(c) =~= repeat(c, n));
    } else {
        assert(repeat(c, n) =~= Seq::<char>::empty());
    }
}

/// A text of `n` repeats of one motion or arithmetic symbol, and nothing
/// else, parses to the one command for that symbol with operand `n`: for
/// motion the count itself, for arithmetic the count modulo 256.
pub proof fn lemma_parse_run(c: char, n: nat)
    requires
        is_foldable(c),
        n >= 1,
    ensures
        parse(repeat(c, n)) == seq![folded(c, n)],
        n <= 255 && c == '>' ==> folded(c, n) == Command::IncCursor(n as usize),
        n <= 255 && c == '<' ==> folded(c, n) == Command::DecCursor(n as usize),
        n <= 255 && c == '+' ==> folded(c, n) == Command::IncData(n as u8),
        n <= 255 && c == '-' ==> folded(c, n) == Command::DecData(n as u8),
{
    lemma_symbols_of_run(c, n);
    assert(repeat(c, n) + Seq::<char>::empty() =~= repeat(c, n));
    lemma_fold_run(c, n, Seq::<char>::empty());
    assert(seq![folded(c, n)] + Seq::<Command>::empty() =~= seq![folded(c, n)]);
}

/// Whether the command is one of the eight that source text can hold, with
/// a count of at least one where it moves the cursor.
pub open spec fn is_primitive(c: Command) -> bool {
    match c {
        Command::IncCursor(n) => n >= 1,
        Command::DecCursor(n) => n >= 1,
        Command::IncData(_) | Command::DecData(_) => true,
        Command::PutChar | Command::GetChar => true,
        Command::LoopStart | Command::LoopEnd => true,
        _ => false,
    }
}

/// Folding runs gives primitive commands only.
proof fn lemma_folded_commands(t: Seq<char>, i: int)
    requires
        t.len() <= usize::MAX,
        0 <= i < fold_runs(t).len(),
    ensures
        is_primitive(fold_runs(t)[i]),
    decreases t.len(),
{
    lemma_run_length_bounds(t, t[0]);
    if i > 0 {
        if is_foldable(t[0]) {
            lemma_folded_commands(t.skip(run_length(t, t[0]) as int), i - 1);
        } else {
            lemma_folded_commands(t.drop_first(), i - 1);
        }
    }
}

/// A parsed program holds primitive commands only: no composite comes from
/// source text, and every motion command moves by one cell at least.
pub proof fn lemma_parsed_commands(s: Seq<char>, i: int)
    requires
        s.len() <= usize::MAX,
        0 <= i < parse(s).len(),
    ensures
        is_primitive(parse(s)[i]),
{
    s.lemma_filter_len(symbol_pred());
    lemma_folded_commands(symbols(s), i);
}

} // verus!
