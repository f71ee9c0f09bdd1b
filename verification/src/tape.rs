use vstd::prelude::*;
use vstd::arithmetic::div_mod::{
    lemma_add_mod_noop, lemma_add_mod_noop_right, lemma_mod_add_multiples_vanish,
    lemma_mod_bound, lemma_mod_multiples_vanish, lemma_mod_sub_multiples_vanish,
    lemma_mod_twice, lemma_small_mod, lemma_sub_mod_noop_right,
};
use crate::error::Error;

verus! {

/// The mathematical tape: its cells and the position of the cursor.
pub struct TapeState {
    /// The cells, from first to last.
    pub cells: Seq<u8>,
    /// Index of the cell under the cursor.
    pub cursor: int,
}

impl TapeState {
    /// The cursor addresses a cell; on a tape without cells it rests at 0.
    pub open spec fn wf(self) -> bool {
        if self.cells.len() == 0 {
            self.cursor == 0
        } else {
            0 <= self.cursor < self.cells.len()
        }
    }

    /// A tape of `length` zero cells with the cursor on the first.
    pub open spec fn fresh(length: nat) -> TapeState {
        TapeState { cells: Seq::new(length, |i: int| 0u8), cursor: 0 }
    }

    /// The cell under the cursor.
    pub open spec fn current(self) -> u8 {
        self.cells[self.cursor]
    }

    /// What reading the cell under the cursor yields.
    pub open spec fn read(self) -> Result<u8, Error> {
        if self.cells.len() == 0 {
            Err(Error::OutOfBounds)
        } else {
            Ok(self.current())
        }
    }

    /// The tape with `value` stored under the cursor.
    pub open spec fn with_current(self, value: u8) -> TapeState {
        TapeState { cells: self.cells.update(self.cursor, value), cursor: self.cursor }
    }

    /// The tape with the cursor `n` cells further on, wrapping at the end.
    pub open spec fn inc_cursor(self, n: int) -> TapeState {
        if self.cells.len() == 0 {
            self
        } else {
            TapeState { cells: self.cells, cursor: (self.cursor + n) % (self.cells.len() as int) }
        }
    }

    /// The tape with the cursor `n` cells back, wrapping at the start.
    pub open spec fn dec_cursor(self, n: int) -> TapeState {
        if self.cells.len() == 0 {
            self
        } else {
            TapeState { cells: self.cells, cursor: (self.cursor - n) % (self.cells.len() as int) }
        }
    }

    /// The tape with `n` added to the cell under the cursor, modulo 256.
    pub open spec fn inc_data(self, n: u8) -> TapeState {
        self.with_current(wrapping_sum(self.current(), n))
    }

    /// The tape with `n` subtracted from the cell under the cursor, modulo 256.
    pub open spec fn dec_data(self, n: u8) -> TapeState {
        self.with_current(wrapping_difference(self.current(), n))
    }

    /// The tape after `k` increments by one of the cell under the cursor.
    pub open spec fn inc_data_times(self, k: nat) -> TapeState
        decreases k,
    {
        if k == 0 {
            self
        } else {
            self.inc_data(1).inc_data_times((k - 1) as nat)
        }
    }

    /// Where a walk in strides of `stride` cells comes to rest: on the first
    /// zero cell that it meets, the cell it starts on included. `None` when
    /// it meets none within `hops` strides.
    pub open spec fn search_zero(self, stride: int, hops: nat) -> Option<TapeState>
        decreases hops,
    {
        if self.current() == 0 {
            Some(self)
        } else if hops == 0 {
            None
        } else {
            self.inc_cursor(stride).search_zero(stride, (hops - 1) as nat)
        }
    }

    /// The tape after the value under the cursor has been added to the cell
    /// `stride` cells away and the cell under the cursor cleared; the cursor
    /// ends where it was. A zero under the cursor leaves the tape as it is.
    pub open spec fn move_data(self, stride: int) -> TapeState {
        if self.current() == 0 {
            self
        } else {
            self.with_current(0).inc_cursor(stride).inc_data(self.current()).inc_cursor(-stride)
        }
    }
}

/// `a + b` modulo 256.
pub open spec fn wrapping_sum(a: u8, b: u8) -> u8 {
    ((a + b) % 256) as u8
}

/// `a - b` modulo 256.
pub open spec fn wrapping_difference(a: u8, b: u8) -> u8 {
    ((a - b) % 256) as u8
}

/// A byte tape of fixed length with a cursor that wraps at both ends.
#[derive(Debug)]
pub struct Tape {
    tape: Vec<u8>,
    cursor: usize,
}

impl View for Tape {
    type V = TapeState;

    closed spec fn view(&self) -> TapeState {
        TapeState { cells: self.tape@, cursor: self.cursor as int }
    }
}

impl Tape {
    /// The cursor addresses a cell of the tape.
    pub open spec fn wf(&self) -> bool {
        self@.wf()
    }

    /// A tape of `length` cells, all zero, with the cursor on the first.
    pub fn new(length: usize) -> (tape: Tape)
        ensures
            tape.wf(),
            tape@ == TapeState::fresh(length as nat),
    {
        let tape = Tape { tape: vec![0u8; length], cursor: 0 };
        assert(tape.tape@ =~= Seq::new(length as nat, |i: int| 0u8));
        tape
    }

    /// Number of cells.
    pub fn len(&self) -> (n: usize)
        ensures
            n == self@.cells.len(),
    {
        self.tape.len()
    }

    /// Position of the cursor.
    pub fn cursor(&self) -> (c: usize)
        ensures
            c == self@.cursor,
    {
        self.cursor
    }

    /// Reads the cell under the cursor; fails only on a tape without cells.
    pub fn read(&self) -> (r: Result<u8, Error>)
        requires
            self.wf(),
        ensures
            r == self@.read(),
    {
        if self.cursor < self.tape.len() {
            Ok(self.tape[self.cursor])
        } else {
            Err(Error::OutOfBounds)
        }
    }

    /// Stores `value` under the cursor; fails only on a tape without cells.
    pub fn write(&mut self, value: u8) -> (r: Result<(), Error>)
        requires
            old(self).wf(),
        ensures
            final(self).wf(),
            old(self)@.cells.len() == 0 ==> r == Err::<(), Error>(Error::OutOfBounds) && final(self)@
                == old(self)@,
            old(self)@.cells.len() > 0 ==> r == Ok::<(), Error>(()) && final(self)@ == old(
                self,
            )@.with_current(value),
    {
        if self.cursor < self.tape.len() {
            self.tape.set(self.cursor, value);
            Ok(())
        } else {
            Err(Error::OutOfBounds)
        }
    }

    /// Adds `n` to the cell under the cursor, modulo 256.
    pub fn inc_data(&mut self, n: u8) -> (r: Result<(), Error>)
        requires
            old(self).wf(),
        ensures
            final(self).wf(),
            old(self)@.cells.len() == 0 ==> r == Err::<(), Error>(Error::OutOfBounds) && final(self)@
                == old(self)@,
            old(self)@.cells.len() > 0 ==> r == Ok::<(), Error>(()) && final(self)@ == old(
                self,
            )@.inc_data(n),
    {
        match self.read() {
            Ok(value) => self.write(value.wrapping_add(n)),
            Err(e) => Err(e),
        }
    }

    /// Subtracts `n` from the cell under the cursor, modulo 256.
    pub fn dec_data(&mut self, n: u8) -> (r: Result<(), Error>)
        requires
            old(self).wf(),
        ensures
            final(self).wf(),
            old(self)@.cells.len() == 0 ==> r == Err::<(), Error>(Error::OutOfBounds) && final(self)@
                == old(self)@,
            old(self)@.cells.len() > 0 ==> r == Ok::<(), Error>(()) && final(self)@ == old(
                self,
            )@.dec_data(n),
    {
        match self.read() {
            Ok(value) => self.write(value.wrapping_sub(n)),
            Err(e) => Err(e),
        }
    }

    /// Moves the cursor `n` cells forward, wrapping at the end of the tape.
    pub fn inc_cursor(&mut self, n: usize)
        requires
            old(self).wf(),
        ensures
            final(self).wf(),
            final(self)@ == old(self)@.inc_cursor(n as int),
    {
        let len = self.tape.len();
        if len > 0 {
            let hop = n % len;
            let room = len - self.cursor;
            proof {
                lemma_add_mod_noop_right(self.cursor as int, n as int, len as int);
                if hop >= room {
                    lemma_mod_sub_multiples_vanish(self.cursor + hop, len as int);
                    lemma_small_mod((self.cursor + hop - len) as nat, len as nat);
                } else {
                    lemma_small_mod((self.cursor + hop) as nat, len as nat);
                }
            }
            if hop >= room {
                self.cursor = hop - room;
            } else {
                self.cursor = self.cursor + hop;
            }
        }
    }

    /// Moves the cursor `n` cells back, wrapping at the start of the tape.
    pub fn dec_cursor(&mut self, n: usize)
        requires
            old(self).wf(),
        ensures
            final(self).wf(),
            final(self)@ == old(self)@.dec_cursor(n as int),
    {
        let len = self.tape.len();
        if len > 0 {
            let hop = n % len;
            proof {
                lemma_sub_mod_noop_right(self.cursor as int, n as int, len as int);
                if hop > self.cursor {
                    lemma_mod_add_multiples_vanish(self.cursor - hop, len as int);
                    lemma_small_mod((self.cursor - hop + len) as nat, len as nat);
                } else {
                    lemma_small_mod((self.cursor - hop) as nat, len as nat);
                }
            }
            if hop > self.cursor {
                self.cursor = len - (hop - self.cursor);
            } else {
                self.cursor = self.cursor - hop;
            }
        }
    }

    /// Walks forward in strides of `n` cells until the cursor rests on a zero
    /// cell. A walk that would never meet one is a `Timeout` and leaves the
    /// cursor where it was.
    pub fn search_zero_inc(&mut self, n: usize) -> (r: Result<(), Error>)
        requires
            old(self).wf(),
        ensures
            final(self).wf(),
            old(self)@.cells.len() == 0 ==> r == Err::<(), Error>(Error::OutOfBounds) && final(self)@
                == old(self)@,
            old(self)@.cells.len() > 0 ==> match old(self)@.search_zero(
                n as int,
                old(self)@.cells.len(),
            ) {
                Some(tape) => r == Ok::<(), Error>(()) && final(self)@ == tape,
                None => r == Err::<(), Error>(Error::Timeout) && final(self)@ == old(self)@,
            },
    {
        let len = self.tape.len();
        if len == 0 {
            return Err(Error::OutOfBounds);
        }
        let start = self.cursor;
        let mut hops: usize = 0;
        loop
            invariant
                self.wf(),
                len == self@.cells.len(),
                len > 0,
                hops <= len,
                start == old(self)@.cursor,
                start < len,
                self@.cells == old(self)@.cells,
                old(self)@.search_zero(n as int, len as nat) == self@.search_zero(
                    n as int,
                    (len - hops) as nat,
                ),
            decreases len - hops,
        {
            if self.tape[self.cursor] == 0 {
                return Ok(());
            }
            if hops == len {
                self.cursor = start;
                return Err(Error::Timeout);
            }
            self.inc_cursor(n);
            hops += 1;
        }
    }

    /// Walks back in strides of `n` cells until the cursor rests on a zero
    /// cell. A walk that would never meet one is a `Timeout` and leaves the
    /// cursor where it was.
    pub fn search_zero_dec(&mut self, n: usize) -> (r: Result<(), Error>)
        requires
            old(self).wf(),
        ensures
            final(self).wf(),
            old(self)@.cells.len() == 0 ==> r == Err::<(), Error>(Error::OutOfBounds) && final(self)@
                == old(self)@,
            old(self)@.cells.len() > 0 ==> match old(self)@.search_zero(
                -(n as int),
                old(self)@.cells.len(),
            ) {
                Some(tape) => r == Ok::<(), Error>(()) && final(self)@ == tape,
                None => r == Err::<(), Error>(Error::Timeout) && final(self)@ == old(self)@,
            },
    {
        let len = self.tape.len();
        if len == 0 {
            return Err(Error::OutOfBounds);
        }
        let start = self.cursor;
        let mut hops: usize = 0;
        loop
            invariant
                self.wf(),
                len == self@.cells.len(),
                len > 0,
                hops <= len,
                start == old(self)@.cursor,
                start < len,
                self@.cells == old(self)@.cells,
                old(self)@.search_zero(-(n as int), len as nat) == self@.search_zero(
                    -(n as int),
                    (len - hops) as nat,
                ),
            decreases len - hops,
        {
            if self.tape[self.cursor] == 0 {
                return Ok(());
            }
            if hops == len {
                self.cursor = start;
                return Err(Error::Timeout);
            }
            self.dec_cursor(n);
            hops += 1;
        }
    }

    /// Adds the value under the cursor to the cell `n` cells ahead and clears
    /// the cell under the cursor; a zero there changes nothing.
    pub fn move_data_inc(&mut self, n: usize) -> (r: Result<(), Error>)
        requires
            old(self).wf(),
        ensures
            final(self).wf(),
            old(self)@.cells.len() == 0 ==> r == Err::<(), Error>(Error::OutOfBounds) && final(self)@
                == old(self)@,
            old(self)@.cells.len() > 0 ==> r == Ok::<(), Error>(()) && final(self)@ == old(
                self,
            )@.move_data(n as int),
    {
        let data = match self.read() {
            Ok(data) => data,
            Err(e) => {
                return Err(e);
            },
        };
        if data != 0 {
            let _ = self.write(0);
            self.inc_cursor(n);
            let _ = self.inc_data(data);
            self.dec_cursor(n);
        }
        Ok(())
    }

    /// Adds the value under the cursor to the cell `n` cells behind and
    /// clears the cell under the cursor; a zero there changes nothing.
    pub fn move_data_dec(&mut self, n: usize) -> (r: Result<(), Error>)
        requires
            old(self).wf(),
        ensures
            final(self).wf(),
            old(self)@.cells.len() == 0 ==> r == Err::<(), Error>(Error::OutOfBounds) && final(self)@
                == old(self)@,
            old(self)@.cells.len() > 0 ==> r == Ok::<(), Error>(()) && final(self)@ == old(
                self,
            )@.move_data(-(n as int)),
    {
        let data = match self.read() {
            Ok(data) => data,
            Err(e) => {
                return Err(e);
            },
        };
        if data != 0 {
            let _ = self.write(0);
            self.dec_cursor(n);
            let _ = self.inc_data(data);
            self.inc_cursor(n);
        }
        Ok(())
    }
}

/// `k` increments by one add `k` to the cell under the cursor, modulo 256.
pub proof fn lemma_inc_data_times(tape: TapeState, k: nat)
    requires
        tape.wf(),
        tape.cells.len() > 0,
    ensures
        tape.inc_data_times(k) == tape.with_current(((tape.current() + k) % 256) as u8),
    decreases k,
{
    if k == 0 {
        assert(tape.with_current(tape.current()).cells =~= tape.cells);
    } else {
        let next = tape.inc_data(1);
        lemma_inc_data_times(next, (k - 1) as nat);
        assert(next.with_current(((next.current() + (k - 1)) % 256) as u8).cells
            =~= tape.with_current(((tape.current() + k) % 256) as u8).cells);
    }
}

/// Incrementing a cell 256 times brings it back to the value it had.
pub proof fn lemma_256_increments(tape: TapeState)
    requires
        tape.wf(),
        tape.cells.len() > 0,
    ensures
        tape.inc_data_times(256) == tape,
{
    lemma_inc_data_times(tape, 256);
    assert(tape.with_current(tape.current()).cells =~= tape.cells);
}

/// Moving the cursor by the length of the tape, forward or back, brings it
/// back to the cell it was on.
pub proof fn lemma_full_turn(tape: TapeState)
    requires
        tape.wf(),
    ensures
        tape.inc_cursor(tape.cells.len() as int) == tape,
        tape.dec_cursor(tape.cells.len() as int) == tape,
{
    if tape.cells.len() > 0 {
        let len = tape.cells.len() as int;
        lemma_mod_add_multiples_vanish(tape.cursor, len);
        lemma_mod_sub_multiples_vanish(tape.cursor, len);
        lemma_small_mod(tape.cursor as nat, len as nat);
    }
}

/// A walk that comes to rest does so on a zero cell, with the cells as they
/// were and the cursor on the tape.
pub proof fn lemma_search_keeps_tape(tape: TapeState, stride: int, hops: nat)
    requires
        tape.wf(),
        tape.search_zero(stride, hops) is Some,
    ensures
        tape.search_zero(stride, hops)->Some_0.wf(),
        tape.search_zero(stride, hops)->Some_0.cells == tape.cells,
        tape.search_zero(stride, hops)->Some_0.current() == 0,
    decreases hops,
{
    if tape.current() != 0 && hops > 0 {
        lemma_inc_cursor_wf(tape, stride);
        lemma_search_keeps_tape(tape.inc_cursor(stride), stride, (hops - 1) as nat);
    }
}

/// Moving the cursor keeps it on the tape.
pub proof fn lemma_inc_cursor_wf(tape: TapeState, stride: int)
    requires
        tape.wf(),
    ensures
        tape.inc_cursor(stride).wf(),
        tape.inc_cursor(stride).cells == tape.cells,
{
    if tape.cells.len() > 0 {
        lemma_mod_bound(tape.cursor + stride, tape.cells.len() as int);
    }
}

/// The tape after `k` strides of `stride` cells.
pub open spec fn walk(tape: TapeState, stride: int, k: nat) -> TapeState
    decreases k,
{
    if k == 0 {
        tape
    } else {
        walk(tape.inc_cursor(stride), stride, (k - 1) as nat)
    }
}

/// After `k` strides the cursor is `k * stride` cells from where it was,
/// modulo the length of the tape.
pub proof fn lemma_walk_position(tape: TapeState, stride: int, k: nat)
    requires
        tape.wf(),
        tape.cells.len() > 0,
    ensures
        walk(tape, stride, k) == (TapeState {
            cells: tape.cells,
            cursor: (tape.cursor + k * stride) % (tape.cells.len() as int),
        }),
    decreases k,
{
    let len = tape.cells.len() as int;
    if k == 0 {
        assert(k * stride == 0) by (nonlinear_arith)
            requires
                k == 0,
        ;
        lemma_small_mod(tape.cursor as nat, len as nat);
    } else {
        let next = tape.inc_cursor(stride);
        let rest = (k - 1) * stride;
        lemma_inc_cursor_wf(tape, stride);
        lemma_walk_position(next, stride, (k - 1) as nat);
        assert(walk(tape, stride, k) == walk(next, stride, (k - 1) as nat));
        assert(k * stride == stride + rest) by (nonlinear_arith)
            requires
                rest == (k - 1) * stride,
        ;
        lemma_add_mod_noop(tape.cursor + stride, rest, len);
        lemma_mod_twice(tape.cursor + stride, len);
        lemma_add_mod_noop(next.cursor, rest, len);
        assert((next.cursor + rest) % len == (tape.cursor + k * stride) % len);
    }
}

/// A walk is periodic: as many strides more as the tape has cells lead to
/// the same cell.
pub proof fn lemma_walk_period(tape: TapeState, stride: int, k: nat)
    requires
        tape.wf(),
        tape.cells.len() > 0,
    ensures
        walk(tape, stride, k + tape.cells.len()) == walk(tape, stride, k),
{
    let len = tape.cells.len() as int;
    lemma_walk_position(tape, stride, k);
    lemma_walk_position(tape, stride, k + tape.cells.len());
    assert((k + len) * stride == k * stride + stride * len) by (nonlinear_arith);
    lemma_mod_multiples_vanish(stride, tape.cursor + k * stride, len);
}

/// The search finds no zero cell within `hops` strides exactly when the
/// walk is on a cell that is not zero after each of the first `hops`
/// numbers of strides, none and `hops` included.
pub proof fn lemma_search_none(tape: TapeState, stride: int, hops: nat)
    ensures
        tape.search_zero(stride, hops) is None <==> forall|k: nat|
            k <= hops ==> (#[trigger] walk(tape, stride, k)).current() != 0,
    decreases hops,
{
    if tape.current() == 0 {
        assert(walk(tape, stride, 0) == tape);
    } else if hops == 0 {
        assert forall|k: nat| k <= hops implies (#[trigger] walk(tape, stride, k)).current()
            != 0 by {
            assert(walk(tape, stride, 0) == tape);
        }
    } else {
        let next = tape.inc_cursor(stride);
        lemma_search_none(next, stride, (hops - 1) as nat);
        if tape.search_zero(stride, hops) is None {
            assert forall|k: nat| k <= hops implies (#[trigger] walk(tape, stride, k)).current()
                != 0 by {
                if k > 0 {
                    assert(walk(tape, stride, k) == walk(next, stride, (k - 1) as nat));
                }
            }
        } else {
            let k = choose|k: nat|
                k <= hops - 1 && (#[trigger] walk(next, stride, k)).current() == 0;
            assert(walk(tape, stride, k + 1) == walk(next, stride, k));
        }
    }
}

/// A walk that meets no zero cell within as many strides as the tape has
/// cells meets none at all: no number of strides brings the search to rest.
pub proof fn lemma_search_never_rests(tape: TapeState, stride: int, hops: nat)
    requires
        tape.wf(),
        tape.cells.len() > 0,
        tape.search_zero(stride, tape.cells.len()) is None,
    ensures
        tape.search_zero(stride, hops) is None,
{
    let len = tape.cells.len();
    lemma_search_none(tape, stride, len);
    lemma_search_none(tape, stride, hops);
    assert forall|k: nat| k <= hops implies (#[trigger] walk(tape, stride, k)).current()
        != 0 by {
        lemma_walk_never_zero(tape, stride, k);
    }
}

/// Where the first strides of a walk, as many as the tape has cells, meet
/// no zero cell, no later stride does.
proof fn lemma_walk_never_zero(tape: TapeState, stride: int, k: nat)
    requires
        tape.wf(),
        tape.cells.len() > 0,
        forall|j: nat| j <= tape.cells.len() ==> (#[trigger] walk(tape, stride, j)).current() != 0,
    ensures
        walk(tape, stride, k).current() != 0,
    decreases k,
{
    let len = tape.cells.len();
    if k > len {
        lemma_walk_never_zero(tape, stride, (k - len) as nat);
        lemma_walk_period(tape, stride, (k - len) as nat);
    }
}

/// A search that has come to rest within `hops` strides comes to rest on
/// the same cell within more.
pub proof fn lemma_search_more_hops(tape: TapeState, stride: int, hops: nat, more: nat)
    requires
        hops <= more,
        tape.search_zero(stride, hops) is Some,
    ensures
        tape.search_zero(stride, more) == tape.search_zero(stride, hops),
    decreases hops,
{
    if tape.current() != 0 && hops > 0 {
        lemma_search_more_hops(
            tape.inc_cursor(stride),
            stride,
            (hops - 1) as nat,
            (more - 1) as nat,
        );
    }
}

/// A search that comes to rest at all does so within as many strides as
/// the tape has cells.
pub proof fn lemma_search_bound(tape: TapeState, stride: int, hops: nat)
    requires
        tape.wf(),
        tape.cells.len() > 0,
        tape.search_zero(stride, hops) is Some,
    ensures
        tape.search_zero(stride, tape.cells.len()) == tape.search_zero(stride, hops),
{
    let len = tape.cells.len();
    if tape.search_zero(stride, len) is None {
        lemma_search_never_rests(tape, stride, hops);
    } else if hops <= len {
        lemma_search_more_hops(tape, stride, hops, len);
    } else {
        lemma_search_more_hops(tape, stride, len, hops);
    }
}

/// Going forth by a stride and back by the same brings the cursor back.
pub proof fn lemma_there_and_back(cursor: int, stride: int, len: int)
    requires
        0 <= cursor < len,
    ensures
        (((cursor + stride) % len) - stride) % len == cursor,
{
    lemma_add_mod_noop_right(-stride, cursor + stride, len);
    lemma_small_mod(cursor as nat, len as nat);
}

} // verus!
