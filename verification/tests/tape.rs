use brainfuck::error::Error;
use brainfuck::input::Input;
use brainfuck::tape::Tape;
use brainfuck::{STEP_BUDGET, TAPE_SIZE};

#[test]
fn fresh_tape_is_zero_with_cursor_at_start() {
    let mut tape = Tape::new(4);
    assert_eq!(tape.len(), 4);
    assert_eq!(tape.cursor(), 0);
    for _ in 0..4 {
        assert_eq!(tape.read(), Ok(0));
        tape.inc_cursor(1);
    }
    assert_eq!(tape.cursor(), 0);
}

#[test]
fn write_then_read() {
    let mut tape = Tape::new(3);
    assert_eq!(tape.write(42), Ok(()));
    assert_eq!(tape.read(), Ok(42));
    tape.inc_cursor(1);
    assert_eq!(tape.read(), Ok(0));
    tape.dec_cursor(1);
    assert_eq!(tape.read(), Ok(42));
}

#[test]
fn data_wraps_modulo_256() {
    let mut tape = Tape::new(1);
    assert_eq!(tape.inc_data(250), Ok(()));
    assert_eq!(tape.inc_data(10), Ok(()));
    assert_eq!(tape.read(), Ok(4));
    assert_eq!(tape.dec_data(5), Ok(()));
    assert_eq!(tape.read(), Ok(255));
    assert_eq!(tape.dec_data(255), Ok(()));
    assert_eq!(tape.read(), Ok(0));
}

#[test]
fn increments_by_one_come_round_after_256() {
    for start in [0u8, 1, 77, 255] {
        let mut tape = Tape::new(2);
        assert_eq!(tape.write(start), Ok(()));
        for _ in 0..256 {
            assert_eq!(tape.inc_data(1), Ok(()));
        }
        assert_eq!(tape.read(), Ok(start));
        for _ in 0..256 {
            assert_eq!(tape.dec_data(1), Ok(()));
        }
        assert_eq!(tape.read(), Ok(start));
    }
}

#[test]
fn cursor_wraps_modulo_the_length() {
    let mut tape = Tape::new(10);
    tape.inc_cursor(25);
    assert_eq!(tape.cursor(), 5);
    tape.inc_cursor(5);
    assert_eq!(tape.cursor(), 0);
    tape.dec_cursor(3);
    assert_eq!(tape.cursor(), 7);
    tape.dec_cursor(27);
    assert_eq!(tape.cursor(), 0);
    tape.dec_cursor(10);
    assert_eq!(tape.cursor(), 0);
    tape.inc_cursor(usize::MAX);
    assert_eq!(tape.cursor(), usize::MAX % 10);
    tape.dec_cursor(usize::MAX);
    assert_eq!(tape.cursor(), 0);
}

#[test]
fn full_turn_comes_back() {
    let mut tape = Tape::new(TAPE_SIZE);
    tape.inc_cursor(123);
    tape.inc_cursor(TAPE_SIZE);
    assert_eq!(tape.cursor(), 123);
    tape.dec_cursor(TAPE_SIZE);
    assert_eq!(tape.cursor(), 123);
    tape.dec_cursor(124);
    assert_eq!(tape.cursor(), TAPE_SIZE - 1);
    tape.inc_cursor(1);
    assert_eq!(tape.cursor(), 0);
}

#[test]
fn tape_without_cells_has_nothing_to_read() {
    let mut tape = Tape::new(0);
    assert_eq!(tape.len(), 0);
    assert_eq!(tape.read(), Err(Error::OutOfBounds));
    assert_eq!(tape.write(1), Err(Error::OutOfBounds));
    assert_eq!(tape.inc_data(1), Err(Error::OutOfBounds));
    assert_eq!(tape.dec_data(1), Err(Error::OutOfBounds));
    assert_eq!(tape.search_zero_inc(1), Err(Error::OutOfBounds));
    assert_eq!(tape.search_zero_dec(1), Err(Error::OutOfBounds));
    assert_eq!(tape.move_data_inc(1), Err(Error::OutOfBounds));
    assert_eq!(tape.move_data_dec(1), Err(Error::OutOfBounds));
    tape.inc_cursor(5);
    tape.dec_cursor(7);
    assert_eq!(tape.cursor(), 0);
}

fn tape_of(cells: &[u8]) -> Tape {
    let mut tape = Tape::new(cells.len());
    for &cell in cells {
        tape.write(cell).unwrap();
        tape.inc_cursor(1);
    }
    tape
}

fn cells_of(tape: &mut Tape) -> Vec<u8> {
    let at = tape.cursor();
    tape.dec_cursor(at);
    let mut cells = Vec::new();
    for _ in 0..tape.len() {
        cells.push(tape.read().unwrap());
        tape.inc_cursor(1);
    }
    tape.inc_cursor(at);
    cells
}

#[test]
fn search_rests_on_the_first_zero_in_its_strides() {
    let mut tape = tape_of(&[1, 0, 1, 1, 0, 1]);
    assert_eq!(tape.search_zero_inc(2), Ok(()));
    assert_eq!(tape.cursor(), 4);
    // Already on a zero: no move.
    assert_eq!(tape.search_zero_inc(1), Ok(()));
    assert_eq!(tape.cursor(), 4);
    tape.inc_cursor(1);
    // From 5 back in strides of two: 5, 3, 1.
    assert_eq!(tape.search_zero_dec(2), Ok(()));
    assert_eq!(tape.cursor(), 1);
}

#[test]
fn search_wraps_round_the_tape() {
    let mut tape = tape_of(&[0, 1, 1, 1]);
    tape.inc_cursor(2);
    assert_eq!(tape.search_zero_inc(1), Ok(()));
    assert_eq!(tape.cursor(), 0);
    let mut tape = tape_of(&[1, 1, 1, 0]);
    tape.inc_cursor(1);
    assert_eq!(tape.search_zero_dec(1), Ok(()));
    assert_eq!(tape.cursor(), 3);
}

#[test]
fn search_without_a_zero_in_reach_leaves_the_cursor() {
    let mut tape = tape_of(&[1, 0, 1, 0]);
    // Strides of two from cell 0 see cells 0 and 2 only.
    assert_eq!(tape.search_zero_inc(2), Err(Error::Timeout));
    assert_eq!(tape.cursor(), 0);
    assert_eq!(tape.search_zero_dec(2), Err(Error::Timeout));
    assert_eq!(tape.cursor(), 0);
    assert_eq!(tape.search_zero_inc(4), Err(Error::Timeout));
    assert_eq!(tape.search_zero_inc(0), Err(Error::Timeout));
    assert_eq!(cells_of(&mut tape), vec![1, 0, 1, 0]);
    // A stride that reaches every cell finds the zero.
    assert_eq!(tape.search_zero_inc(3), Ok(()));
    assert_eq!(tape.cursor(), 3);
}

#[test]
fn move_transfers_the_value() {
    let mut tape = tape_of(&[3, 0, 2, 0]);
    assert_eq!(tape.move_data_inc(2), Ok(()));
    assert_eq!(tape.cursor(), 0);
    assert_eq!(cells_of(&mut tape), vec![0, 0, 5, 0]);
    tape.inc_cursor(2);
    assert_eq!(tape.move_data_dec(3), Ok(()));
    assert_eq!(tape.cursor(), 2);
    assert_eq!(cells_of(&mut tape), vec![0, 0, 0, 5]);
    // A zero source: nothing happens.
    assert_eq!(tape.move_data_inc(1), Ok(()));
    assert_eq!(cells_of(&mut tape), vec![0, 0, 0, 5]);
}

#[test]
fn move_wraps_sum_and_cursor() {
    let mut tape = tape_of(&[200, 100]);
    assert_eq!(tape.move_data_inc(3), Ok(()));
    assert_eq!(cells_of(&mut tape), vec![0, 44]);
    assert_eq!(tape.cursor(), 0);
    // A stride of the tape's length lands on the cell itself.
    let mut tape = tape_of(&[7, 1]);
    assert_eq!(tape.move_data_inc(2), Ok(()));
    assert_eq!(cells_of(&mut tape), vec![7, 1]);
}

#[test]
fn input_yields_its_bytes_then_zero() {
    let mut input = Input::new("ab");
    assert_eq!(input.read(), b'a');
    assert_eq!(input.read(), b'b');
    assert_eq!(input.read(), 0);
    assert_eq!(input.read(), 0);
    let mut empty = Input::new("");
    assert_eq!(empty.read(), 0);
    let mut wide = Input::new("€");
    assert_eq!(wide.read(), 0xe2);
    assert_eq!(wide.read(), 0x82);
    assert_eq!(wide.read(), 0xac);
    assert_eq!(wide.read(), 0);
}

#[test]
fn constants_are_as_documented() {
    assert_eq!(TAPE_SIZE, 30000);
    assert_eq!(STEP_BUDGET, u64::MAX);
}
