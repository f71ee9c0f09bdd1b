use brainfuck::error::Error;
use brainfuck::execute_program;
use brainfuck::input::Input;
use brainfuck::machine::Machine;
use brainfuck::program::Program;
use brainfuck::tape::Tape;

fn run_on(source: &str, input: &str, cells: usize, budget: u64, optimized: bool) -> Result<String, Error> {
    let program = Program::from_str(source).unwrap();
    let program = if optimized { program.optimize_loop() } else { program };
    let mut machine = Machine::new(program, Tape::new(cells))?;
    machine.execute(Input::new(input), budget)
}

#[test]
fn hello_world() {
    let program_str = r#">++++++++[<+++++++++>-]<.>++++[<+++++++>-]<+.+++++++..+++.>>++++++[<+++++++>-]<++.------------.>++++++[<+++++++++>-]<+.<.+++.------.--------.>>>++++[<++++++++>-]<+."#;
    assert_eq!(
        execute_program(program_str, ""),
        Ok(String::from("Hello, World!"))
    );
}

#[test]
fn hello_world_with_nested_loops() {
    let program_str = "++++++++[>++++[>++>+++>+++>+<<<<-]>+>+>->>+[<]<-]>>.>---.+++++++..+++.>>.<-.<.+++.------.--------.>>+.>++.";
    assert_eq!(
        execute_program(program_str, ""),
        Ok(String::from("Hello World!\n"))
    );
}

#[test]
fn echoes_one_byte_of_input() {
    assert_eq!(execute_program(",.", "A"), Ok(String::from("A")));
}

#[test]
fn lone_loop_start_is_unmatched() {
    assert_eq!(execute_program("[", ""), Err(Error::UnmatchedLoopStart));
}

#[test]
fn lone_loop_end_is_unmatched() {
    assert_eq!(execute_program("]", ""), Err(Error::UnmatchedLoopEnd));
}

#[test]
fn walk_round_the_tape_stays_in_bounds() {
    assert_eq!(execute_program("+[>+]", ""), Ok(String::new()));
}

#[test]
fn loop_end_without_start_is_reported_before_open_loop() {
    assert_eq!(execute_program("[[]]][", ""), Err(Error::UnmatchedLoopEnd));
    assert_eq!(execute_program("[[]", ""), Err(Error::UnmatchedLoopStart));
    assert_eq!(execute_program("][", ""), Err(Error::UnmatchedLoopEnd));
}

#[test]
fn nothing_runs_when_brackets_are_unbalanced() {
    assert_eq!(execute_program("+++.[", ""), Err(Error::UnmatchedLoopStart));
}

#[test]
fn empty_program_puts_out_nothing() {
    assert_eq!(execute_program("", "abc"), Ok(String::new()));
    assert_eq!(execute_program("no symbols here", ""), Ok(String::new()));
}

#[test]
fn input_past_its_end_reads_as_zero() {
    assert_eq!(execute_program(",.,.,.", "hi"), Ok(String::from("hi\0")));
    assert_eq!(execute_program(",+.", ""), Ok(String::from("\u{1}")));
}

#[test]
fn input_is_read_byte_by_byte() {
    // 'é' is two bytes in UTF-8: 0xC3 0xA9.
    assert_eq!(execute_program(",.,.", "é"), Ok(String::from("\u{c3}\u{a9}")));
}

#[test]
fn output_byte_is_the_code_point() {
    assert_eq!(execute_program("-.", ""), Ok(String::from("\u{ff}")));
    assert_eq!(execute_program("++++++++[>++++++++<-]>+.", ""), Ok(String::from("A")));
}

#[test]
fn cell_wraps_after_256_increments() {
    let source = "+".repeat(256) + ".";
    assert_eq!(execute_program(&source, ""), Ok(String::from("\0")));
    let source = "+++".to_string() + &"+".repeat(256) + ".";
    assert_eq!(execute_program(&source, ""), Ok(String::from("\u{3}")));
    assert_eq!(execute_program("+.-.-.", ""), Ok(String::from("\u{1}\0\u{ff}")));
}

#[test]
fn cursor_wraps_at_both_ends_of_the_tape() {
    // Back from the first cell is the last cell; forward again is the first.
    assert_eq!(execute_program("+<++>.<.", ""), Ok(String::from("\u{1}\u{2}")));
    assert_eq!(run_on("+>>>>>.", "", 5, 1000, true), Ok(String::from("\u{1}")));
    assert_eq!(run_on("+>>>>>>>.", "", 5, 1000, true), Ok(String::from("\0")));
    assert_eq!(run_on("+<<<<<<<<<<<.", "", 5, 1000, true), Ok(String::from("\0")));
    assert_eq!(run_on("+<<<<<<<<<<.", "", 5, 1000, true), Ok(String::from("\u{1}")));
}

#[test]
fn tape_without_cells_is_out_of_bounds() {
    assert_eq!(run_on("+", "", 0, 1000, true), Err(Error::OutOfBounds));
    assert_eq!(run_on(".", "", 0, 1000, true), Err(Error::OutOfBounds));
    assert_eq!(run_on(",", "a", 0, 1000, true), Err(Error::OutOfBounds));
    assert_eq!(run_on("[-]", "", 0, 1000, true), Err(Error::OutOfBounds));
    assert_eq!(run_on("[>]", "", 0, 1000, true), Err(Error::OutOfBounds));
    assert_eq!(run_on("[->+<]", "", 0, 1000, true), Err(Error::OutOfBounds));
    assert_eq!(run_on("[]", "", 0, 1000, false), Err(Error::OutOfBounds));
    // Moving the cursor touches no cell.
    assert_eq!(run_on("><", "", 0, 1000, true), Ok(String::new()));
}

#[test]
fn budget_ends_a_program_that_does_not() {
    assert_eq!(run_on("+[]", "", 10, 1000, true), Err(Error::Timeout));
    assert_eq!(run_on("+[]", "", 10, 0, true), Err(Error::Timeout));
}

#[test]
fn budget_counts_commands() {
    // Three commands: `+++` folds into one.
    assert_eq!(run_on("+++..", "", 10, 3, true), Ok(String::from("\u{3}\u{3}")));
    assert_eq!(run_on("+++..", "", 10, 2, true), Err(Error::Timeout));
    // An empty program needs no budget.
    assert_eq!(run_on("", "", 10, 0, true), Ok(String::new()));
}

#[test]
fn search_that_meets_no_zero_is_a_timeout() {
    assert_eq!(run_on("+[>]", "", 1, 1000, true), Err(Error::Timeout));
    assert_eq!(run_on("+>+<[>>]", "", 2, 1000, true), Err(Error::Timeout));
    assert_eq!(run_on("+[<]", "", 1, 1000, true), Err(Error::Timeout));
}

#[test]
fn search_comes_to_rest_on_first_zero() {
    // Cells 1 1 1 0 1: from cell 0 forward the walk rests on cell 3.
    assert_eq!(run_on("+>+>+>>+<<<<[>]+++.", "", 8, 1000, true), Ok(String::from("\u{3}")));
    // Back from cell 4 in strides of two: cells 4, 2, 0 hold 1, then cell 6 holds 0.
    assert_eq!(run_on("+>>+>>+[<<]++.", "", 8, 1000, true), Ok(String::from("\u{2}")));
    // A zero under the cursor: the walk does not move.
    assert_eq!(run_on("[>]+.>.", "", 8, 1000, true), Ok(String::from("\u{1}\0")));
}

#[test]
fn move_adds_to_the_target_and_clears_the_source() {
    assert_eq!(run_on("+++>>++<<[->>+<<].>>.", "", 8, 1000, true), Ok(String::from("\0\u{5}")));
    assert_eq!(run_on(">>+++<<++>>[-<<+>>].<<.", "", 8, 1000, true), Ok(String::from("\0\u{5}")));
    // A zero source changes nothing.
    assert_eq!(run_on(">++<[->+<].>.", "", 8, 1000, true), Ok(String::from("\0\u{2}")));
    // The sum wraps.
    let source = "-".to_string() + ">++<[->+<]>.";
    assert_eq!(run_on(&source, "", 8, 1000, true), Ok(String::from("\u{1}")));
}

#[test]
fn optimized_and_plain_programs_put_out_the_same() {
    let programs = [
        "++++++++[>++++[>++>+++>+++>+<<<<-]>+>+>->>+[<]<-]>>.>---.+++++++..+++.>>.<-.<.+++.------.--------.>>+.>++.",
        ">++++++++[<+++++++++>-]<.>++++[<+++++++>-]<+.+++++++..+++.",
        "+++++[-]+.",
        "+++++[+]+.",
        "+>+>+>>+<<<<[>]+.>.",
        "+>>+>>+[<<]+.",
        "+++>>++<<[->>+<<].>>.",
        ">>+++<<++>>[-<<+>>].<<.",
        ",[->+<]>.",
        ",[.,]",
        ",>,<[->>+<<]>[->+<]>.",
        "+[[-]]+.",
        "++[>+[-]<-]>.",
    ];
    for source in programs {
        for input in ["", "A", "hello", "\u{ff}\u{1}"] {
            let plain = run_on(source, input, 64, 1_000_000, false);
            let optimized = run_on(source, input, 64, 1_000_000, true);
            assert!(plain.is_ok());
            assert_eq!(plain, optimized);
        }
    }
}

#[test]
fn machine_can_be_stepped_by_hand() {
    let program = Program::from_str("+.").unwrap();
    let mut machine = Machine::new(program, Tape::new(4)).unwrap();
    let mut input = Input::new("");
    let mut output = String::new();
    assert!(!machine.is_end_of_program());
    assert_eq!(machine.step(&mut input, &mut output), Ok(()));
    assert_eq!(output, "");
    assert_eq!(machine.step(&mut input, &mut output), Ok(()));
    assert_eq!(output, "\u{1}");
    assert!(machine.is_end_of_program());
    // At its end a machine puts out nothing more.
    assert_eq!(machine.execute(Input::new(""), 10), Ok(String::new()));
}
