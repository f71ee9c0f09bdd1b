use brainfuck::command::Command;
use brainfuck::optimizer::Rewrite;
use brainfuck::program::Program;

fn optimized(source: &str) -> Vec<Command> {
    Program::from_str(source).unwrap().optimize_loop().0
}

fn parsed(source: &str) -> Vec<Command> {
    Program::from_str(source).unwrap().0
}

#[test]
fn clear_loops_become_clear() {
    assert_eq!(optimized("[-]"), vec![Command::ClearData]);
    assert_eq!(optimized("[+]"), vec![Command::ClearData]);
    assert_eq!(
        optimized("+[-]."),
        vec![Command::IncData(1), Command::ClearData, Command::PutChar]
    );
}

#[test]
fn walking_loops_become_searches() {
    assert_eq!(optimized("[>]"), vec![Command::SearchZeroInc(1)]);
    assert_eq!(optimized("[>>>]"), vec![Command::SearchZeroInc(3)]);
    assert_eq!(optimized("[<]"), vec![Command::SearchZeroDec(1)]);
    assert_eq!(optimized("[<<]"), vec![Command::SearchZeroDec(2)]);
}

#[test]
fn transfer_loops_become_moves() {
    assert_eq!(optimized("[->+<]"), vec![Command::MoveDataInc(1)]);
    assert_eq!(optimized("[->>>+<<<]"), vec![Command::MoveDataInc(3)]);
    assert_eq!(optimized("[-<+>]"), vec![Command::MoveDataDec(1)]);
    assert_eq!(optimized("[-<<+>>]"), vec![Command::MoveDataDec(2)]);
}

#[test]
fn unequal_strides_are_no_move() {
    assert_eq!(optimized("[->+<<]"), parsed("[->+<<]"));
    assert_eq!(optimized("[-<<+>]"), parsed("[-<<+>]"));
}

#[test]
fn near_misses_are_left_alone() {
    for source in [
        "[--]", "[++]", "[-", "[", "[>", "[]", "[.]", "[,]", "[->+<", "[+>+<]", "[->-<]",
        "[->+>]", "[-<+<]", "[->++<]", "[-->+<]", "[[-]", "-]", "[->+<.]", "[>+]",
    ] {
        let plain = parsed(source);
        let rewritten = optimized(source);
        if source == "[[-]" {
            assert_eq!(rewritten, vec![Command::LoopStart, Command::ClearData]);
        } else {
            assert_eq!(rewritten, plain, "{}", source);
        }
    }
}

#[test]
fn program_without_idiom_is_unchanged() {
    for source in [
        "",
        "+++>>><<<---.,",
        "++++++++[>++++++++<-]>+.",
        ",[.,]",
        "+[>+]",
        "[[][]]",
    ] {
        assert_eq!(optimized(source), parsed(source));
    }
}

#[test]
fn pass_goes_on_behind_an_idiom() {
    assert_eq!(
        optimized("[-][>][->+<]+"),
        vec![
            Command::ClearData,
            Command::SearchZeroInc(1),
            Command::MoveDataInc(1),
            Command::IncData(1),
        ]
    );
    assert_eq!(
        optimized("[[-]>]"),
        vec![
            Command::LoopStart,
            Command::ClearData,
            Command::IncCursor(1),
            Command::LoopEnd,
        ]
    );
}

#[test]
fn one_pass_only() {
    // What the pass puts out is not looked at again.
    let once = Program::from_str("[[-]]").unwrap().optimize_loop();
    assert_eq!(
        once.0,
        vec![Command::LoopStart, Command::ClearData, Command::LoopEnd]
    );
    let twice = once.optimize_loop();
    assert_eq!(
        twice.0,
        vec![Command::LoopStart, Command::ClearData, Command::LoopEnd]
    );
}

#[test]
fn find_idiom_names_composite_and_span() {
    let program = Program::from_str("+[-][->>+<<]").unwrap();
    assert_eq!(program.find_idiom(0), None);
    assert_eq!(
        program.find_idiom(1),
        Some(Rewrite { composite: Command::ClearData, span: 3 })
    );
    assert_eq!(program.find_idiom(2), None);
    assert_eq!(
        program.find_idiom(4),
        Some(Rewrite { composite: Command::MoveDataInc(2), span: 6 })
    );
    assert_eq!(program.find_idiom(9), None);
}

#[test]
fn composites_already_there_are_kept() {
    let program = Program(vec![
        Command::ClearData,
        Command::SearchZeroDec(4),
        Command::MoveDataDec(2),
    ]);
    assert_eq!(
        program.optimize_loop().0,
        vec![
            Command::ClearData,
            Command::SearchZeroDec(4),
            Command::MoveDataDec(2),
        ]
    );
}
