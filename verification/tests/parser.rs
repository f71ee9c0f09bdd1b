use brainfuck::command::Command;
use brainfuck::program::Program;

fn parse(source: &str) -> Vec<Command> {
    Program::from_str(source).unwrap().0
}

#[test]
fn each_symbol_gives_its_command() {
    assert_eq!(
        parse("><+-.,[]"),
        vec![
            Command::IncCursor(1),
            Command::DecCursor(1),
            Command::IncData(1),
            Command::DecData(1),
            Command::PutChar,
            Command::GetChar,
            Command::LoopStart,
            Command::LoopEnd,
        ]
    );
}

#[test]
fn runs_fold_into_one_command_with_the_count() {
    for n in 1..=255usize {
        assert_eq!(parse(&">".repeat(n)), vec![Command::IncCursor(n)]);
        assert_eq!(parse(&"<".repeat(n)), vec![Command::DecCursor(n)]);
        assert_eq!(parse(&"+".repeat(n)), vec![Command::IncData(n as u8)]);
        assert_eq!(parse(&"-".repeat(n)), vec![Command::DecData(n as u8)]);
    }
}

#[test]
fn arithmetic_counts_are_kept_modulo_256() {
    assert_eq!(parse(&"+".repeat(256)), vec![Command::IncData(0)]);
    assert_eq!(parse(&"+".repeat(257)), vec![Command::IncData(1)]);
    assert_eq!(parse(&"-".repeat(600)), vec![Command::DecData(88)]);
    assert_eq!(parse(&">".repeat(256)), vec![Command::IncCursor(256)]);
    assert_eq!(parse(&"<".repeat(30001)), vec![Command::DecCursor(30001)]);
}

#[test]
fn commentary_is_skipped_and_does_not_end_a_run() {
    assert_eq!(parse("+ a + b\n+"), vec![Command::IncData(3)]);
    assert_eq!(parse("hello > world > ! >"), vec![Command::IncCursor(3)]);
    assert_eq!(parse("  x  "), vec![]);
    assert_eq!(parse(""), vec![]);
    assert_eq!(parse("é+ü+"), vec![Command::IncData(2)]);
}

#[test]
fn another_symbol_ends_a_run() {
    assert_eq!(
        parse("++-++"),
        vec![Command::IncData(2), Command::DecData(1), Command::IncData(2)]
    );
    assert_eq!(
        parse(">>.>>"),
        vec![Command::IncCursor(2), Command::PutChar, Command::IncCursor(2)]
    );
    assert_eq!(
        parse("+ [ +"),
        vec![Command::IncData(1), Command::LoopStart, Command::IncData(1)]
    );
}

#[test]
fn brackets_and_io_never_fold() {
    assert_eq!(parse("[["), vec![Command::LoopStart, Command::LoopStart]);
    assert_eq!(parse("]]"), vec![Command::LoopEnd, Command::LoopEnd]);
    assert_eq!(parse(".."), vec![Command::PutChar, Command::PutChar]);
    assert_eq!(parse(",,"), vec![Command::GetChar, Command::GetChar]);
}

#[test]
fn parsing_refuses_no_text() {
    assert!(Program::from_str("]]][[[").is_ok());
    assert!(Program::from_str("\u{0}\u{10ffff}").is_ok());
}
