use brainfuck::error::Error;
use brainfuck::jump_table::JumpTable;
use brainfuck::program::{Program, ProgramCounter};

fn build(source: &str) -> Result<JumpTable, Error> {
    JumpTable::build(&Program::from_str(source).unwrap())
}

fn partner(table: &JumpTable, index: usize) -> usize {
    table.find(ProgramCounter::from(index)).index()
}

#[test]
fn pairs_lead_to_each_other() {
    // Indices:  0 1 2 3 4 5
    let table = build("[[][]]").unwrap();
    assert_eq!(partner(&table, 0), 5);
    assert_eq!(partner(&table, 5), 0);
    assert_eq!(partner(&table, 1), 2);
    assert_eq!(partner(&table, 2), 1);
    assert_eq!(partner(&table, 3), 4);
    assert_eq!(partner(&table, 4), 3);
}

#[test]
fn indices_count_commands_not_characters() {
    // `+++` is one command: the brackets stand at 1 and 3.
    let table = build("+++[---]").unwrap();
    assert_eq!(partner(&table, 1), 3);
    assert_eq!(partner(&table, 3), 1);
}

#[test]
fn every_bracket_comes_back_through_its_partner() {
    let source = "[[[]][[][]]][][[[[]]]]";
    let table = build(source).unwrap();
    for index in 0..source.len() {
        let there = partner(&table, index);
        assert_eq!(partner(&table, there), index);
        assert_ne!(there, index);
    }
}

#[test]
fn open_loop_is_unmatched_loop_start() {
    for source in ["[", "[[]", "[][", "+[>+", "[[[[]]]"] {
        assert_eq!(build(source).err(), Some(Error::UnmatchedLoopStart), "{}", source);
    }
}

#[test]
fn loop_end_in_front_is_unmatched_loop_end() {
    for source in ["]", "[]]", "][", "]]][[[", "+]-[", "[[]]]["] {
        assert_eq!(build(source).err(), Some(Error::UnmatchedLoopEnd), "{}", source);
    }
}

#[test]
fn balanced_brackets_build() {
    for source in ["", "+-<>.,", "[]", "[[]]", "[][]", "+[>[-]<-]"] {
        assert!(build(source).is_ok(), "{}", source);
    }
}

#[test]
fn program_counter_counts() {
    let mut pc = ProgramCounter::from(0);
    assert_eq!(pc.index(), 0);
    pc.inc();
    pc.inc();
    assert_eq!(pc.index(), 2);
    assert_eq!(pc, ProgramCounter::from(2));
    assert!(ProgramCounter::from(1) < pc);
    let copy = pc;
    assert_eq!(copy, pc);
}

#[test]
fn program_is_read_by_counter() {
    let program = Program::from_str("+>.").unwrap();
    assert_eq!(
        program.read(ProgramCounter::from(1)),
        brainfuck::command::Command::IncCursor(1)
    );
    assert_eq!(
        program.read(ProgramCounter::from(2)),
        brainfuck::command::Command::PutChar
    );
}
