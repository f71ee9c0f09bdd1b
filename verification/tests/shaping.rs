use brainfuck::shaping::{
    buffer_text, plan_glyphs, run_buffer, shape_codepoints, split_source, Placement,
};

fn codepoints_of(text: &str) -> Vec<u32> {
    text.bytes().map(|b| b as u32).collect()
}

fn placement(character: char, cluster: u32, ends_line: bool) -> Placement {
    Placement { character, cluster, ends_line }
}

#[test]
fn low_byte_of_each_code_point_is_a_character() {
    assert_eq!(buffer_text(&vec![]), "");
    assert_eq!(
        buffer_text(&vec![0x41, 0x100, 0x1ff, 0x10023, u32::MAX]),
        "A\0\u{ff}#\u{ff}"
    );
    assert_eq!(buffer_text(&codepoints_of("+.#in")), "+.#in");
}

#[test]
fn text_parts_at_the_first_hash() {
    assert_eq!(
        split_source(",.#A"),
        (String::from(",."), String::from("A\n"))
    );
    assert_eq!(
        split_source(",.#a#b"),
        (String::from(",."), String::from("a#b\n"))
    );
    assert_eq!(split_source("#"), (String::new(), String::from("\n")));
    assert_eq!(split_source("+.#"), (String::from("+."), String::from("\n")));
    assert_eq!(split_source("#x"), (String::new(), String::from("x\n")));
}

#[test]
fn text_without_hash_is_all_program() {
    assert_eq!(split_source("+."), (String::from("+."), String::new()));
    assert_eq!(split_source(""), (String::new(), String::new()));
}

#[test]
fn buffer_text_is_run() {
    assert_eq!(run_buffer(",.#A"), "A");
    assert_eq!(run_buffer(",.,.#A"), "A\n");
    assert_eq!(run_buffer(",."), "\0");
    assert_eq!(run_buffer(""), "");
    assert_eq!(
        run_buffer("++++++++[>++++++++<-]>+.+.+."),
        "ABC"
    );
}

#[test]
fn failed_execution_is_the_word_error() {
    assert_eq!(run_buffer("["), "error");
    assert_eq!(run_buffer("]#input"), "error");
}

#[test]
fn line_feeds_get_no_glyph_and_mark_the_one_before() {
    assert_eq!(
        plan_glyphs("ab\ncd"),
        vec![
            placement('a', 0, false),
            placement('b', 1, true),
            placement('c', 3, false),
            placement('d', 4, false),
        ]
    );
    assert_eq!(
        plan_glyphs("a\n\nb\n"),
        vec![placement('a', 0, true), placement('b', 3, true)]
    );
    assert_eq!(plan_glyphs("\n\n"), vec![]);
    assert_eq!(plan_glyphs(""), vec![]);
    assert_eq!(plan_glyphs("\nx"), vec![placement('x', 1, false)]);
}

#[test]
fn cluster_counts_characters() {
    assert_eq!(
        plan_glyphs("é\u{ff}z"),
        vec![
            placement('é', 0, false),
            placement('\u{ff}', 1, false),
            placement('z', 2, false),
        ]
    );
}

#[test]
fn buffer_is_shaped_from_its_code_points() {
    assert_eq!(
        shape_codepoints(&codepoints_of(",.#A")),
        vec![placement('A', 0, false)]
    );
    assert_eq!(
        shape_codepoints(&codepoints_of(",.,.,.#A")),
        vec![placement('A', 0, true), placement('\0', 2, false)]
    );
    assert_eq!(
        shape_codepoints(&codepoints_of("[")),
        vec![
            placement('e', 0, false),
            placement('r', 1, false),
            placement('r', 2, false),
            placement('o', 3, false),
            placement('r', 4, false),
        ]
    );
    assert_eq!(shape_codepoints(&vec![]), vec![]);
}

#[test]
fn only_the_low_byte_of_a_code_point_counts() {
    // 0x12b is `+` in its low byte; 0x22e is `.`.
    assert_eq!(
        shape_codepoints(&vec![0x12b, 0x22e]),
        vec![placement('\u{1}', 0, false)]
    );
}

#[test]
fn high_bytes_are_characters_too() {
    // The byte 0xff is the character U+00FF, which the program reads as the
    // two bytes of its UTF-8 form, 0xc3 and 0xbf.
    assert_eq!(
        shape_codepoints(&vec![0x2c, 0x2e, 0x2c, 0x2e, 0x23, 0xff]),
        vec![placement('\u{c3}', 0, false), placement('\u{bf}', 1, false)]
    );
    // In the program it is commentary.
    assert_eq!(
        shape_codepoints(&vec![0xff, 0x2b, 0xfe, 0x2e]),
        vec![placement('\u{1}', 0, false)]
    );
}
