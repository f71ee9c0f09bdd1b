use vstd::prelude::*;
use vstd::utf8::encode_utf8;
use crate::execute_program;
use crate::result_of;
use crate::semantics::as_chars;
use crate::text::{chars_of, push_char};
use crate::{STEP_BUDGET, TAPE_SIZE};

verus! {

/// The text in a glyph buffer: the low byte of each code point, taken as
/// the character of that code point.
pub open spec fn buffer_text_of(codepoints: Seq<u32>) -> Seq<char> {
    codepoints.map_values(|c: u32| ((c % 256) as u8) as char)
}

/// Index of the first `#` of `text` at or after `from`; the length of
/// `text` when there is none.
pub open spec fn first_hash(text: Seq<char>, from: int) -> int
    decreases text.len() - from,
{
    if from < 0 || from >= text.len() {
        text.len() as int
    } else if text[from] == '#' {
        from
    } else {
        first_hash(text, from + 1)
    }
}

/// The program in a buffer text: what stands in front of the first `#`.
pub open spec fn program_part(text: Seq<char>) -> Seq<char> {
    text.take(first_hash(text, 0))
}

/// The input in a buffer text: what stands behind the first `#`, closed by
/// a line feed; nothing when the text has no `#`.
pub open spec fn input_part(text: Seq<char>) -> Seq<char> {
    if first_hash(text, 0) < text.len() {
        text.skip(first_hash(text, 0) + 1).push('\n')
    } else {
        Seq::empty()
    }
}

/// What a buffer text is shaped to: the output of its program on its input,
/// or the word `error` when the execution fails.
pub open spec fn shaped_output(text: Seq<char>) -> Seq<char> {
    match result_of(
        program_part(text),
        encode_utf8(input_part(text)),
        TAPE_SIZE as nat,
        STEP_BUDGET as nat,
    ) {
        Ok(bytes) => as_chars(bytes),
        Err(_) => "error"@,
    }
}

/// One glyph to be laid out.
#[derive(Debug, Clone, Copy, PartialEq, Eq, Structural)]
pub struct Placement {
    /// The character whose glyph it is.
    pub character: char,
    /// Index of the character in the output, modulo 2^32.
    pub cluster: u32,
    /// Whether a line feed follows: the glyph then ends its line.
    pub ends_line: bool,
}

/// The placement of the character at `i` of `text`.
pub open spec fn placement_at(text: Seq<char>, i: int) -> Placement {
    Placement {
        character: text[i],
        cluster: (i % 0x1_0000_0000) as u32,
        ends_line: i + 1 < text.len() && text[i + 1] == '\n',
    }
}

/// The placements of the characters of `text` from `i` on: one for each
/// character but the line feeds, in order.
pub open spec fn placements_from(text: Seq<char>, i: int) -> Seq<Placement>
    decreases text.len() - i,
{
    if i < 0 || i >= text.len() {
        Seq::empty()
    } else if text[i] == '\n' {
        placements_from(text, i + 1)
    } else {
        seq![placement_at(text, i)] + placements_from(text, i + 1)
    }
}

/// The text in a glyph buffer: one character for each code point, which
/// is the code point's low byte.
pub fn buffer_text(codepoints: &Vec<u32>) -> (text: String)
    ensures
        text@ == buffer_text_of(codepoints@),
{
    let mut text = String::new();
    let mut idx: usize = 0;
    assert(text@ =~= buffer_text_of(codepoints@.take(0)));
    while idx < codepoints.len()
        invariant
            idx <= codepoints@.len(),
            text@ == buffer_text_of(codepoints@.take(idx as int)),
        decreases codepoints@.len() - idx,
    {
        let low = (codepoints[idx] % 256) as u8;
        push_char(&mut text, low as char);
        idx += 1;
        assert(text@ =~= buffer_text_of(codepoints@.take(idx as int)));
    }
    assert(codepoints@.take(idx as int) =~= codepoints@);
    text
}

/// Parts a buffer text into program and input at its first `#`. The input
/// is closed by a line feed; a text without `#` is all program and has no
/// input.
pub fn split_source(text: &str) -> (parts: (String, String))
    ensures
        parts.0@ == program_part(text@),
        parts.1@ == input_part(text@),
{
    let chars = chars_of(text);
    let len = chars.len();
    let mut program = String::new();
    let mut input = String::new();
    let mut idx: usize = 0;
    assert(program@ =~= chars@.take(0));
    while idx < len && chars[idx] != '#'
        invariant
            len == chars@.len(),
            idx <= len,
            program@ == chars@.take(idx as int),
            first_hash(chars@, 0) == first_hash(chars@, idx as int),
        decreases len - idx,
    {
        push_char(&mut program, chars[idx]);
        idx += 1;
        assert(program@ =~= chars@.take(idx as int));
    }
    if idx < len {
        let ghost hash: int = idx as int;
        idx += 1;
        assert(input@ =~= chars@.subrange(hash + 1, idx as int));
        while idx < len
            invariant
                len == chars@.len(),
                0 <= hash < idx <= len,
                input@ == chars@.subrange(hash + 1, idx as int),
            decreases len - idx,
        {
            push_char(&mut input, chars[idx]);
            idx += 1;
            assert(input@ =~= chars@.subrange(hash + 1, idx as int));
        }
        assert(chars@.subrange(hash + 1, len as int) =~= chars@.skip(hash + 1));
        push_char(&mut input, '\n');
    }
    (program, input)
}

/// Runs the program in a buffer text on the input in it and returns what
/// it puts out; the word `error` when the execution fails.
pub fn run_buffer(text: &str) -> (output: String)
    ensures
        output@ == shaped_output(text@),
{
    let (program, input) = split_source(text);
    match execute_program(program.as_str(), input.as_str()) {
        Ok(output) => output,
        Err(_) => "error".to_owned(),
    }
}

/// The glyphs to lay out for an output text: one for each character but the
/// line feeds, each with its index in the text, and marked where a line feed
/// follows it.
pub fn plan_glyphs(text: &str) -> (plan: Vec<Placement>)
    ensures
        plan@ == placements_from(text@, 0),
{
    let chars = chars_of(text);
    let len = chars.len();
    let mut plan: Vec<Placement> = Vec::new();
    let mut idx: usize = 0;
    while idx < len
        invariant
            len == chars@.len(),
            idx <= len,
            plan@ + placements_from(chars@, idx as int) == placements_from(chars@, 0),
        decreases len - idx,
    {
        let ghost before = plan@;
        if chars[idx] != '\n' {
            let ends_line = len - idx > 1 && chars[idx + 1] == '\n';
            let cluster = ((idx as u64) % 0x1_0000_0000u64) as u32;
            plan.push(Placement { character: chars[idx], cluster, ends_line });
            assert(plan@ + placements_from(chars@, idx + 1) =~= before + (seq![
                placement_at(chars@, idx as int),
            ] + placements_from(chars@, idx + 1)));
        }
        idx += 1;
    }
    assert(plan@ + Seq::<Placement>::empty() =~= plan@);
    plan
}

/// Shapes a glyph buffer: its text is parted into program and input, the
/// program is run, and its output is planned as glyphs.
pub fn shape_codepoints(codepoints: &Vec<u32>) -> (plan: Vec<Placement>)
    ensures
        plan@ == placements_from(shaped_output(buffer_text_of(codepoints@)), 0),
{
    let text = buffer_text(codepoints);
    let output = run_buffer(text.as_str());
    plan_glyphs(output.as_str())
}

} // verus!
