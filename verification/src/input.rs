use vstd::prelude::*;
use vstd::utf8::encode_utf8;

verus! {

/// The byte at `position` of `bytes`; zero once the bytes are used up.
pub open spec fn byte_at(bytes: Seq<u8>, position: int) -> u8 {
    if 0 <= position < bytes.len() {
        bytes[position]
    } else {
        0
    }
}

/// The reading position after one more read at `position`: it moves on by
/// one byte and stays where it is once the bytes are used up.
pub open spec fn position_after(bytes: Seq<u8>, position: int) -> int {
    if 0 <= position < bytes.len() {
        position + 1
    } else {
        position
    }
}

/// The bytes of a text, read one at a time from first to last.
#[derive(Debug)]
pub struct Input {
    input: String,
    cursor: usize,
}

impl Input {
    /// All the bytes of the text, read and unread.
    pub closed spec fn bytes(&self) -> Seq<u8> {
        encode_utf8(self.input@)
    }

    /// Number of bytes read so far.
    pub closed spec fn position(&self) -> int {
        self.cursor as int
    }

    /// An input over the bytes of `input`, with none of them read.
    pub fn new(input: &str) -> (source: Input)
        ensures
            source.bytes() == encode_utf8(input@),
            source.position() == 0,
    {
        Input { input: input.to_owned(), cursor: 0 }
    }

    /// Reads the next byte; yields zero, and reads nothing, at the end.
    pub fn read(&mut self) -> (byte: u8)
        ensures
            final(self).bytes() == old(self).bytes(),
            byte == byte_at(old(self).bytes(), old(self).position()),
            final(self).position() == position_after(old(self).bytes(), old(self).position()),
    {
        let bytes = self.input.as_str().as_bytes();
        if self.cursor < bytes.len() {
            let byte = bytes[self.cursor];
            self.cursor += 1;
            byte
        } else {
            0
        }
    }
}

} // verus!
