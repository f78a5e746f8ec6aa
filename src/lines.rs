//! Splitting a byte text into lines the way `str::lines` does: a line ends at
//! `\n` or at `\r\n`, and a final line terminator does not start a new line.

use vstd::prelude::*;

verus! {

/// The line feed byte.
pub const LF: u8 = 10;

/// The carriage return byte.
pub const CR: u8 = 13;

/// A line that was ended by `\n` loses the `\r` right before that `\n`.
pub open spec fn strip_cr(s: Seq<u8>) -> Seq<u8> {
    if s.len() > 0 && s.last() == CR {
        s.drop_last()
    } else {
        s
    }
}

/// The lines of `b[start..]`, where the current line began at `start` and
/// the scan has reached `i` without meeting a line feed since `start`.
pub open spec fn lines_from(b: Seq<u8>, start: int, i: int) -> Seq<Seq<u8>>
    decreases b.len() - i,
{
    if i >= b.len() {
        if start < b.len() {
            seq![b.subrange(start, b.len() as int)]
        } else {
            seq![]
        }
    } else if b[i] == LF {
        seq![strip_cr(b.subrange(start, i))] + lines_from(b, i + 1, i + 1)
    } else {
        lines_from(b, start, i + 1)
    }
}

/// The lines of a text, without their terminators.
pub open spec fn lines_of(b: Seq<u8>) -> Seq<Seq<u8>> {
    lines_from(b, 0, 0)
}

/// A text without bytes has no lines.
pub proof fn lemma_no_lines_in_empty_text()
    ensures
        lines_of(Seq::<u8>::empty()).len() == 0,
{
}

} // verus!
