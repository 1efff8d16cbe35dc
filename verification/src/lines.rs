use vstd::prelude::*;

verus! {

/// The byte that ends a line.
pub const NEWLINE: u8 = 10;

/// Whether a byte ends a line.
pub open spec fn is_newline() -> spec_fn(u8) -> bool {
    |byte: u8| byte == NEWLINE
}

/// The number of lines that a file's content holds: one for each newline byte, and one
/// more where bytes follow the last newline, so that a last line counts whether or not a
/// newline ends it. Nothing else about the bytes counts: not whether they are text, nor in
/// which encoding.
pub open spec fn line_count(content: Seq<u8>) -> nat {
    content.filter(is_newline()).len() + if content.len() > 0 && content.last() != NEWLINE {
        1nat
    } else {
        0nat
    }
}

/// Counts the lines of a file's content.
pub fn count_lines(content: &[u8]) -> (lines: usize)
    ensures
        lines == line_count(content@),
{
    let length = content.len();
    let mut newlines: usize = 0;
    let mut i: usize = 0;
    assert(content@.take(0).filter(is_newline()).len() == 0) by {
        content@.take(0).lemma_filter_len(is_newline());
    }
    while i < length
        invariant
            length == content@.len(),
            i <= length,
            newlines == content@.take(i as int).filter(is_newline()).len(),
            newlines <= i,
            i > 0 && content@[i - 1] != NEWLINE ==> newlines < i,
        decreases length - i,
    {
        proof {
            assert(content@.take(i + 1) =~= content@.take(i as int).push(content@[i as int]));
            content@.take(i as int).lemma_filter_push(content@[i as int], is_newline());
        }
        if content[i] == NEWLINE {
            newlines += 1;
        }
        i += 1;
    }
    assert(content@.take(length as int) =~= content@);
    if length > 0 && content[length - 1] != NEWLINE {
        newlines + 1
    } else {
        newlines
    }
}

} // verus!
