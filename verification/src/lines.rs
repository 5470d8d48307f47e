//! Counting newline-delimited lines in a file's content.

use vstd::prelude::*;

verus! {

/// How many bytes of `content` are the newline byte.
pub open spec fn newline_count(content: Seq<u8>) -> nat
    decreases content.len(),
{
    if content.len() == 0 {
        0
    } else {
        newline_count(content.drop_last()) + (if content.last() == 10u8 {
            1nat
        } else {
            0nat
        })
    }
}

/// The number of newline-delimited lines in `content`: every newline byte ends
/// a line, and content after the last newline counts as one final line.
/// An empty file has no lines.
pub open spec fn line_count_of(content: Seq<u8>) -> nat {
    if content.len() == 0 {
        0
    } else if content.last() == 10u8 {
        newline_count(content)
    } else {
        newline_count(content) + 1
    }
}

/// There are never more newline bytes than bytes.
proof fn lemma_newline_count_le(content: Seq<u8>)
    ensures
        newline_count(content) <= content.len(),
    decreases content.len(),
{
    if content.len() > 0 {
        lemma_newline_count_le(content.drop_last());
    }
}

/// Counts the newline-delimited lines of `content`.
pub fn count_lines(content: &Vec<u8>) -> (n: u64)
    ensures
        n == line_count_of(content@),
{
    let len = content.len();
    let mut newlines: u64 = 0;
    let mut i: usize = 0;
    while i < len
        invariant
            len == content@.len(),
            i <= len,
            newlines == newline_count(content@.take(i as int)),
            newlines <= i,
        decreases len - i,
    {
        proof {
            assert(content@.take(i + 1).drop_last() =~= content@.take(i as int));
            assert(content@.take(i + 1).last() == content@[i as int]);
        }
        if content[i] == 10u8 {
            newlines = newlines + 1;
        }
        i = i + 1;
    }
    proof {
        assert(content@.take(len as int) =~= content@);
        lemma_newline_count_le(content@);
        if content@.len() > 0 && content@.last() != 10u8 {
            assert(newline_count(content@) == newline_count(content@.drop_last()));
            lemma_newline_count_le(content@.drop_last());
        }
    }
    if len > 0 && content[len - 1] != 10u8 {
        newlines + 1
    } else {
        newlines
    }
}

} // verus!
