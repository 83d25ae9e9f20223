use vstd::prelude::*;

use crate::file_reader::{is_line_end, is_separator, lemma_line_end, lemma_word_end, next_line, next_word};

verus! {

/// Reading a line loses no byte: the line holds no line feed, and the line,
/// the line feed after it and the rest are the data; at the end of the data
/// the line is all that was left.
pub proof fn law_line_split(r: Seq<u8>)
    ensures
        forall|i: int| 0 <= i < next_line(r).0.len() ==> !is_line_end(#[trigger] next_line(r).0[i]),
        r == next_line(r).0 + seq![0x0Au8] + next_line(r).1 || (r == next_line(r).0
            && next_line(r).1.len() == 0),
{
    lemma_line_end(r);
    let (line, rest) = next_line(r);
    if line.len() < r.len() {
        assert(r =~= line + seq![0x0Au8] + rest);
    }
}

/// Reading a word loses no byte: the word holds no line feed, tab or space,
/// and the word, the separator after it and the rest are the data; at the
/// end of the data the word is all that was left and the separator is 0.
pub proof fn law_word_split(r: Seq<u8>)
    ensures
        forall|i: int| 0 <= i < next_word(r).0.len() ==> !is_separator(#[trigger] next_word(r).0[i]),
        (is_separator(next_word(r).1) && r == next_word(r).0 + seq![next_word(r).1] + next_word(
            r,
        ).2) || (r == next_word(r).0 && next_word(r).1 == 0 && next_word(r).2.len() == 0),
{
    lemma_word_end(r);
    let (word, sep, rest) = next_word(r);
    if word.len() < r.len() {
        assert(r =~= word + seq![sep] + rest);
    }
}

} // verus!
