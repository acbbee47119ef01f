use crate::bytes::byte_rows;
use crate::bytes::first_index;
use crate::bytes::free_of;
use crate::bytes::lemma_first_index_is;
use crate::bytes::split;
use crate::bytes::split_bytes;
use crate::bytes::NEWLINE;
use vstd::prelude::*;

verus! {

/// The lines of a text: its pieces between line ends, without the empty
/// piece that follows a last line end.
pub open spec fn lines_of(text: Seq<u8>) -> Seq<Seq<u8>> {
    let pieces = split(text, NEWLINE);
    if pieces.last().len() == 0 {
        pieces.drop_last()
    } else {
        pieces
    }
}

/// The lines of a piece of a text that are complete: those that a line end
/// follows.
pub open spec fn complete_lines(text: Seq<u8>) -> Seq<Seq<u8>> {
    split(text, NEWLINE).drop_last()
}

/// What follows the last line end of a piece of a text.
pub open spec fn remainder(text: Seq<u8>) -> Seq<u8> {
    split(text, NEWLINE).last()
}

/// A split has at least one piece.
pub proof fn lemma_split_nonempty(s: Seq<u8>, sep: u8)
    ensures
        split(s, sep).len() >= 1,
    decreases s.len(),
{
    let i = first_index(s, sep);
    if i < s.len() {
        lemma_split_nonempty(s.skip(i as int + 1), sep);
    }
}

/// A text that starts with a run free of `sep`, then `sep`, splits into that
/// run and the pieces of what follows.
pub proof fn lemma_split_first(head: Seq<u8>, sep: u8, tail: Seq<u8>)
    requires
        forall|i: int| 0 <= i < head.len() ==> head[i] != sep,
    ensures
        split(head.push(sep) + tail, sep) == seq![head] + split(tail, sep),
{
    let s = head.push(sep) + tail;
    lemma_first_index_is(s, sep, head.len() as int);
    assert(s.take(head.len() as int) == head);
    assert(s.skip(head.len() as int + 1) == tail);
}

/// No piece of a split holds the separator.
pub proof fn lemma_split_pieces_free(s: Seq<u8>, sep: u8, k: int)
    requires
        0 <= k < split(s, sep).len(),
    ensures
        free_of(split(s, sep)[k], sep),
    decreases s.len(),
{
    let at = first_index(s, sep);
    crate::bytes::lemma_first_index(s, sep);
    if at < s.len() && k > 0 {
        lemma_split_pieces_free(s.skip(at as int + 1), sep, k - 1);
    }
}

/// The lines of a text.
pub fn read_lines(text: &[u8]) -> (lines: Vec<Vec<u8>>)
    ensures
        byte_rows(lines@) == lines_of(text@),
{
    let mut pieces = split_bytes(text, NEWLINE);
    proof {
        lemma_split_nonempty(text@, NEWLINE);
    }
    let ghost all = byte_rows(pieces@);
    let last = pieces.len() - 1;
    assert(all[last as int] == pieces@[last as int]@);
    if pieces[last].len() == 0 {
        pieces.pop();
        assert(byte_rows(pieces@) =~= all.drop_last());
    }
    pieces
}

/// The complete lines of a piece of a text, and what follows the last line
/// end.
pub fn take_lines(text: &[u8]) -> (taken: (Vec<Vec<u8>>, Vec<u8>))
    ensures
        byte_rows(taken.0@) == complete_lines(text@),
        taken.1@ == remainder(text@),
{
    let mut pieces = split_bytes(text, NEWLINE);
    proof {
        lemma_split_nonempty(text@, NEWLINE);
    }
    let ghost all = byte_rows(pieces@);
    assert(all[pieces.len() - 1] == pieces@[pieces.len() - 1]@);
    let rest = match pieces.pop() {
        Some(rest) => rest,
        None => Vec::new(),
    };
    assert(byte_rows(pieces@) =~= all.drop_last());
    (pieces, rest)
}

} // verus!
