use crate::bytes::NEWLINE;
use crate::fastq::writable;
use crate::fastq::SequenceRecord;
use crate::fastq::SequenceView;
use crate::bytes::copy_bytes;
use vstd::prelude::*;

verus! {

/// Offset `i` lies in one of the tag ranges, each of which runs from its
/// start up to, and without, its end.
pub open spec fn covered(ranges: Seq<(usize, usize)>, i: int) -> bool {
    exists|k: int| 0 <= k < ranges.len() && (#[trigger] ranges[k]).0 <= i < ranges[k].1
}

/// `s` without the bytes at the offsets that the tag ranges cover.
pub open spec fn trimmed(s: Seq<u8>, ranges: Seq<(usize, usize)>) -> Seq<u8>
    decreases s.len(),
{
    if s.len() == 0 {
        Seq::empty()
    } else if covered(ranges, s.len() - 1) {
        trimmed(s.drop_last(), ranges)
    } else {
        trimmed(s.drop_last(), ranges).push(s.last())
    }
}

/// A record with its tag ranges taken out of sequence and quality alike; the
/// record as it is where there are no tag ranges.
pub open spec fn trim_record(r: SequenceView, ranges: Option<Seq<(usize, usize)>>) -> SequenceView {
    match ranges {
        Some(tags) => SequenceView {
            header: r.header,
            seq: trimmed(r.seq, tags),
            qual: trimmed(r.qual, tags),
        },
        None => r,
    }
}

/// The tag ranges of an optional list, as plain values.
pub open spec fn ranges_view(ranges: Option<Vec<(usize, usize)>>) -> Option<Seq<(usize, usize)>> {
    match ranges {
        Some(tags) => Some(tags@),
        None => None,
    }
}

/// What is left of two strings of one length has one length, and every byte
/// that is left was there before.
pub proof fn lemma_trim_shape(a: Seq<u8>, b: Seq<u8>, ranges: Seq<(usize, usize)>)
    requires
        a.len() == b.len(),
    ensures
        trimmed(a, ranges).len() == trimmed(b, ranges).len(),
        trimmed(a, ranges).len() <= a.len(),
        forall|i: int|
            0 <= i < trimmed(a, ranges).len() ==> a.contains(#[trigger] trimmed(a, ranges)[i]),
    decreases a.len(),
{
    if a.len() > 0 {
        lemma_trim_shape(a.drop_last(), b.drop_last(), ranges);
        let front = trimmed(a.drop_last(), ranges);
        assert forall|i: int| 0 <= i < trimmed(a, ranges).len() implies a.contains(
            #[trigger] trimmed(a, ranges)[i],
        ) by {
            if i < front.len() {
                let x = front[i];
                assert(a.drop_last().contains(x));
                let w = choose|w: int| 0 <= w < a.drop_last().len() && a.drop_last()[w] == x;
                assert(a[w] == x);
            } else {
                assert(a[a.len() - 1] == a.last());
            }
        }
    }
}

/// A record that can be written can still be written after trimming.
pub proof fn lemma_trim_keeps_writable(r: SequenceView, ranges: Option<Seq<(usize, usize)>>)
    requires
        writable(r),
    ensures
        writable(trim_record(r, ranges)),
{
    match ranges {
        Some(tags) => {
            lemma_trim_shape(r.seq, r.qual, tags);
            lemma_trim_shape(r.qual, r.seq, tags);
            let t = trim_record(r, ranges);
            assert forall|i: int| 0 <= i < t.seq.len() implies t.seq[i] != NEWLINE by {
                assert(r.seq.contains(trimmed(r.seq, tags)[i]));
            }
            assert forall|i: int| 0 <= i < t.qual.len() implies t.qual[i] != NEWLINE by {
                assert(r.qual.contains(trimmed(r.qual, tags)[i]));
            }
        },
        None => {},
    }
}

/// Whether offset `i` lies in one of the tag ranges.
pub fn is_covered(ranges: &Vec<(usize, usize)>, i: usize) -> (inside: bool)
    ensures
        inside == covered(ranges@, i as int),
{
    let mut k: usize = 0;
    while k < ranges.len()
        invariant
            k <= ranges.len(),
            forall|j: int| 0 <= j < k ==> !((#[trigger] ranges@[j]).0 <= i < ranges@[j].1),
        decreases ranges.len() - k,
    {
        let range = ranges[k];
        if range.0 <= i && i < range.1 {
            assert(ranges@[k as int].0 <= i < ranges@[k as int].1);
            return true;
        }
        k += 1;
    }
    false
}

/// `s` without the bytes that the tag ranges cover.
pub fn trim(s: &[u8], ranges: &Vec<(usize, usize)>) -> (left: Vec<u8>)
    ensures
        left@ == trimmed(s@, ranges@),
{
    let mut left: Vec<u8> = Vec::new();
    let mut i: usize = 0;
    while i < s.len()
        invariant
            i <= s.len(),
            left@ == trimmed(s@.take(i as int), ranges@),
        decreases s.len() - i,
    {
        proof {
            assert(s@.take(i + 1).drop_last() == s@.take(i as int));
        }
        if !is_covered(ranges, i) {
            left.push(s[i]);
        }
        i += 1;
    }
    assert(s@.take(s.len() as int) == s@);
    left
}

/// `record` with its tag ranges taken out, where there are any.
pub fn trim_sequence_record(record: &SequenceRecord, ranges: &Option<Vec<(usize, usize)>>) -> (left:
    SequenceRecord)
    ensures
        left@ == trim_record(record@, ranges_view(*ranges)),
{
    match ranges {
        Some(tags) => SequenceRecord {
            header: copy_bytes(record.header.as_slice()),
            seq: trim(record.seq.as_slice(), tags),
            qual: trim(record.qual.as_slice(), tags),
        },
        None => SequenceRecord {
            header: copy_bytes(record.header.as_slice()),
            seq: copy_bytes(record.seq.as_slice()),
            qual: copy_bytes(record.qual.as_slice()),
        },
    }
}

} // verus!
