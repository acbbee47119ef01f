use crate::bytes::byte_rows;
use crate::bytes::copy_range;
use crate::bytes::free_of;
use crate::bytes::split;
use crate::bytes::NEWLINE;
use crate::bytes::SPACE;
use crate::bytes::TAB;
use crate::error::IoFault;
use crate::error::PipelineError;
use crate::lines::lemma_split_first;
use crate::lines::lines_of;
use crate::lines::read_lines;
use vstd::prelude::*;

verus! {

/// The byte that a header line starts with.
pub const HEADER_MARK: u8 = 64;

/// The byte that the line between sequence and quality starts with.
pub const PLUS_MARK: u8 = 43;

/// The number of lines that write one record.
pub const LINES_PER_RECORD: usize = 4;

/// The number of lines that write `records` records, or the largest number
/// there is where that is less.
pub fn lines_for(records: usize) -> (lines: usize)
    ensures
        lines == if records * LINES_PER_RECORD <= usize::MAX {
            records * LINES_PER_RECORD
        } else {
            usize::MAX as int
        },
{
    match records.checked_mul(LINES_PER_RECORD) {
        Some(lines) => lines,
        None => usize::MAX,
    }
}

/// One sequence record: the header line without its mark, the sequence and
/// the quality string.
#[derive(Debug)]
pub struct SequenceRecord {
    pub header: Vec<u8>,
    pub seq: Vec<u8>,
    pub qual: Vec<u8>,
}

/// A sequence record as plain values.
pub struct SequenceView {
    pub header: Seq<u8>,
    pub seq: Seq<u8>,
    pub qual: Seq<u8>,
}

impl View for SequenceRecord {
    type V = SequenceView;

    open spec fn view(&self) -> SequenceView {
        SequenceView { header: self.header@, seq: self.seq@, qual: self.qual@ }
    }
}

/// The records of a list as plain values, in order.
pub open spec fn records_view(records: Seq<SequenceRecord>) -> Seq<SequenceView> {
    records.map_values(|r: SequenceRecord| r@)
}

/// The offset of the first space or tab of `s`, or the length of `s` where
/// it holds neither.
pub open spec fn first_blank(s: Seq<u8>) -> nat
    decreases s.len(),
{
    if s.len() == 0 {
        0
    } else if s[0] == SPACE || s[0] == TAB {
        0
    } else {
        (1 + first_blank(s.skip(1))) as nat
    }
}

/// The identifier of a read: its header up to the first space or tab.
pub open spec fn read_name(header: Seq<u8>) -> Seq<u8> {
    header.take(first_blank(header) as int)
}

/// `first_blank` lies within the sequence, stops at a blank, and passes
/// over none.
pub proof fn lemma_first_blank(s: Seq<u8>)
    ensures
        first_blank(s) <= s.len(),
        first_blank(s) < s.len() ==> s[first_blank(s) as int] == SPACE || s[first_blank(s) as int]
            == TAB,
        forall|j: int| 0 <= j < first_blank(s) ==> s[j] != SPACE && s[j] != TAB,
    decreases s.len(),
{
    if s.len() > 0 && s[0] != SPACE && s[0] != TAB {
        lemma_first_blank(s.skip(1));
        assert forall|j: int| 0 <= j < first_blank(s) implies s[j] != SPACE && s[j] != TAB by {
            if j > 0 {
                assert(s.skip(1)[j - 1] == s[j]);
            }
        }
    }
}

/// The identifier of the read with this header.
pub fn name_of(header: &[u8]) -> (name: Vec<u8>)
    ensures
        name@ == read_name(header@),
{
    let mut i: usize = 0;
    while i < header.len() && header[i] != SPACE && header[i] != TAB
        invariant
            i <= header.len(),
            forall|j: int| 0 <= j < i ==> header@[j] != SPACE && header@[j] != TAB,
        decreases header.len() - i,
    {
        i += 1;
    }
    proof {
        lemma_first_blank(header@);
    }
    copy_range(header, 0, i)
}

/// A record as it is written: four lines, each with its line end.
pub open spec fn encode(r: SequenceView) -> Seq<u8> {
    (seq![HEADER_MARK] + r.header).push(NEWLINE) + r.seq.push(NEWLINE) + seq![PLUS_MARK].push(
        NEWLINE,
    ) + r.qual.push(NEWLINE)
}

/// Records as they are written, one after the other.
pub open spec fn encode_all(records: Seq<SequenceView>) -> Seq<u8>
    decreases records.len(),
{
    if records.len() == 0 {
        Seq::empty()
    } else {
        encode(records[0]) + encode_all(records.skip(1))
    }
}

/// The record that four lines write, where the first starts with the header
/// mark, the third with the plus mark, and the second is as long as the
/// fourth.
pub open spec fn record_of(l0: Seq<u8>, l1: Seq<u8>, l2: Seq<u8>, l3: Seq<u8>) -> Option<
    SequenceView,
> {
    if l0.len() > 0 && l0[0] == HEADER_MARK && l2.len() > 0 && l2[0] == PLUS_MARK && l1.len()
        == l3.len() {
        Some(SequenceView { header: l0.skip(1), seq: l1, qual: l3 })
    } else {
        None
    }
}

/// The records that lines write, four lines each; nothing where a group of
/// four is no record or lines are left over.
pub open spec fn records_of(lines: Seq<Seq<u8>>) -> Option<Seq<SequenceView>>
    decreases lines.len(),
{
    if lines.len() == 0 {
        Some(Seq::empty())
    } else if lines.len() < 4 {
        None
    } else {
        match (record_of(lines[0], lines[1], lines[2], lines[3]), records_of(lines.skip(4))) {
            (Some(first), Some(rest)) => Some(seq![first] + rest),
            _ => None,
        }
    }
}

/// The records that a text writes.
pub open spec fn decode(text: Seq<u8>) -> Option<Seq<SequenceView>> {
    records_of(lines_of(text))
}

/// A record can be written and read again: no field holds a line end, and
/// sequence and quality are equally long.
pub open spec fn writable(r: SequenceView) -> bool {
    &&& r.seq.len() == r.qual.len()
    &&& free_of(r.header, NEWLINE)
    &&& free_of(r.seq, NEWLINE)
    &&& free_of(r.qual, NEWLINE)
}

/// The four lines of each record, in order.
pub open spec fn record_lines(records: Seq<SequenceView>) -> Seq<Seq<u8>>
    decreases records.len(),
{
    if records.len() == 0 {
        Seq::empty()
    } else {
        seq![
            seq![HEADER_MARK] + records[0].header,
            records[0].seq,
            seq![PLUS_MARK],
            records[0].qual,
        ] + record_lines(records.skip(1))
    }
}

/// Written records split at the line ends into their lines and one empty
/// piece at the end.
pub proof fn lemma_split_encoded(records: Seq<SequenceView>)
    requires
        forall|k: int| 0 <= k < records.len() ==> writable(#[trigger] records[k]),
    ensures
        split(encode_all(records), NEWLINE) == record_lines(records).push(Seq::empty()),
    decreases records.len(),
{
    if records.len() == 0 {
        assert(split(Seq::<u8>::empty(), NEWLINE) == seq![Seq::<u8>::empty()]);
        assert(record_lines(records).push(Seq::empty()) =~= seq![Seq::<u8>::empty()]);
    } else {
        let r = records[0];
        let rest = records.skip(1);
        assert(writable(r));
        assert forall|k: int| 0 <= k < rest.len() implies writable(#[trigger] rest[k]) by {
            assert(rest[k] == records[k + 1]);
        }
        lemma_split_encoded(rest);
        let tail = encode_all(rest);
        let l0 = seq![HEADER_MARK] + r.header;
        let l1 = r.seq;
        let l2 = seq![PLUS_MARK];
        let l3 = r.qual;
        let t3 = tail;
        let t2 = l3.push(NEWLINE) + t3;
        let t1 = l2.push(NEWLINE) + t2;
        let t0 = l1.push(NEWLINE) + t1;
        assert(encode_all(records) =~= l0.push(NEWLINE) + t0);
        lemma_split_first(l0, NEWLINE, t0);
        lemma_split_first(l1, NEWLINE, t1);
        lemma_split_first(l2, NEWLINE, t2);
        lemma_split_first(l3, NEWLINE, t3);
        assert(split(encode_all(records), NEWLINE) =~= seq![l0, l1, l2, l3] + split(
            tail,
            NEWLINE,
        ));
        assert(record_lines(records).push(Seq::empty()) =~= seq![l0, l1, l2, l3] + record_lines(
            rest,
        ).push(Seq::empty()));
    }
}

/// The lines of records are read as those records.
pub proof fn lemma_records_of_lines(records: Seq<SequenceView>)
    requires
        forall|k: int| 0 <= k < records.len() ==> writable(#[trigger] records[k]),
    ensures
        records_of(record_lines(records)) == Some(records),
    decreases records.len(),
{
    if records.len() > 0 {
        let r = records[0];
        let rest = records.skip(1);
        assert(writable(r));
        assert forall|k: int| 0 <= k < rest.len() implies writable(#[trigger] rest[k]) by {
            assert(rest[k] == records[k + 1]);
        }
        lemma_records_of_lines(rest);
        let lines = record_lines(records);
        assert(lines.skip(4) =~= record_lines(rest));
        assert((seq![HEADER_MARK] + r.header).skip(1) =~= r.header);
        assert(seq![r] + rest =~= records);
    } else {
        assert(records =~= Seq::empty());
    }
}

/// Round trip of the record format: what was written is read back as it
/// was, record by record and byte by byte.
pub proof fn lemma_decode_encode(records: Seq<SequenceView>)
    requires
        forall|k: int| 0 <= k < records.len() ==> writable(#[trigger] records[k]),
    ensures
        decode(encode_all(records)) == Some(records),
{
    lemma_split_encoded(records);
    lemma_records_of_lines(records);
    let pieces = split(encode_all(records), NEWLINE);
    assert(pieces.last().len() == 0);
    assert(pieces.drop_last() =~= record_lines(records));
}

/// Records that are read from lines free of line ends can be written.
pub proof fn lemma_records_writable(lines: Seq<Seq<u8>>)
    requires
        forall|k: int| 0 <= k < lines.len() ==> free_of(#[trigger] lines[k], NEWLINE),
        records_of(lines) is Some,
    ensures
        forall|k: int|
            0 <= k < records_of(lines)->Some_0.len() ==> writable(
                #[trigger] records_of(lines)->Some_0[k],
            ),
    decreases lines.len(),
{
    if lines.len() >= 4 {
        let rest = lines.skip(4);
        assert forall|k: int| 0 <= k < rest.len() implies free_of(#[trigger] rest[k], NEWLINE) by {
            assert(rest[k] == lines[k + 4]);
        }
        assert(free_of(lines[0], NEWLINE) && free_of(lines[1], NEWLINE) && free_of(
            lines[3],
            NEWLINE,
        ));
        lemma_records_writable(rest);
        let first = record_of(lines[0], lines[1], lines[2], lines[3])->Some_0;
        let others = records_of(rest)->Some_0;
        let all = records_of(lines)->Some_0;
        assert(all == seq![first] + others);
        assert forall|i: int| 0 <= i < first.header.len() implies first.header[i] != NEWLINE by {
            assert(first.header[i] == lines[0][i + 1]);
        }
        assert(writable(first));
        assert forall|k: int| 0 <= k < all.len() implies writable(#[trigger] all[k]) by {
            if k > 0 {
                assert(all[k] == others[k - 1]);
            }
        }
    }
}

/// Every record that is read from a text can be written.
pub proof fn lemma_decoded_writable(text: Seq<u8>)
    requires
        decode(text) is Some,
    ensures
        forall|k: int|
            0 <= k < decode(text)->Some_0.len() ==> writable(#[trigger] decode(text)->Some_0[k]),
{
    let pieces = split(text, NEWLINE);
    let lines = lines_of(text);
    assert forall|k: int| 0 <= k < lines.len() implies free_of(#[trigger] lines[k], NEWLINE) by {
        assert(lines[k] == pieces[k]);
        crate::lines::lemma_split_pieces_free(text, NEWLINE, k);
    }
    lemma_records_writable(lines);
}

/// Writing a list of records is writing its front, then its last record.
pub proof fn lemma_encode_push(records: Seq<SequenceView>, last: SequenceView)
    ensures
        encode_all(records.push(last)) == encode_all(records) + encode(last),
    decreases records.len(),
{
    let all = records.push(last);
    if records.len() == 0 {
        assert(all.skip(1) =~= Seq::empty());
        assert(all[0] == last);
        assert(encode_all(all.skip(1)) =~= Seq::empty());
        assert(encode_all(all) =~= encode(last));
    } else {
        lemma_encode_push(records.skip(1), last);
        assert(all.skip(1) =~= records.skip(1).push(last));
    }
}

/// Appends the written form of `record` to `out`.
pub fn encode_into(record: &SequenceRecord, out: &mut Vec<u8>)
    ensures
        final(out)@ == old(out)@ + encode(record@),
{
    let ghost start = out@;
    out.push(HEADER_MARK);
    append(out, &record.header);
    out.push(NEWLINE);
    append(out, &record.seq);
    out.push(NEWLINE);
    out.push(PLUS_MARK);
    out.push(NEWLINE);
    append(out, &record.qual);
    out.push(NEWLINE);
    assert(out@ =~= start + encode(record@));
}

/// Appends `bytes` to `out`.
pub fn append(out: &mut Vec<u8>, bytes: &Vec<u8>)
    ensures
        final(out)@ == old(out)@ + bytes@,
{
    let ghost start = out@;
    let mut i: usize = 0;
    while i < bytes.len()
        invariant
            i <= bytes.len(),
            out@ == start + bytes@.take(i as int),
        decreases bytes.len() - i,
    {
        out.push(bytes[i]);
        assert(bytes@.take(i + 1) == bytes@.take(i as int).push(bytes@[i as int]));
        i += 1;
    }
    assert(bytes@.take(bytes.len() as int) == bytes@);
}

/// The written form of `records`.
pub fn encode_records(records: &Vec<SequenceRecord>) -> (out: Vec<u8>)
    ensures
        out@ == encode_all(records_view(records@)),
{
    let ghost all = records_view(records@);
    let mut out: Vec<u8> = Vec::new();
    let mut i: usize = 0;
    while i < records.len()
        invariant
            i <= records.len(),
            all == records_view(records@),
            out@ == encode_all(all.take(i as int)),
        decreases records.len() - i,
    {
        proof {
            lemma_encode_push(all.take(i as int), all[i as int]);
            assert(all.take(i + 1) == all.take(i as int).push(all[i as int]));
        }
        encode_into(&records[i], &mut out);
        i += 1;
    }
    assert(all.take(records.len() as int) == all);
    out
}

/// Reads records from lines, four lines each. Lines that write no records
/// are corrupt input.
pub fn records_from_lines(lines: &Vec<Vec<u8>>) -> (read: Result<
    Vec<SequenceRecord>,
    PipelineError,
>)
    ensures
        match read {
            Ok(records) => records_of(byte_rows(lines@)) == Some(records_view(records@)),
            Err(e) => records_of(byte_rows(lines@)) is None && e == PipelineError::Io(
                IoFault::Corrupt,
            ),
        },
{
    let ghost rows = byte_rows(lines@);
    let mut records: Vec<SequenceRecord> = Vec::new();
    let mut i: usize = 0;
    assert(rows.skip(0) == rows);
    assert(records_view(records@) =~= Seq::empty());
    while i < lines.len()
        invariant
            i <= lines.len(),
            rows == byte_rows(lines@),
            match records_of(rows.skip(i as int)) {
                Some(rest) => records_of(rows) == Some(records_view(records@) + rest),
                None => records_of(rows) is None,
            },
        decreases lines.len() - i,
    {
        let ghost here = rows.skip(i as int);
        if lines.len() - i < 4 {
            return Err(PipelineError::Io(IoFault::Corrupt));
        }
        let l0 = &lines[i];
        let l1 = &lines[i + 1];
        let l2 = &lines[i + 2];
        let l3 = &lines[i + 3];
        proof {
            assert(here[0] == l0@ && here[1] == l1@ && here[2] == l2@ && here[3] == l3@);
            assert(here.skip(4) == rows.skip(i + 4));
        }
        if l0.len() == 0 || l0[0] != HEADER_MARK || l2.len() == 0 || l2[0] != PLUS_MARK
            || l1.len() != l3.len() {
            return Err(PipelineError::Io(IoFault::Corrupt));
        }
        let record = SequenceRecord {
            header: copy_range(l0.as_slice(), 1, l0.len()),
            seq: copy_range(l1.as_slice(), 0, l1.len()),
            qual: copy_range(l3.as_slice(), 0, l3.len()),
        };
        proof {
            assert(l0@.subrange(1, l0.len() as int) == l0@.skip(1));
            assert(l1@.subrange(0, l1.len() as int) == l1@);
            assert(l3@.subrange(0, l3.len() as int) == l3@);
            assert(record_of(l0@, l1@, l2@, l3@) == Some(record@));
        }
        let ghost before = records_view(records@);
        records.push(record);
        proof {
            assert(records_view(records@) =~= before.push(record@));
            match records_of(rows.skip(i + 4)) {
                Some(rest) => {
                    assert(before + (seq![record@] + rest) =~= before.push(record@) + rest);
                },
                None => {},
            }
        }
        i += 4;
    }
    proof {
        assert(records_view(records@) + Seq::<SequenceView>::empty() =~= records_view(records@));
    }
    Ok(records)
}

/// Reads the records of a text.
pub fn decode_records(text: &[u8]) -> (read: Result<Vec<SequenceRecord>, PipelineError>)
    ensures
        match read {
            Ok(records) => decode(text@) == Some(records_view(records@)),
            Err(e) => decode(text@) is None && e == PipelineError::Io(IoFault::Corrupt),
        },
{
    let lines = read_lines(text);
    records_from_lines(&lines)
}

} // verus!
