use crate::codec::compress;
use crate::codec::decompress;
use crate::codec::compressed;
use crate::codec::gzip_content;
use crate::codec::legal_level;
use crate::error::ConfigField;
use crate::error::IoFault;
use crate::error::PipelineError;
use crate::fastq::decode;
use crate::fastq::decode_records;
use crate::fastq::encode_all;
use crate::fastq::encode_records;
use crate::fastq::lemma_decode_encode;
use crate::fastq::name_of;
use crate::fastq::read_name;
use crate::fastq::records_view;
use crate::fastq::writable;
use crate::fastq::SequenceRecord;
use crate::fastq::SequenceView;
use crate::match_index::MatchIndex;
use crate::trim::lemma_trim_keeps_writable;
use crate::trim::ranges_view;
use crate::trim::trim_record;
use crate::trim::trim_sequence_record;
use vstd::prelude::*;

verus! {

/// What single-end extraction leaves of a run of records: those whose read
/// is in the index, in their order, each trimmed.
pub open spec fn select_single(
    records: Seq<SequenceView>,
    index: Map<Seq<u8>, Seq<u8>>,
    ranges: Option<Seq<(usize, usize)>>,
) -> Seq<SequenceView>
    decreases records.len(),
{
    if records.len() == 0 {
        Seq::empty()
    } else {
        let front = select_single(records.drop_last(), index, ranges);
        if index.contains_key(read_name(records.last().header)) {
            front.push(trim_record(records.last(), ranges))
        } else {
            front
        }
    }
}

/// What paired-end extraction leaves of two runs of mates, taken position by
/// position: of every pair whose first mate's read is in the index, the
/// first mate and then the second, each trimmed by its own tag ranges.
pub open spec fn select_paired(
    mate1: Seq<SequenceView>,
    mate2: Seq<SequenceView>,
    index: Map<Seq<u8>, Seq<u8>>,
    ranges1: Option<Seq<(usize, usize)>>,
    ranges2: Option<Seq<(usize, usize)>>,
) -> Seq<SequenceView>
    decreases mate1.len(),
{
    if mate1.len() == 0 || mate2.len() == 0 {
        Seq::empty()
    } else {
        let front = select_paired(
            mate1.drop_last(),
            mate2.drop_last(),
            index,
            ranges1,
            ranges2,
        );
        if index.contains_key(read_name(mate1.last().header)) {
            front.push(trim_record(mate1.last(), ranges1)).push(trim_record(mate2.last(), ranges2))
        } else {
            front
        }
    }
}

/// Extraction keeps the order of the input and is the same whether records
/// are handled in one batch or in two.
pub proof fn lemma_select_single_concat(
    a: Seq<SequenceView>,
    b: Seq<SequenceView>,
    index: Map<Seq<u8>, Seq<u8>>,
    ranges: Option<Seq<(usize, usize)>>,
)
    ensures
        select_single(a + b, index, ranges) == select_single(a, index, ranges) + select_single(
            b,
            index,
            ranges,
        ),
    decreases b.len(),
{
    if b.len() == 0 {
        assert(a + b == a);
        assert(select_single(a, index, ranges) + Seq::<SequenceView>::empty() == select_single(
            a,
            index,
            ranges,
        ));
    } else {
        lemma_select_single_concat(a, b.drop_last(), index, ranges);
        assert((a + b).drop_last() == a + b.drop_last());
        assert((a + b).last() == b.last());
        let fa = select_single(a, index, ranges);
        let fb = select_single(b.drop_last(), index, ranges);
        let t = trim_record(b.last(), ranges);
        assert((fa + fb).push(t) == fa + fb.push(t));
    }
}

/// Every record that single-end extraction leaves can be written, where
/// every record that went in could.
pub proof fn lemma_select_single_writable(
    records: Seq<SequenceView>,
    index: Map<Seq<u8>, Seq<u8>>,
    ranges: Option<Seq<(usize, usize)>>,
)
    requires
        forall|k: int| 0 <= k < records.len() ==> writable(#[trigger] records[k]),
    ensures
        forall|k: int|
            0 <= k < select_single(records, index, ranges).len() ==> writable(
                #[trigger] select_single(records, index, ranges)[k],
            ),
    decreases records.len(),
{
    if records.len() > 0 {
        let front = records.drop_last();
        assert forall|k: int| 0 <= k < front.len() implies writable(#[trigger] front[k]) by {
            assert(front[k] == records[k]);
        }
        lemma_select_single_writable(front, index, ranges);
        assert(writable(records[records.len() - 1]));
        lemma_trim_keeps_writable(records.last(), ranges);
        let shorter = select_single(front, index, ranges);
        let all = select_single(records, index, ranges);
        assert forall|k: int| 0 <= k < all.len() implies writable(#[trigger] all[k]) by {
            if k < shorter.len() {
                assert(all[k] == shorter[k]);
            }
        }
    }
}

/// Every record that paired-end extraction leaves can be written, where
/// every record that went in could.
pub proof fn lemma_select_paired_writable(
    mate1: Seq<SequenceView>,
    mate2: Seq<SequenceView>,
    index: Map<Seq<u8>, Seq<u8>>,
    ranges1: Option<Seq<(usize, usize)>>,
    ranges2: Option<Seq<(usize, usize)>>,
)
    requires
        forall|k: int| 0 <= k < mate1.len() ==> writable(#[trigger] mate1[k]),
        forall|k: int| 0 <= k < mate2.len() ==> writable(#[trigger] mate2[k]),
    ensures
        forall|k: int|
            0 <= k < select_paired(mate1, mate2, index, ranges1, ranges2).len() ==> writable(
                #[trigger] select_paired(mate1, mate2, index, ranges1, ranges2)[k],
            ),
    decreases mate1.len(),
{
    if mate1.len() > 0 && mate2.len() > 0 {
        let front1 = mate1.drop_last();
        let front2 = mate2.drop_last();
        assert forall|k: int| 0 <= k < front1.len() implies writable(#[trigger] front1[k]) by {
            assert(front1[k] == mate1[k]);
        }
        assert forall|k: int| 0 <= k < front2.len() implies writable(#[trigger] front2[k]) by {
            assert(front2[k] == mate2[k]);
        }
        lemma_select_paired_writable(front1, front2, index, ranges1, ranges2);
        assert(writable(mate1[mate1.len() - 1]));
        assert(writable(mate2[mate2.len() - 1]));
        lemma_trim_keeps_writable(mate1.last(), ranges1);
        lemma_trim_keeps_writable(mate2.last(), ranges2);
        let shorter = select_paired(front1, front2, index, ranges1, ranges2);
        let all = select_paired(mate1, mate2, index, ranges1, ranges2);
        assert forall|k: int| 0 <= k < all.len() implies writable(#[trigger] all[k]) by {
            if k < shorter.len() {
                assert(all[k] == shorter[k]);
            }
        }
    }
}

/// Round trip of single-end extraction: the records that are kept of a
/// sequence text, trimmed or not, are read back from their written form as
/// they were written, byte by byte.
pub proof fn lemma_single_round_trip(
    text: Seq<u8>,
    index: Map<Seq<u8>, Seq<u8>>,
    ranges: Option<Seq<(usize, usize)>>,
)
    requires
        decode(text) is Some,
    ensures
        decode(encode_all(select_single(decode(text)->Some_0, index, ranges))) == Some(
            select_single(decode(text)->Some_0, index, ranges),
        ),
{
    crate::fastq::lemma_decoded_writable(text);
    lemma_select_single_writable(decode(text)->Some_0, index, ranges);
    lemma_decode_encode(select_single(decode(text)->Some_0, index, ranges));
}

/// Round trip of paired-end extraction: the mates that are kept of two
/// sequence texts, trimmed or not, are read back from their written form as
/// they were written, byte by byte.
pub proof fn lemma_paired_round_trip(
    text1: Seq<u8>,
    text2: Seq<u8>,
    index: Map<Seq<u8>, Seq<u8>>,
    ranges1: Option<Seq<(usize, usize)>>,
    ranges2: Option<Seq<(usize, usize)>>,
)
    requires
        decode(text1) is Some,
        decode(text2) is Some,
    ensures
        ({
            let kept = select_paired(
                decode(text1)->Some_0,
                decode(text2)->Some_0,
                index,
                ranges1,
                ranges2,
            );
            decode(encode_all(kept)) == Some(kept)
        }),
{
    crate::fastq::lemma_decoded_writable(text1);
    crate::fastq::lemma_decoded_writable(text2);
    lemma_select_paired_writable(
        decode(text1)->Some_0,
        decode(text2)->Some_0,
        index,
        ranges1,
        ranges2,
    );
    lemma_decode_encode(
        select_paired(decode(text1)->Some_0, decode(text2)->Some_0, index, ranges1, ranges2),
    );
}

/// Single-end extraction of one batch.
pub fn extract_single(
    records: &Vec<SequenceRecord>,
    index: &MatchIndex,
    ranges: &Option<Vec<(usize, usize)>>,
) -> (left: Vec<SequenceRecord>)
    ensures
        records_view(left@) == select_single(records_view(records@), index@, ranges_view(*ranges)),
{
    let ghost all = records_view(records@);
    let ghost tags = ranges_view(*ranges);
    let mut left: Vec<SequenceRecord> = Vec::new();
    let mut i: usize = 0;
    assert(records_view(left@) =~= Seq::empty());
    while i < records.len()
        invariant
            i <= records.len(),
            all == records_view(records@),
            tags == ranges_view(*ranges),
            records_view(left@) == select_single(all.take(i as int), index@, tags),
        decreases records.len() - i,
    {
        let record = &records[i];
        proof {
            assert(all.take(i + 1).drop_last() == all.take(i as int));
            assert(all.take(i + 1).last() == record@);
        }
        let name = name_of(record.header.as_slice());
        if index.contains(name.as_slice()) {
            let ghost before = records_view(left@);
            let kept = trim_sequence_record(record, ranges);
            left.push(kept);
            assert(records_view(left@) =~= before.push(trim_record(record@, tags)));
        }
        i += 1;
    }
    assert(all.take(records.len() as int) == all);
    left
}

/// Paired-end extraction of one batch of each mate stream. Streams of
/// different lengths are out of step.
pub fn extract_paired(
    mate1: &Vec<SequenceRecord>,
    mate2: &Vec<SequenceRecord>,
    index: &MatchIndex,
    ranges1: &Option<Vec<(usize, usize)>>,
    ranges2: &Option<Vec<(usize, usize)>>,
) -> (left: Result<Vec<SequenceRecord>, PipelineError>)
    ensures
        match left {
            Ok(records) => mate1.len() == mate2.len() && records_view(records@) == select_paired(
                records_view(mate1@),
                records_view(mate2@),
                index@,
                ranges_view(*ranges1),
                ranges_view(*ranges2),
            ),
            Err(e) => mate1.len() != mate2.len() && e == (PipelineError::PairingMismatch {
                mate1: mate1.len(),
                mate2: mate2.len(),
            }),
        },
{
    if mate1.len() != mate2.len() {
        return Err(PipelineError::PairingMismatch { mate1: mate1.len(), mate2: mate2.len() });
    }
    let ghost first = records_view(mate1@);
    let ghost second = records_view(mate2@);
    let ghost tags1 = ranges_view(*ranges1);
    let ghost tags2 = ranges_view(*ranges2);
    let mut left: Vec<SequenceRecord> = Vec::new();
    let mut i: usize = 0;
    assert(records_view(left@) =~= Seq::empty());
    while i < mate1.len()
        invariant
            i <= mate1.len(),
            mate1.len() == mate2.len(),
            first == records_view(mate1@),
            second == records_view(mate2@),
            tags1 == ranges_view(*ranges1),
            tags2 == ranges_view(*ranges2),
            records_view(left@) == select_paired(
                first.take(i as int),
                second.take(i as int),
                index@,
                tags1,
                tags2,
            ),
        decreases mate1.len() - i,
    {
        let a = &mate1[i];
        let b = &mate2[i];
        proof {
            assert(first.take(i + 1).drop_last() == first.take(i as int));
            assert(first.take(i + 1).last() == a@);
            assert(second.take(i + 1).drop_last() == second.take(i as int));
            assert(second.take(i + 1).last() == b@);
        }
        let name = name_of(a.header.as_slice());
        if index.contains(name.as_slice()) {
            let ghost before = records_view(left@);
            let kept1 = trim_sequence_record(a, ranges1);
            let kept2 = trim_sequence_record(b, ranges2);
            left.push(kept1);
            left.push(kept2);
            assert(records_view(left@) =~= before.push(trim_record(a@, tags1)).push(
                trim_record(b@, tags2),
            ));
        }
        i += 1;
    }
    proof {
        assert(first.take(mate1.len() as int) == first);
        assert(second.take(mate2.len() as int) == second);
    }
    Ok(left)
}

/// The compressed block for a batch of records: their written form as one
/// gzip stream. Out of the block the codec reads the written form again, and
/// records that can be written are read back from it as they were.
pub fn write_block(records: &Vec<SequenceRecord>, level: i32) -> (block: Result<
    Vec<u8>,
    PipelineError,
>)
    ensures
        match block {
            Ok(b) => {
                let text = encode_all(records_view(records@));
                &&& legal_level(level as int)
                &&& b@ == compressed(level as int, text)
                &&& gzip_content(b@) == Some(text)
                &&& (forall|k: int| 0 <= k < records.len() ==> writable(#[trigger] records@[k]@))
                    ==> decode(text) == Some(records_view(records@))
            },
            Err(e) => !legal_level(level as int) && e == PipelineError::InvalidConfig(
                ConfigField::CompressionLevel,
            ),
        },
{
    let text = encode_records(records);
    proof {
        let views = records_view(records@);
        if forall|k: int| 0 <= k < records.len() ==> writable(#[trigger] records@[k]@) {
            assert forall|k: int| 0 <= k < views.len() implies writable(#[trigger] views[k]) by {
                assert(views[k] == records@[k]@);
            }
            lemma_decode_encode(views);
        }
    }
    compress(level, text.as_slice())
}

/// What reading the records of a block into `room` bytes of text may give:
/// the records where the block holds a text that fits and writes records;
/// else the error of the codec, or that of a text that writes no records.
pub open spec fn block_reads_to(
    block: Seq<u8>,
    room: nat,
    read: Result<Seq<SequenceView>, PipelineError>,
) -> bool {
    match gzip_content(block) {
        Some(text) => if text.len() <= room {
            match decode(text) {
                Some(records) => read == Ok::<Seq<SequenceView>, PipelineError>(records),
                None => read == Err::<Seq<SequenceView>, PipelineError>(
                    PipelineError::Io(IoFault::Corrupt),
                ),
            }
        } else {
            read == Err::<Seq<SequenceView>, PipelineError>(PipelineError::Io(IoFault::Room))
        },
        None => read == Err::<Seq<SequenceView>, PipelineError>(
            PipelineError::Io(IoFault::Corrupt),
        ) || read == Err::<Seq<SequenceView>, PipelineError>(PipelineError::Io(IoFault::Room)),
    }
}

/// A result with its records as plain values.
pub open spec fn records_result(read: Result<Vec<SequenceRecord>, PipelineError>) -> Result<
    Seq<SequenceView>,
    PipelineError,
> {
    match read {
        Ok(records) => Ok(records_view(records@)),
        Err(e) => Err(e),
    }
}

/// Reads the records of a compressed block whose written form takes at most
/// `room` bytes.
pub fn read_block(block: &[u8], room: usize) -> (read: Result<Vec<SequenceRecord>, PipelineError>)
    ensures
        block_reads_to(block@, room as nat, records_result(read)),
{
    match decompress(block, room) {
        Ok(text) => decode_records(text.as_slice()),
        Err(e) => Err(e),
    }
}

/// The byte strings of an optional list, as plain values.
pub open spec fn optional_rows(rows: Option<Vec<Vec<u8>>>) -> Option<Seq<Seq<u8>>> {
    match rows {
        Some(list) => Some(crate::bytes::byte_rows(list@)),
        None => None,
    }
}

/// The records that extraction leaves of a batch of lines of the first mate
/// and, for pairs, of the second: the error of lines that write no records
/// or of mates out of step, else the records that are kept.
pub open spec fn batch_selection(
    lines1: Seq<Seq<u8>>,
    lines2: Option<Seq<Seq<u8>>>,
    index: Map<Seq<u8>, Seq<u8>>,
    ranges1: Option<Seq<(usize, usize)>>,
    ranges2: Option<Seq<(usize, usize)>>,
) -> Result<Seq<SequenceView>, PipelineError> {
    match crate::fastq::records_of(lines1) {
        None => Err(PipelineError::Io(IoFault::Corrupt)),
        Some(first) => match lines2 {
            None => Ok(select_single(first, index, ranges1)),
            Some(lines) => match crate::fastq::records_of(lines) {
                None => Err(PipelineError::Io(IoFault::Corrupt)),
                Some(second) => if first.len() != second.len() {
                    Err(
                        PipelineError::PairingMismatch {
                            mate1: first.len() as usize,
                            mate2: second.len() as usize,
                        },
                    )
                } else {
                    Ok(select_paired(first, second, index, ranges1, ranges2))
                },
            },
        },
    }
}

/// One unit of extraction work: reads the records of a batch of lines,
/// keeps and trims those of the index, and compresses what is left into one
/// block. Returns the number of records in the block with the block.
pub fn extract_block(
    lines1: &Vec<Vec<u8>>,
    lines2: &Option<Vec<Vec<u8>>>,
    index: &MatchIndex,
    ranges1: &Option<Vec<(usize, usize)>>,
    ranges2: &Option<Vec<(usize, usize)>>,
    level: i32,
) -> (done: Result<(usize, Vec<u8>), PipelineError>)
    ensures
        ({
            let selection = batch_selection(
                crate::bytes::byte_rows(lines1@),
                optional_rows(*lines2),
                index@,
                ranges_view(*ranges1),
                ranges_view(*ranges2),
            );
            match done {
                Ok((count, block)) => selection matches Ok(left) && legal_level(level as int)
                    && count == left.len() && block@ == compressed(level as int, encode_all(left))
                    && gzip_content(block@) == Some(encode_all(left)),
                Err(e) => match selection {
                    Err(s) => e == s,
                    Ok(_) => !legal_level(level as int) && e == PipelineError::InvalidConfig(
                        ConfigField::CompressionLevel,
                    ),
                },
            }
        }),
{
    let first = match crate::fastq::records_from_lines(lines1) {
        Ok(first) => first,
        Err(e) => {
            return Err(e);
        },
    };
    let left = match lines2 {
        None => extract_single(&first, index, ranges1),
        Some(lines) => {
            let second = match crate::fastq::records_from_lines(lines) {
                Ok(second) => second,
                Err(e) => {
                    return Err(e);
                },
            };
            match extract_paired(&first, &second, index, ranges1, ranges2) {
                Ok(left) => left,
                Err(e) => {
                    return Err(e);
                },
            }
        },
    };
    match write_block(&left, level) {
        Ok(block) => Ok((left.len(), block)),
        Err(e) => Err(e),
    }
}

} // verus!
