use crate::bytes::byte_rows;
use crate::bytes::copy_bytes;
use crate::bytes::copy_range;
use crate::bytes::find_byte;
use crate::bytes::first_index;
use crate::bytes::split;
use crate::bytes::split_bytes;
use crate::bytes::TAB;
use crate::error::RowFault;
use vstd::prelude::*;

verus! {

/// The flag of a row whose read was classified.
pub const FLAG_CLASSIFIED: u8 = 67;

/// The flag of a row whose read was not classified.
pub const FLAG_UNCLASSIFIED: u8 = 85;

/// The byte between the two lengths of a pair of mates.
pub const MATE_SEPARATOR: u8 = 124;

/// The length of a read, and that of its mate where the row is about a pair.
#[derive(Debug, Clone, Copy, PartialEq, Eq, Structural)]
pub struct SeqLength {
    pub first: u64,
    pub second: Option<u64>,
}

/// One row of classification output.
#[derive(Debug)]
pub struct ClassificationRecord {
    pub classified: bool,
    pub read_id: Vec<u8>,
    pub taxid: Vec<u8>,
    pub length: SeqLength,
    pub evidence: Vec<u8>,
}

/// A row of classification output as plain values.
pub struct RecordView {
    pub classified: bool,
    pub read_id: Seq<u8>,
    pub taxid: Seq<u8>,
    pub length: SeqLength,
    pub evidence: Seq<u8>,
}

impl View for ClassificationRecord {
    type V = RecordView;

    open spec fn view(&self) -> RecordView {
        RecordView {
            classified: self.classified,
            read_id: self.read_id@,
            taxid: self.taxid@,
            length: self.length,
            evidence: self.evidence@,
        }
    }
}

/// `b` is a decimal digit.
pub open spec fn is_digit(b: u8) -> bool {
    48 <= b <= 57
}

/// Every byte of `s` is a decimal digit.
pub open spec fn all_digits(s: Seq<u8>) -> bool {
    forall|i: int| 0 <= i < s.len() ==> is_digit(#[trigger] s[i])
}

/// The number that the digits of `s` write in base ten.
pub open spec fn decimal_value(s: Seq<u8>) -> nat
    decreases s.len(),
{
    if s.len() == 0 {
        0
    } else {
        (decimal_value(s.drop_last()) * 10 + (s.last() - 48)) as nat
    }
}

/// The number that `s` writes, where `s` is one digit or more and the number
/// fits in 64 bits.
pub open spec fn parse_decimal(s: Seq<u8>) -> Option<u64> {
    if s.len() > 0 && all_digits(s) && decimal_value(s) <= u64::MAX {
        Some(decimal_value(s) as u64)
    } else {
        None
    }
}

/// The length field of a row: one number, or two with a bar between them.
pub open spec fn parse_length(s: Seq<u8>) -> Option<SeqLength> {
    let bar = first_index(s, MATE_SEPARATOR);
    if bar >= s.len() {
        match parse_decimal(s) {
            Some(first) => Some(SeqLength { first, second: None }),
            None => None,
        }
    } else {
        match (parse_decimal(s.take(bar as int)), parse_decimal(s.skip(bar as int + 1))) {
            (Some(first), Some(second)) => Some(SeqLength { first, second: Some(second) }),
            _ => None,
        }
    }
}

/// What a row means: its five tab-separated fields are the flag, the read
/// id, the assigned taxon, the length and the evidence string.
pub open spec fn parse_row(line: Seq<u8>) -> Result<RecordView, RowFault> {
    let fields = split(line, TAB);
    if fields.len() != 5 {
        Err(RowFault::FieldCount)
    } else if fields[0] != seq![FLAG_CLASSIFIED] && fields[0] != seq![FLAG_UNCLASSIFIED] {
        Err(RowFault::Flag)
    } else {
        match parse_length(fields[3]) {
            None => Err(RowFault::Length),
            Some(length) => Ok(
                RecordView {
                    classified: fields[0] == seq![FLAG_CLASSIFIED],
                    read_id: fields[1],
                    taxid: fields[2],
                    length,
                    evidence: fields[4],
                },
            ),
        }
    }
}

/// A digit string is worth at least as much as any of its prefixes.
pub proof fn lemma_decimal_prefix(s: Seq<u8>, n: int)
    requires
        0 <= n <= s.len(),
        all_digits(s),
    ensures
        decimal_value(s.take(n)) <= decimal_value(s),
    decreases s.len() - n,
{
    if n < s.len() {
        lemma_decimal_prefix(s, n + 1);
        assert(s.take(n + 1).drop_last() == s.take(n));
        assert(is_digit(s[n]));
    } else {
        assert(s.take(n) == s);
    }
}

/// Reads a decimal number; nothing where `s` is empty, holds another byte
/// than a digit, or writes a number beyond 64 bits.
pub fn read_decimal(s: &[u8]) -> (value: Option<u64>)
    ensures
        value == parse_decimal(s@),
{
    if s.len() == 0 {
        return None;
    }
    let mut total: u64 = 0;
    let mut i: usize = 0;
    while i < s.len()
        invariant
            i <= s.len(),
            all_digits(s@.take(i as int)),
            total == decimal_value(s@.take(i as int)),
        decreases s.len() - i,
    {
        let b = s[i];
        if b < 48 || b > 57 {
            assert(!is_digit(s@[i as int]));
            return None;
        }
        proof {
            assert(s@.take(i + 1).drop_last() == s@.take(i as int));
            assert forall|k: int| 0 <= k < i + 1 implies is_digit(#[trigger] s@.take(i + 1)[k]) by {
                if k < i {
                    assert(is_digit(s@.take(i as int)[k]));
                }
            }
        }
        let digit: u64 = (b - 48) as u64;
        let next = match total.checked_mul(10) {
            Some(scaled) => scaled.checked_add(digit),
            None => None,
        };
        match next {
            Some(v) => {
                total = v;
            },
            None => {
                proof {
                    assert(decimal_value(s@.take(i + 1)) > u64::MAX);
                    if all_digits(s@) {
                        lemma_decimal_prefix(s@, i + 1);
                    }
                }
                return None;
            },
        }
        i += 1;
    }
    assert(s@.take(s.len() as int) == s@);
    Some(total)
}

/// Reads the length field of a row.
pub fn read_length(s: &[u8]) -> (length: Option<SeqLength>)
    ensures
        length == parse_length(s@),
{
    let bar = find_byte(s, 0, MATE_SEPARATOR);
    assert(s@.skip(0) == s@);
    if bar == s.len() {
        match read_decimal(s) {
            Some(first) => Some(SeqLength { first, second: None }),
            None => None,
        }
    } else {
        let head = copy_range(s, 0, bar);
        let tail = copy_range(s, bar + 1, s.len());
        assert(s@.subrange(0, bar as int) == s@.take(bar as int));
        assert(s@.subrange(bar + 1, s.len() as int) == s@.skip(bar + 1));
        match (read_decimal(head.as_slice()), read_decimal(tail.as_slice())) {
            (Some(first), Some(second)) => Some(SeqLength { first, second: Some(second) }),
            _ => None,
        }
    }
}

/// Reads one row of classification output, or says what is wrong with it.
pub fn read_row(line: &[u8]) -> (row: Result<ClassificationRecord, RowFault>)
    ensures
        match row {
            Ok(record) => parse_row(line@) == Ok::<RecordView, RowFault>(record@),
            Err(fault) => parse_row(line@) == Err::<RecordView, RowFault>(fault),
        },
{
    let fields = split_bytes(line, TAB);
    let ghost parts = byte_rows(fields@);
    if fields.len() != 5 {
        return Err(RowFault::FieldCount);
    }
    assert(parts[0] == fields@[0]@ && parts[1] == fields@[1]@ && parts[2] == fields@[2]@
        && parts[3] == fields@[3]@ && parts[4] == fields@[4]@);
    let flag = &fields[0];
    if flag.len() != 1 || (flag[0] != FLAG_CLASSIFIED && flag[0] != FLAG_UNCLASSIFIED) {
        proof {
            if flag.len() == 1 {
                assert(seq![FLAG_CLASSIFIED][0] == FLAG_CLASSIFIED);
                assert(seq![FLAG_UNCLASSIFIED][0] == FLAG_UNCLASSIFIED);
            } else {
                assert(seq![FLAG_CLASSIFIED].len() == 1);
                assert(seq![FLAG_UNCLASSIFIED].len() == 1);
            }
        }
        return Err(RowFault::Flag);
    }
    let classified = flag[0] == FLAG_CLASSIFIED;
    proof {
        assert(classified ==> flag@ =~= seq![FLAG_CLASSIFIED]);
        assert(!classified ==> flag@ =~= seq![FLAG_UNCLASSIFIED]);
        assert(seq![FLAG_CLASSIFIED][0] != seq![FLAG_UNCLASSIFIED][0]);
    }
    let length = match read_length(fields[3].as_slice()) {
        Some(length) => length,
        None => {
            return Err(RowFault::Length);
        },
    };
    let evidence = copy_bytes(fields[4].as_slice());
    let taxid = copy_bytes(fields[2].as_slice());
    let read_id = copy_bytes(fields[1].as_slice());
    Ok(ClassificationRecord { classified, read_id, taxid, length, evidence })
}

} // verus!
