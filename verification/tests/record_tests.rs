use koutput_reads::error::RowFault;
use koutput_reads::record::read_decimal;
use koutput_reads::record::read_length;
use koutput_reads::record::read_row;
use koutput_reads::record::SeqLength;

#[test]
fn classified_row_is_read_field_by_field() {
    let r = read_row(b"C\tread1\t562\t150\t562:13 561:4 A:31 0:1 562:3").unwrap();
    assert!(r.classified);
    assert_eq!(r.read_id, b"read1".to_vec());
    assert_eq!(r.taxid, b"562".to_vec());
    assert_eq!(r.length, SeqLength { first: 150, second: None });
    assert_eq!(r.evidence, b"562:13 561:4 A:31 0:1 562:3".to_vec());
}

#[test]
fn unclassified_row_is_read() {
    let r = read_row(b"U\tread2\t0\t75\t0:41").unwrap();
    assert!(!r.classified);
    assert_eq!(r.read_id, b"read2".to_vec());
    assert_eq!(r.taxid, b"0".to_vec());
    assert_eq!(r.length, SeqLength { first: 75, second: None });
    assert_eq!(r.evidence, b"0:41".to_vec());
}

#[test]
fn paired_row_carries_both_lengths() {
    let r = read_row(b"C\tpair7\t9606\t98|94\t9606:64 |:| 9606:60").unwrap();
    assert_eq!(r.length, SeqLength { first: 98, second: Some(94) });
    assert_eq!(r.evidence, b"9606:64 |:| 9606:60".to_vec());
}

#[test]
fn empty_fields_other_than_flag_and_length_are_kept_as_they_are() {
    let r = read_row(b"C\t\t\t1\t").unwrap();
    assert_eq!(r.read_id, Vec::<u8>::new());
    assert_eq!(r.taxid, Vec::<u8>::new());
    assert_eq!(r.evidence, Vec::<u8>::new());
}

#[test]
fn wrong_field_count_is_reported() {
    assert_eq!(read_row(b"").unwrap_err(), RowFault::FieldCount);
    assert_eq!(read_row(b"C\tread1\t562\t150").unwrap_err(), RowFault::FieldCount);
    assert_eq!(read_row(b"C\tread1\t562\t150\t562:1\textra").unwrap_err(), RowFault::FieldCount);
    assert_eq!(read_row(b"C read1 562 150 562:1").unwrap_err(), RowFault::FieldCount);
}

#[test]
fn unknown_flag_is_reported() {
    assert_eq!(read_row(b"X\tread1\t562\t150\t562:1").unwrap_err(), RowFault::Flag);
    assert_eq!(read_row(b"\tread1\t562\t150\t562:1").unwrap_err(), RowFault::Flag);
    assert_eq!(read_row(b"CU\tread1\t562\t150\t562:1").unwrap_err(), RowFault::Flag);
    assert_eq!(read_row(b"c\tread1\t562\t150\t562:1").unwrap_err(), RowFault::Flag);
}

#[test]
fn unparsable_length_is_reported() {
    for bad in ["", "abc", "15o", "-5", "1.5", " 150", "150 ", "|", "98|", "|94", "98|94|3", "98||94"] {
        let line = format!("C\tread1\t562\t{}\t562:1", bad);
        assert_eq!(read_row(line.as_bytes()).unwrap_err(), RowFault::Length, "{:?}", bad);
    }
}

#[test]
fn flag_is_checked_before_length() {
    assert_eq!(read_row(b"X\tread1\t562\tabc\t562:1").unwrap_err(), RowFault::Flag);
}

#[test]
fn decimal_numbers_are_read_exactly() {
    assert_eq!(read_decimal(b"0"), Some(0));
    assert_eq!(read_decimal(b"7"), Some(7));
    assert_eq!(read_decimal(b"150"), Some(150));
    assert_eq!(read_decimal(b"000150"), Some(150));
    assert_eq!(read_decimal(b"18446744073709551615"), Some(u64::MAX));
    assert_eq!(read_decimal(b"18446744073709551616"), None);
    assert_eq!(read_decimal(b"99999999999999999999999"), None);
    assert_eq!(read_decimal(b""), None);
    assert_eq!(read_decimal(b"12a"), None);
    assert_eq!(read_decimal(b"+12"), None);
}

#[test]
fn number_too_large_followed_by_a_letter_is_no_number() {
    assert_eq!(read_decimal(b"99999999999999999999999x"), None);
}

#[test]
fn length_field_is_one_number_or_two() {
    assert_eq!(read_length(b"150"), Some(SeqLength { first: 150, second: None }));
    assert_eq!(read_length(b"98|94"), Some(SeqLength { first: 98, second: Some(94) }));
    assert_eq!(read_length(b"0|0"), Some(SeqLength { first: 0, second: Some(0) }));
    assert_eq!(read_length(b"98|"), None);
    assert_eq!(read_length(b""), None);
}
