use koutput_reads::codec::compress;
use koutput_reads::codec::declared_size;
use koutput_reads::codec::decompress;
use koutput_reads::codec::finish_compress;
use koutput_reads::codec::finish_decompress;
use koutput_reads::codec::gunzip;
use koutput_reads::codec::gunzip_whole;
use koutput_reads::codec::InflateFault;
use koutput_reads::codec::is_gzip;
use koutput_reads::codec::is_legal_level;
use koutput_reads::error::ConfigField;
use koutput_reads::error::IoFault;
use koutput_reads::error::PipelineError;
use koutput_reads::extract::extract_block;
use koutput_reads::extract::extract_paired;
use koutput_reads::extract::extract_single;
use koutput_reads::extract::read_block;
use koutput_reads::extract::write_block;
use koutput_reads::fastq::encode_records;
use koutput_reads::fastq::SequenceRecord;
use koutput_reads::match_index::MatchEntry;
use koutput_reads::match_index::MatchIndex;
use libdeflater::CompressionError;

fn record(header: &str, seq: &str, qual: &str) -> SequenceRecord {
    SequenceRecord {
        header: header.as_bytes().to_vec(),
        seq: seq.as_bytes().to_vec(),
        qual: qual.as_bytes().to_vec(),
    }
}

fn fields(r: &SequenceRecord) -> (Vec<u8>, Vec<u8>, Vec<u8>) {
    (r.header.clone(), r.seq.clone(), r.qual.clone())
}

fn all_fields(records: &[SequenceRecord]) -> Vec<(Vec<u8>, Vec<u8>, Vec<u8>)> {
    records.iter().map(fields).collect()
}

fn index_of(ids: &[&str]) -> MatchIndex {
    let entries = ids
        .iter()
        .map(|id| MatchEntry { read_id: id.as_bytes().to_vec(), taxid: b"3".to_vec() })
        .collect();
    MatchIndex::new().merge(entries)
}

fn mates(n: usize, tag: &str) -> Vec<SequenceRecord> {
    (0..n).map(|i| record(&format!("r{} {}", i, tag), "ACGTAC", "IIIIII")).collect()
}

#[test]
fn single_end_keeps_reads_of_the_index_in_input_order() {
    let records = vec![
        record("r1 a", "AAAA", "1111"),
        record("r2 b", "CCCC", "2222"),
        record("r3 c", "GGGG", "3333"),
        record("r4", "TTTT", "4444"),
    ];
    let left = extract_single(&records, &index_of(&["r4", "r2"]), &None);
    assert_eq!(
        all_fields(&left),
        vec![
            (b"r2 b".to_vec(), b"CCCC".to_vec(), b"2222".to_vec()),
            (b"r4".to_vec(), b"TTTT".to_vec(), b"4444".to_vec()),
        ]
    );
}

#[test]
fn single_end_trims_what_it_keeps() {
    let records = vec![record("r1", "AACCGG", "123456"), record("r2", "TTTTTT", "999999")];
    let left = extract_single(&records, &index_of(&["r1"]), &Some(vec![(0, 2)]));
    assert_eq!(all_fields(&left), vec![(b"r1".to_vec(), b"CCGG".to_vec(), b"3456".to_vec())]);
}

#[test]
fn single_end_with_empty_index_keeps_nothing() {
    let left = extract_single(&mates(3, "x"), &MatchIndex::new(), &None);
    assert!(left.is_empty());
}

#[test]
fn read_is_found_by_its_name_not_by_its_whole_header() {
    let records = vec![record("r1 extra words", "A", "1"), record("r1x", "C", "2")];
    let left = extract_single(&records, &index_of(&["r1"]), &None);
    assert_eq!(all_fields(&left), vec![(b"r1 extra words".to_vec(), b"A".to_vec(), b"1".to_vec())]);
}

#[test]
fn paired_end_keeps_both_mates_of_a_pair_one_after_the_other() {
    let mate1 = vec![record("r1 1", "AAAA", "1111"), record("r2 1", "CCCC", "2222")];
    let mate2 = vec![record("r1 2", "TTTT", "5555"), record("r2 2", "GGGG", "6666")];
    let left = extract_paired(&mate1, &mate2, &index_of(&["r2"]), &None, &None).unwrap();
    assert_eq!(
        all_fields(&left),
        vec![
            (b"r2 1".to_vec(), b"CCCC".to_vec(), b"2222".to_vec()),
            (b"r2 2".to_vec(), b"GGGG".to_vec(), b"6666".to_vec()),
        ]
    );
}

#[test]
fn paired_end_trims_each_mate_by_its_own_ranges() {
    let mate1 = vec![record("r1", "AACCGG", "123456")];
    let mate2 = vec![record("r1", "TTGGCC", "abcdef")];
    let left =
        extract_paired(&mate1, &mate2, &index_of(&["r1"]), &Some(vec![(0, 2)]), &Some(vec![(4, 6)]))
            .unwrap();
    assert_eq!(
        all_fields(&left),
        vec![
            (b"r1".to_vec(), b"CCGG".to_vec(), b"3456".to_vec()),
            (b"r1".to_vec(), b"TTGG".to_vec(), b"abcd".to_vec()),
        ]
    );
}

#[test]
fn pair_is_found_by_the_name_of_its_first_mate() {
    let mate1 = vec![record("a", "A", "1")];
    let mate2 = vec![record("b", "C", "2")];
    assert_eq!(extract_paired(&mate1, &mate2, &index_of(&["a"]), &None, &None).unwrap().len(), 2);
    assert_eq!(extract_paired(&mate1, &mate2, &index_of(&["b"]), &None, &None).unwrap().len(), 0);
}

#[test]
fn second_mate_stream_one_record_short_is_a_pairing_mismatch() {
    let n = 5;
    let index = index_of(&["r0", "r1", "r2", "r3", "r4"]);
    match extract_paired(&mates(n, "1"), &mates(n - 1, "2"), &index, &None, &None) {
        Err(e) => assert_eq!(e, PipelineError::PairingMismatch { mate1: 5, mate2: 4 }),
        Ok(_) => panic!("mates out of step were written"),
    }
}

#[test]
fn first_mate_stream_short_is_a_pairing_mismatch() {
    match extract_paired(&mates(0, "1"), &mates(2, "2"), &MatchIndex::new(), &None, &None) {
        Err(e) => assert_eq!(e, PipelineError::PairingMismatch { mate1: 0, mate2: 2 }),
        Ok(_) => panic!("mates out of step were written"),
    }
}

#[test]
fn block_is_read_back_at_every_legal_level() {
    let records = vec![
        record("r1 1:N:0", "ACGTACGTACGTACGTACGTACGT", "IIIIIIIIHHHHHHHHGGGGGGGG"),
        record("r2", "", ""),
        record("r3", "NNNN", "!!!!"),
    ];
    let text = encode_records(&records);
    for level in 0..=12 {
        let block = write_block(&records, level).unwrap();
        assert_ne!(block, text, "level {}", level);
        assert_eq!(&block[..2], &[0x1fu8, 0x8b][..], "level {}", level);
        assert_eq!(decompress(&block, text.len()).unwrap(), text, "level {}", level);
        let back = read_block(&block, text.len()).unwrap();
        assert_eq!(all_fields(&back), all_fields(&records), "level {}", level);
    }
}

#[test]
fn trimmed_records_are_read_back_as_trimmed() {
    let records = vec![record("r1", "AACCGGTT", "12345678"), record("r2", "ACGTACGT", "abcdefgh")];
    let left = extract_single(&records, &index_of(&["r1", "r2"]), &Some(vec![(0, 2), (6, 8)]));
    let block = write_block(&left, 6).unwrap();
    let back = read_block(&block, 1024).unwrap();
    assert_eq!(
        all_fields(&back),
        vec![
            (b"r1".to_vec(), b"CCGG".to_vec(), b"3456".to_vec()),
            (b"r2".to_vec(), b"GTAC".to_vec(), b"cdef".to_vec()),
        ]
    );
}

#[test]
fn same_records_give_the_same_block() {
    let records = mates(50, "x");
    for level in [0, 1, 6, 12] {
        assert_eq!(write_block(&records, level).unwrap(), write_block(&records, level).unwrap());
    }
}

#[test]
fn empty_batch_gives_a_block_that_holds_nothing() {
    let block = write_block(&vec![], 6).unwrap();
    assert!(!block.is_empty());
    assert_eq!(decompress(&block, 0).unwrap(), Vec::<u8>::new());
    assert_eq!(read_block(&block, 16).unwrap().len(), 0);
}

#[test]
fn illegal_level_is_a_configuration_error() {
    let e = PipelineError::InvalidConfig(ConfigField::CompressionLevel);
    assert_eq!(write_block(&mates(1, "x"), 13).unwrap_err(), e);
    assert_eq!(write_block(&mates(1, "x"), -1).unwrap_err(), e);
    assert_eq!(compress(i32::MAX, b"abc").unwrap_err(), e);
    assert_eq!(compress(i32::MIN, b"abc").unwrap_err(), e);
}

#[test]
fn legal_levels_run_from_zero_to_twelve() {
    for level in 0..=12 {
        assert!(is_legal_level(level), "level {}", level);
    }
    for level in [-2, -1, 13, 14, 100, i32::MIN, i32::MAX] {
        assert!(!is_legal_level(level), "level {}", level);
    }
}

#[test]
fn compressed_data_decompresses_to_itself() {
    let data: Vec<u8> = (0..5000u32).map(|i| (i % 251) as u8).collect();
    let stream = compress(9, &data).unwrap();
    assert_ne!(stream, data);
    assert_eq!(decompress(&stream, data.len()).unwrap(), data);
    assert_eq!(decompress(&stream, data.len() + 100).unwrap(), data);
}

#[test]
fn corrupt_stream_is_reported() {
    assert_eq!(decompress(b"not a gzip stream", 64).unwrap_err(), PipelineError::Io(IoFault::Corrupt));
    let mut stream = compress(6, b"some bytes to compress, some bytes to compress").unwrap();
    let last = stream.len() - 5;
    stream[last] ^= 0xff;
    assert_eq!(decompress(&stream, 64).unwrap_err(), PipelineError::Io(IoFault::Corrupt));
    assert_eq!(read_block(b"", 64).unwrap_err(), PipelineError::Io(IoFault::Corrupt));
}

#[test]
fn too_little_room_is_reported() {
    let stream = compress(6, b"0123456789").unwrap();
    assert_eq!(decompress(&stream, 9).unwrap_err(), PipelineError::Io(IoFault::Room));
    assert_eq!(decompress(&stream, 10).unwrap(), b"0123456789".to_vec());
}

#[test]
fn block_that_holds_no_records_is_corrupt() {
    let stream = compress(6, b"@r1\nACGT\n+\n").unwrap();
    assert_eq!(read_block(&stream, 64).unwrap_err(), PipelineError::Io(IoFault::Corrupt));
}

#[test]
fn gzip_streams_are_told_by_their_first_two_bytes() {
    assert!(is_gzip(&[0x1f, 0x8b]));
    assert!(is_gzip(&[0x1f, 0x8b, 8, 0]));
    assert!(is_gzip(&compress(1, b"abc").unwrap()));
    assert!(!is_gzip(&[0x1f]));
    assert!(!is_gzip(&[]));
    assert!(!is_gzip(&[0x8b, 0x1f]));
    assert!(!is_gzip(b"@r1\nACGT\n+\nIIII\n"));
}

#[test]
fn declared_size_is_written_in_the_last_four_bytes() {
    assert_eq!(declared_size(&[9, 9, 0x78, 0x56, 0x34, 0x12]), Some(0x12345678));
    assert_eq!(declared_size(&[1, 0, 0, 0]), Some(1));
    assert_eq!(declared_size(&[0xff, 0xff, 0xff, 0xff]), Some(u32::MAX));
    assert_eq!(declared_size(&[1, 2, 3]), None);
    assert_eq!(declared_size(&[]), None);
    let data = vec![7u8; 1000];
    assert_eq!(declared_size(&compress(6, &data).unwrap()), Some(1000));
}

#[test]
fn stream_is_decompressed_into_the_room_it_declares() {
    let data: Vec<u8> = (0..3000u32).map(|i| (i * 7 % 256) as u8).collect();
    for level in [0, 3, 12] {
        assert_eq!(gunzip(&compress(level, &data).unwrap()).unwrap(), data);
    }
    assert_eq!(gunzip(&compress(6, b"").unwrap()).unwrap(), Vec::<u8>::new());
    assert_eq!(gunzip(b"abc").unwrap_err(), PipelineError::Io(IoFault::Corrupt));
    assert_eq!(gunzip(b"no gzip stream at all").unwrap_err(), PipelineError::Io(IoFault::Corrupt));
}

#[test]
fn block_of_a_batch_of_lines_holds_the_kept_records() {
    let lines1: Vec<Vec<u8>> = "@r1 1\nAACC\n+\n1234\n@r2 1\nGGTT\n+\n5678"
        .split('\n')
        .map(|l| l.as_bytes().to_vec())
        .collect();
    let lines2: Vec<Vec<u8>> = "@r1 2\nTTGG\n+\nabcd\n@r2 2\nCCAA\n+\nefgh"
        .split('\n')
        .map(|l| l.as_bytes().to_vec())
        .collect();
    let index = index_of(&["r2"]);
    let (count, block) = extract_block(&lines1, &None, &index, &None, &None, 6).unwrap();
    assert_eq!(count, 1);
    assert_eq!(decompress(&block, 64).unwrap(), b"@r2 1\nGGTT\n+\n5678\n".to_vec());
    let (count, block) =
        extract_block(&lines1, &Some(lines2.clone()), &index, &Some(vec![(0, 1)]), &None, 6).unwrap();
    assert_eq!(count, 2);
    assert_eq!(
        decompress(&block, 64).unwrap(),
        b"@r2 1\nGTT\n+\n678\n@r2 2\nCCAA\n+\nefgh\n".to_vec()
    );
    let short = lines2[..4].to_vec();
    assert_eq!(
        extract_block(&lines1, &Some(short), &index, &None, &None, 6).unwrap_err(),
        PipelineError::PairingMismatch { mate1: 2, mate2: 1 }
    );
    assert_eq!(
        extract_block(&lines1[..3].to_vec(), &None, &index, &None, &None, 6).unwrap_err(),
        PipelineError::Io(IoFault::Corrupt)
    );
    assert_eq!(
        extract_block(&lines1, &None, &index, &None, &None, 13).unwrap_err(),
        PipelineError::InvalidConfig(ConfigField::CompressionLevel)
    );
}

#[test]
fn refusal_of_the_compressor_is_a_compression_error() {
    assert_eq!(
        finish_compress(Err(CompressionError::InsufficientSpace), vec![0u8; 8]).unwrap_err(),
        PipelineError::Io(IoFault::Compress)
    );
}

#[test]
fn buffer_is_cut_to_the_bytes_written() {
    assert_eq!(finish_compress(Ok(3), vec![1, 2, 3, 4, 5]).unwrap(), vec![1, 2, 3]);
    assert_eq!(finish_compress(Ok(0), vec![1, 2, 3]).unwrap(), Vec::<u8>::new());
    assert_eq!(finish_compress(Ok(9), vec![1, 2, 3]).unwrap(), vec![1, 2, 3]);
    assert_eq!(finish_decompress(Ok(2), vec![7, 8, 9]).unwrap(), vec![7, 8]);
    assert_eq!(finish_decompress(Ok(3), vec![7, 8, 9]).unwrap(), vec![7, 8, 9]);
}

#[test]
fn faults_of_the_decompressor_are_told_apart() {
    assert_eq!(
        finish_decompress(Err(InflateFault::BadData), vec![0u8; 4]).unwrap_err(),
        PipelineError::Io(IoFault::Corrupt)
    );
    assert_eq!(
        finish_decompress(Err(InflateFault::InsufficientSpace), vec![0u8; 4]).unwrap_err(),
        PipelineError::Io(IoFault::Room)
    );
}

#[test]
fn a_stream_of_one_member_is_read_whole() {
    let data: Vec<u8> = (0..3000u32).map(|i| (i * 13 % 256) as u8).collect();
    for level in [0, 1, 6, 12] {
        assert_eq!(gunzip_whole(&compress(level, &data).unwrap()).unwrap(), data);
    }
    assert_eq!(gunzip_whole(&compress(6, b"").unwrap()).unwrap(), Vec::<u8>::new());
}

#[test]
fn bytes_after_the_first_member_are_refused() {
    let first = compress(6, b"@r1\nACGT\n+\nIIII\n").unwrap();
    let mut two = first.clone();
    two.extend(compress(6, b"@r2\nGGCC\n+\nIIII\n").unwrap());
    assert_eq!(gunzip_whole(&two).unwrap_err(), PipelineError::Io(IoFault::Trailing));
    let mut twice = first.clone();
    twice.extend(first.clone());
    assert_eq!(gunzip_whole(&twice).unwrap_err(), PipelineError::Io(IoFault::Trailing));
    let mut padded = first.clone();
    padded.push(0);
    assert!(gunzip_whole(&padded).is_err());
    assert_eq!(gunzip_whole(&first).unwrap(), b"@r1\nACGT\n+\nIIII\n".to_vec());
}

#[test]
fn corrupt_stream_is_refused_whole() {
    assert_eq!(gunzip_whole(b"abc").unwrap_err(), PipelineError::Io(IoFault::Corrupt));
    assert_eq!(
        gunzip_whole(b"no gzip stream at all").unwrap_err(),
        PipelineError::Io(IoFault::Corrupt)
    );
}

#[test]
fn compression_never_fails_at_a_legal_level() {
    let mut state: u32 = 12345;
    let noise: Vec<u8> = (0..20000)
        .map(|_| {
            state = state.wrapping_mul(1664525).wrapping_add(1013904223);
            (state >> 24) as u8
        })
        .collect();
    for level in 0..=12 {
        for data in [&noise[..], &noise[..1], &noise[..0], &[0u8; 70000][..]] {
            let stream = compress(level, data).unwrap();
            assert_eq!(decompress(&stream, data.len()).unwrap(), data.to_vec());
        }
    }
}

#[test]
fn content_longer_than_the_room_is_a_room_error() {
    let stream = compress(6, &[9u8; 1000]).unwrap();
    for room in [0usize, 1, 999] {
        assert_eq!(decompress(&stream, room).unwrap_err(), PipelineError::Io(IoFault::Room));
        assert_eq!(read_block(&stream, room).unwrap_err(), PipelineError::Io(IoFault::Room));
    }
    assert_eq!(decompress(&stream, 1000).unwrap(), vec![9u8; 1000]);
}
