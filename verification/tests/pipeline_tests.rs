use koutput_reads::codec::decompress;
use koutput_reads::config::Config;
use koutput_reads::error::ConfigField;
use koutput_reads::error::IoFault;
use koutput_reads::error::PatternFault;
use koutput_reads::error::PipelineError;
use koutput_reads::error::RowFault;
use koutput_reads::error::TaxonomyFault;
use koutput_reads::pipeline::filter_text;
use koutput_reads::pipeline::prepare_filters;
use koutput_reads::pipeline::Request;
use koutput_reads::pipeline::run;
use koutput_reads::pipeline::RunOutput;
use koutput_reads::pipeline::select_records;

const REPORT: &str = "100.00\t6\t1\tR\t1\troot\n\
 50.00\t3\t3\tD\t2\t  Bacteria\n\
 33.00\t2\t2\tD\t3\t  Archaea\n";

const ROWS: &str = "C\tr1\t3\t8\t3:10\n\
C\tr2\t3\t8\t3:5 2:5\n\
U\tr3\t0\t8\t0:10\n\
C\tr4\t2\t8\t2:10\n\
C\tr5\t1\t8\t1:10\n";

const MATE1: &str = "@r1 1\nAACCGGTT\n+\n12345678\n\
@r2 1\nCCCCCCCC\n+\n22222222\n\
@r3 1\nGGGGGGGG\n+\n33333333\n\
@r4 1\nTTTTTTTT\n+\n44444444\n\
@r5 1\nACACACAC\n+\n55555555\n";

const MATE2: &str = "@r1 2\nTTGGCCAA\n+\nabcdefgh\n\
@r2 2\nGGGGGGGG\n+\nbbbbbbbb\n\
@r3 2\nCCCCCCCC\n+\ncccccccc\n\
@r4 2\nAAAAAAAA\n+\ndddddddd\n\
@r5 2\nGTGTGTGT\n+\neeeeeeee\n";

fn config() -> Config {
    Config {
        classification_batch: 2,
        read_batch: 2,
        chunk_bytes: 64,
        compression_level: 6,
        queue_depth: None,
        threads: 1,
    }
}

fn request() -> Request {
    Request {
        report: REPORT.as_bytes().to_vec(),
        classification: ROWS.as_bytes().to_vec(),
        mate1: MATE1.as_bytes().to_vec(),
        mate2: None,
        interest: vec![b"1".to_vec()],
        exclude: None,
        ranges1: None,
        ranges2: None,
    }
}

fn written(out: RunOutput) -> (usize, String) {
    match out {
        RunOutput::Written { records, block } => {
            (records, String::from_utf8(decompress(&block, 1 << 16).unwrap()).unwrap())
        }
        RunOutput::NoMatches => panic!("nothing was written"),
    }
}

#[test]
fn single_end_run_writes_the_reads_of_the_include_set() {
    let (records, text) = written(run(&config(), &request()).unwrap());
    assert_eq!(records, 4);
    assert_eq!(
        text,
        "@r1 1\nAACCGGTT\n+\n12345678\n\
@r2 1\nCCCCCCCC\n+\n22222222\n\
@r4 1\nTTTTTTTT\n+\n44444444\n\
@r5 1\nACACACAC\n+\n55555555\n"
    );
}

#[test]
fn excluded_taxon_drops_reads_whose_evidence_names_it() {
    let r = Request { exclude: Some(vec![b"2".to_vec()]), ..request() };
    let (records, text) = written(run(&config(), &r).unwrap());
    assert_eq!(records, 2);
    assert_eq!(text, "@r1 1\nAACCGGTT\n+\n12345678\n@r5 1\nACACACAC\n+\n55555555\n");
}

#[test]
fn paired_end_run_writes_both_mates_trimmed() {
    let r = Request {
        mate2: Some(MATE2.as_bytes().to_vec()),
        interest: vec![b"3".to_vec()],
        exclude: Some(vec![b"2".to_vec()]),
        ranges1: Some(vec![(0, 2)]),
        ranges2: Some(vec![(6, 8)]),
        ..request()
    };
    let (records, text) = written(run(&config(), &r).unwrap());
    assert_eq!(records, 2);
    assert_eq!(text, "@r1 1\nCCGGTT\n+\n345678\n@r1 2\nTTGGCC\n+\nabcdef\n");
}

#[test]
fn run_without_matches_succeeds_and_reads_no_sequence_text() {
    let r = Request {
        classification: b"C\tr1\t9\t8\t9:10\nU\tr3\t0\t8\t0:10\n".to_vec(),
        mate1: b"this is no sequence text".to_vec(),
        mate2: Some(b"nor is this".to_vec()),
        ..request()
    };
    match run(&config(), &r).unwrap() {
        RunOutput::NoMatches => {}
        RunOutput::Written { .. } => panic!("output was written without a match"),
    }
}

#[test]
fn empty_classification_text_gives_no_matches() {
    let r = Request { classification: Vec::new(), ..request() };
    assert!(matches!(run(&config(), &r).unwrap(), RunOutput::NoMatches));
}

#[test]
fn mate_streams_out_of_step_fail_the_run() {
    let short: String = MATE2.lines().take(16).map(|l| format!("{}\n", l)).collect();
    let r = Request { mate2: Some(short.into_bytes()), ..request() };
    assert_eq!(
        run(&config(), &r).unwrap_err(),
        PipelineError::PairingMismatch { mate1: 5, mate2: 4 }
    );
}

#[test]
fn illegal_compression_level_fails_before_anything_is_read() {
    let c = Config { compression_level: 13, ..config() };
    let r = Request {
        report: b"no report".to_vec(),
        classification: b"no rows".to_vec(),
        mate1: b"no reads".to_vec(),
        interest: vec![b"missing".to_vec()],
        exclude: Some(vec![]),
        ..request()
    };
    assert_eq!(
        run(&c, &r).unwrap_err(),
        PipelineError::InvalidConfig(ConfigField::CompressionLevel)
    );
}

#[test]
fn settings_are_checked_before_the_report() {
    let c = Config { threads: 0, ..config() };
    let r = Request { report: b"no report".to_vec(), ..request() };
    assert_eq!(run(&c, &r).unwrap_err(), PipelineError::InvalidConfig(ConfigField::Threads));
}

#[test]
fn errors_come_in_the_order_of_the_stages() {
    let bad_report = Request {
        report: b"no report\n".to_vec(),
        exclude: Some(vec![]),
        classification: b"bad row\n".to_vec(),
        ..request()
    };
    assert_eq!(
        run(&config(), &bad_report).unwrap_err(),
        PipelineError::TaxonomyParse(TaxonomyFault::MalformedLine { line: 0 })
    );
    let missing = Request {
        interest: vec![b"1".to_vec(), b"77".to_vec()],
        exclude: Some(vec![]),
        ..request()
    };
    assert_eq!(
        run(&config(), &missing).unwrap_err(),
        PipelineError::TaxonomyParse(TaxonomyFault::MissingTaxon { index: 1 })
    );
    let bad_list = Request {
        exclude: Some(vec![]),
        classification: b"bad row\n".to_vec(),
        ..request()
    };
    assert_eq!(
        run(&config(), &bad_list).unwrap_err(),
        PipelineError::PatternCompile(PatternFault::NoTaxon)
    );
    let bad_row = Request {
        classification: b"C\tr1\t3\t8\t3:10\nbad row\n".to_vec(),
        mate1: b"no reads".to_vec(),
        ..request()
    };
    assert_eq!(
        run(&config(), &bad_row).unwrap_err(),
        PipelineError::RecordParse { row: 1, fault: RowFault::FieldCount }
    );
    let bad_reads = Request { mate1: b"no reads".to_vec(), ..request() };
    assert_eq!(run(&config(), &bad_reads).unwrap_err(), PipelineError::Io(IoFault::Corrupt));
}

#[test]
fn two_runs_on_the_same_input_give_the_same_bytes() {
    let r = Request {
        mate2: Some(MATE2.as_bytes().to_vec()),
        exclude: Some(vec![b"2".to_vec()]),
        ranges1: Some(vec![(1, 3)]),
        ..request()
    };
    let first = run(&config(), &r).unwrap();
    let second = run(&config(), &r).unwrap();
    match (first, second) {
        (
            RunOutput::Written { records: n1, block: b1 },
            RunOutput::Written { records: n2, block: b2 },
        ) => {
            assert_eq!(n1, n2);
            assert_eq!(b1, b2);
        }
        _ => panic!("a run wrote nothing"),
    }
}

#[test]
fn output_is_read_back_at_every_level() {
    for level in 0..=12 {
        let c = Config { compression_level: level, ..config() };
        let (records, text) = written(run(&c, &request()).unwrap());
        assert_eq!(records, 4, "level {}", level);
        assert!(text.starts_with("@r1 1\nAACCGGTT\n+\n12345678\n"), "level {}", level);
        assert!(text.ends_with("@r5 1\nACACACAC\n+\n55555555\n"), "level {}", level);
    }
}

#[test]
fn stages_can_be_run_one_by_one() {
    let r = request();
    let filters =
        prepare_filters(&r.report, &r.interest, &Some(vec![b"2".to_vec()])).unwrap();
    assert!(filters.kept.contains(b"3"));
    assert!(filters.matcher.is_some());
    let index = filter_text(&r.classification, &filters).unwrap();
    assert_eq!(index.len(), 2);
    assert!(index.contains(b"r1"));
    assert!(index.contains(b"r5"));
    assert!(!index.contains(b"r2"));
    let left = select_records(&r, &index).unwrap();
    assert_eq!(left.len(), 2);
    assert_eq!(left[0].header, b"r1 1".to_vec());
    assert_eq!(left[1].header, b"r5 1".to_vec());
}

#[test]
fn mark_in_the_exclusion_list_drops_no_read() {
    let r = Request {
        report: b"100.00\t1\t0\tR\t1\troot\n100.00\t1\t1\tD\t3\t  Archaea\n".to_vec(),
        classification: b"C\tr1\t3\t4\t0:1 A:31 3:10\n".to_vec(),
        mate1: b"@r1\nACGT\n+\nIIII\n".to_vec(),
        mate2: None,
        interest: vec![b"1".to_vec()],
        exclude: Some(vec![b"0".to_vec()]),
        ranges1: None,
        ranges2: None,
    };
    let c = Config {
        classification_batch: 1,
        read_batch: 1,
        chunk_bytes: 1024,
        compression_level: 6,
        queue_depth: None,
        threads: 1,
    };
    let (records, text) = written(run(&c, &r).unwrap());
    assert_eq!(records, 1);
    assert_eq!(text, "@r1\nACGT\n+\nIIII\n");
}
