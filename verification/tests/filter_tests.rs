use koutput_reads::closure::IncludeSet;
use koutput_reads::closure::ReportEntry;
use koutput_reads::error::PipelineError;
use koutput_reads::error::RowFault;
use koutput_reads::exclusion::ExclusionMatcher;
use koutput_reads::filter::filter_batch;
use koutput_reads::filter::is_retained;
use koutput_reads::match_index::MatchEntry;
use koutput_reads::match_index::MatchIndex;
use koutput_reads::record::read_row;

fn entry(taxid: &str, lineage: &[&str]) -> ReportEntry {
    ReportEntry {
        taxid: taxid.as_bytes().to_vec(),
        lineage: lineage.iter().map(|t| t.as_bytes().to_vec()).collect(),
    }
}

fn include_root() -> IncludeSet {
    let report = vec![entry("1", &[]), entry("2", &["1"]), entry("3", &["1"])];
    IncludeSet::from_report(&report, &vec![b"1".to_vec()]).unwrap()
}

fn exclude(list: &[&str]) -> Option<ExclusionMatcher> {
    let ids: Vec<Vec<u8>> = list.iter().map(|t| t.as_bytes().to_vec()).collect();
    Some(ExclusionMatcher::compile(&ids).unwrap())
}

fn rows(list: &[&str]) -> Vec<Vec<u8>> {
    list.iter().map(|t| t.as_bytes().to_vec()).collect()
}

fn pairs(entries: &[MatchEntry]) -> Vec<(Vec<u8>, Vec<u8>)> {
    entries.iter().map(|e| (e.read_id.clone(), e.taxid.clone())).collect()
}

#[test]
fn row_of_included_taxon_is_retained_without_exclusion_list() {
    let kept = include_root();
    let row = read_row(b"C\tr1\t3\t100\t3:10").unwrap();
    assert!(is_retained(&kept, &None, &row));
}

#[test]
fn row_of_taxon_outside_the_include_set_is_dropped() {
    let kept = include_root();
    let row = read_row(b"C\tr1\t4\t100\t4:10").unwrap();
    assert!(!is_retained(&kept, &None, &row));
    let unclassified = read_row(b"U\tr2\t0\t100\t0:10").unwrap();
    assert!(!is_retained(&kept, &None, &unclassified));
}

#[test]
fn row_whose_evidence_names_an_excluded_taxon_is_dropped() {
    let kept = include_root();
    let matcher = exclude(&["2"]);
    let tainted = read_row(b"C\tr1\t3\t100\t3:5 2:5").unwrap();
    assert!(!is_retained(&kept, &matcher, &tainted));
    let clean = read_row(b"C\tr2\t3\t100\t3:10").unwrap();
    assert!(is_retained(&kept, &matcher, &clean));
}

#[test]
fn exclusion_looks_at_the_evidence_not_at_the_assigned_taxon() {
    let kept = include_root();
    let matcher = exclude(&["2"]);
    let row = read_row(b"C\tr1\t2\t100\t3:10").unwrap();
    assert!(is_retained(&kept, &matcher, &row));
}

#[test]
fn batch_leaves_retained_rows_in_order() {
    let kept = include_root();
    let matcher = exclude(&["2"]);
    let batch = rows(&[
        "C\tr1\t3\t100\t3:10",
        "C\tr2\t3\t100\t3:5 2:5",
        "U\tr3\t0\t100\t0:10",
        "C\tr4\t1\t100\t1:10",
        "C\tr5\t9\t100\t9:10",
        "C\tr6\t2\t50|50\t1:3 |:| 3:3",
    ]);
    let left = filter_batch(&batch, &kept, &matcher).unwrap();
    assert_eq!(
        pairs(&left),
        vec![
            (b"r1".to_vec(), b"3".to_vec()),
            (b"r4".to_vec(), b"1".to_vec()),
            (b"r6".to_vec(), b"2".to_vec()),
        ]
    );
}

#[test]
fn empty_batch_leaves_nothing() {
    let left = filter_batch(&rows(&[]), &include_root(), &None).unwrap();
    assert!(left.is_empty());
}

#[test]
fn first_malformed_row_fails_the_batch() {
    let kept = include_root();
    let batch = rows(&[
        "C\tr1\t3\t100\t3:10",
        "C\tr2\t3\tlong\t3:10",
        "C\tr3\t3",
    ]);
    match filter_batch(&batch, &kept, &None) {
        Err(e) => assert_eq!(e, PipelineError::RecordParse { row: 1, fault: RowFault::Length }),
        Ok(_) => panic!("a malformed row was passed over"),
    }
}

#[test]
fn malformed_row_fails_the_batch_even_where_its_taxon_is_not_wanted() {
    let batch = rows(&["C\tr1\t3\t100\t3:10", "", "C\tr3\t3\t1\t3:1"]);
    match filter_batch(&batch, &include_root(), &None) {
        Err(e) => assert_eq!(e, PipelineError::RecordParse { row: 1, fault: RowFault::FieldCount }),
        Ok(_) => panic!("an empty row was passed over"),
    }
}

#[test]
fn new_index_is_empty() {
    let index = MatchIndex::new();
    assert!(index.is_empty());
    assert_eq!(index.len(), 0);
    assert!(!index.contains(b"r1"));
    assert_eq!(index.taxon_of(b"r1"), None);
}

#[test]
fn merged_index_answers_for_every_entry() {
    let kept = include_root();
    let first = filter_batch(&rows(&["C\tr1\t3\t100\t3:10", "C\tr2\t2\t100\t2:10"]), &kept, &None)
        .unwrap();
    let second = filter_batch(&rows(&["C\tr3\t1\t100\t1:10", "C\tr9\t9\t1\t9:1"]), &kept, &None)
        .unwrap();
    let index = MatchIndex::new().merge(first).merge(second);
    assert!(!index.is_empty());
    assert_eq!(index.len(), 3);
    assert!(index.contains(b"r1"));
    assert!(index.contains(b"r2"));
    assert!(index.contains(b"r3"));
    assert!(!index.contains(b"r9"));
    assert!(!index.contains(b"r"));
    assert_eq!(index.taxon_of(b"r2"), Some(b"2".to_vec()));
    assert_eq!(index.taxon_of(b"r3"), Some(b"1".to_vec()));
}

#[test]
fn later_entry_for_a_read_replaces_the_earlier_one() {
    let entries = vec![
        MatchEntry { read_id: b"r1".to_vec(), taxid: b"2".to_vec() },
        MatchEntry { read_id: b"r1".to_vec(), taxid: b"3".to_vec() },
    ];
    let index = MatchIndex::new().merge(entries);
    assert_eq!(index.len(), 1);
    assert_eq!(index.taxon_of(b"r1"), Some(b"3".to_vec()));
}

#[test]
fn membership_does_not_depend_on_the_order_of_batches() {
    let kept = include_root();
    let a = rows(&["C\tr1\t3\t100\t3:10", "C\tr2\t2\t100\t2:10"]);
    let b = rows(&["C\tr3\t1\t100\t1:10"]);
    let ab = MatchIndex::new()
        .merge(filter_batch(&a, &kept, &None).unwrap())
        .merge(filter_batch(&b, &kept, &None).unwrap());
    let ba = MatchIndex::new()
        .merge(filter_batch(&b, &kept, &None).unwrap())
        .merge(filter_batch(&a, &kept, &None).unwrap());
    for id in ["r1", "r2", "r3", "r4"] {
        assert_eq!(ab.contains(id.as_bytes()), ba.contains(id.as_bytes()));
        assert_eq!(ab.taxon_of(id.as_bytes()), ba.taxon_of(id.as_bytes()));
    }
    assert_eq!(ab.len(), ba.len());
}
