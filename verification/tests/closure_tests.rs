use koutput_reads::closure::AncestorIndex;
use koutput_reads::closure::DescendantIndex;
use koutput_reads::closure::IncludeSet;
use koutput_reads::closure::ReportEntry;
use koutput_reads::error::PipelineError;
use koutput_reads::error::TaxonomyFault;

fn entry(taxid: &str, lineage: &[&str]) -> ReportEntry {
    ReportEntry {
        taxid: taxid.as_bytes().to_vec(),
        lineage: lineage.iter().map(|t| t.as_bytes().to_vec()).collect(),
    }
}

fn taxa(ids: &[&str]) -> Vec<Vec<u8>> {
    ids.iter().map(|t| t.as_bytes().to_vec()).collect()
}

fn small_report() -> Vec<ReportEntry> {
    vec![entry("1", &[]), entry("2", &["1"]), entry("3", &["1"])]
}

#[test]
fn include_set_of_root_holds_all_three_taxa() {
    let kept = IncludeSet::from_report(&small_report(), &taxa(&["1"])).unwrap();
    assert!(kept.contains(b"1"));
    assert!(kept.contains(b"2"));
    assert!(kept.contains(b"3"));
    assert!(!kept.contains(b"4"));
    assert!(!kept.contains(b""));
}

#[test]
fn include_set_of_leaf_holds_only_the_leaf() {
    let kept = IncludeSet::from_report(&small_report(), &taxa(&["2"])).unwrap();
    assert!(kept.contains(b"2"));
    assert!(!kept.contains(b"1"));
    assert!(!kept.contains(b"3"));
}

#[test]
fn include_set_follows_deep_lineages() {
    let report = vec![
        entry("1", &[]),
        entry("10", &["1"]),
        entry("100", &["1", "10"]),
        entry("1000", &["1", "10", "100"]),
        entry("20", &["1"]),
    ];
    let kept = IncludeSet::from_report(&report, &taxa(&["10"])).unwrap();
    assert!(kept.contains(b"10"));
    assert!(kept.contains(b"100"));
    assert!(kept.contains(b"1000"));
    assert!(!kept.contains(b"1"));
    assert!(!kept.contains(b"20"));
}

#[test]
fn include_set_unites_over_requested_taxa() {
    let report = vec![
        entry("1", &[]),
        entry("10", &["1"]),
        entry("11", &["1", "10"]),
        entry("20", &["1"]),
        entry("21", &["1", "20"]),
        entry("30", &["1"]),
    ];
    let kept = IncludeSet::from_report(&report, &taxa(&["10", "20"])).unwrap();
    for t in ["10", "11", "20", "21"] {
        assert!(kept.contains(t.as_bytes()), "{}", t);
    }
    assert!(!kept.contains(b"1"));
    assert!(!kept.contains(b"30"));
}

#[test]
fn empty_request_gives_empty_include_set() {
    let kept = IncludeSet::from_report(&small_report(), &taxa(&[])).unwrap();
    assert!(!kept.contains(b"1"));
    assert!(!kept.contains(b"2"));
}

#[test]
fn missing_taxon_is_a_taxonomy_error() {
    let r = IncludeSet::from_report(&small_report(), &taxa(&["1", "9", "8"]));
    match r {
        Err(e) => assert_eq!(
            e,
            PipelineError::TaxonomyParse(TaxonomyFault::MissingTaxon { index: 1 })
        ),
        Ok(_) => panic!("a taxon that the report lacks was accepted"),
    }
}

#[test]
fn taxon_ids_are_compared_as_bytes() {
    let report = vec![entry("01", &[]), entry("1", &["01"])];
    let kept = IncludeSet::from_report(&report, &taxa(&["1"])).unwrap();
    assert!(kept.contains(b"1"));
    assert!(!kept.contains(b"01"));
}

#[test]
fn ancestor_index_answers_lineage_questions() {
    let index = AncestorIndex::build(&small_report());
    assert!(index.contains_taxon(b"3"));
    assert!(!index.contains_taxon(b"4"));
    assert!(index.is_ancestor(b"2", b"1"));
    assert!(!index.is_ancestor(b"1", b"2"));
    assert!(!index.is_ancestor(b"2", b"3"));
    assert!(!index.is_ancestor(b"7", b"1"));
}

#[test]
fn entries_of_one_taxon_unite_their_lineages() {
    let report = vec![entry("1", &[]), entry("2", &["1"]), entry("2", &["9"]), entry("2", &[])];
    let index = AncestorIndex::build(&report);
    assert!(index.is_ancestor(b"2", b"1"));
    assert!(index.is_ancestor(b"2", b"9"));
    assert!(!index.is_ancestor(b"2", b"2"));
    let kept = IncludeSet::from_report(&report, &taxa(&["1"])).unwrap();
    assert!(kept.contains(b"1"));
    assert!(kept.contains(b"2"));
    assert!(!kept.contains(b"9"));
}

#[test]
fn descendant_index_inverts_the_ancestor_index() {
    let ancestors = AncestorIndex::build(&small_report());
    let index = DescendantIndex::build(&ancestors);
    assert!(index.contains_taxon(b"1"));
    assert!(index.is_descendant(b"1", b"2"));
    assert!(index.is_descendant(b"1", b"3"));
    assert!(!index.is_descendant(b"1", b"1"));
    assert!(!index.is_descendant(b"2", b"1"));
    let mut below = index.descendants(b"1").unwrap();
    below.sort();
    assert_eq!(below, vec![b"2".to_vec(), b"3".to_vec()]);
    assert_eq!(index.descendants(b"2").unwrap(), Vec::<Vec<u8>>::new());
    assert!(index.descendants(b"9").is_none());
}

#[test]
fn matching_entries_are_those_of_the_include_set_in_report_order() {
    let report = vec![
        entry("1", &[]),
        entry("10", &["1"]),
        entry("11", &["1", "10"]),
        entry("20", &["1"]),
        entry("12", &["1", "10"]),
    ];
    let kept = IncludeSet::from_report(&report, &taxa(&["10"])).unwrap();
    let found = kept.matching(&report);
    let ids: Vec<Vec<u8>> = found.iter().map(|e| e.taxid.clone()).collect();
    assert_eq!(ids, taxa(&["10", "11", "12"]));
    assert_eq!(found[1].lineage, taxa(&["1", "10"]));
    assert_eq!(found[0].lineage, taxa(&["1"]));
}
