use crate::bytes::byte_rows;
use crate::bytes::copy_bytes;
use crate::closure::IncludeSet;
use crate::error::PipelineError;
use crate::error::RowFault;
use crate::exclusion::mentions;
use crate::exclusion::ExclusionMatcher;
use crate::match_index::entries_view;
use crate::match_index::lemma_merge_concat;
use crate::match_index::merge_entries;
use crate::match_index::MatchEntry;
use crate::record::parse_row;
use crate::record::read_row;
use crate::record::ClassificationRecord;
use crate::record::RecordView;
use vstd::prelude::*;

verus! {

/// The excluded taxa of the exclusion predicate, where there is one.
pub open spec fn matcher_taxa(matcher: Option<ExclusionMatcher>) -> Option<Set<Seq<u8>>> {
    match matcher {
        Some(m) => Some(m.taxa()),
        None => None,
    }
}

/// The decision on one row: it stays where its taxon is in the include set
/// and, where there is an exclusion predicate, its evidence string has no
/// token of an excluded taxon.
pub open spec fn retained(
    kept: Set<Seq<u8>>,
    excluded: Option<Set<Seq<u8>>>,
    record: RecordView,
) -> bool {
    kept.contains(record.taxid) && match excluded {
        Some(taxa) => !mentions(taxa, record.evidence),
        None => true,
    }
}

/// What a batch of rows leaves: the retained rows in order, each as read id
/// and taxon; or the position of the first malformed row with its fault.
pub open spec fn filter_rows(
    rows: Seq<Seq<u8>>,
    kept: Set<Seq<u8>>,
    excluded: Option<Set<Seq<u8>>>,
) -> Result<Seq<(Seq<u8>, Seq<u8>)>, (int, RowFault)>
    decreases rows.len(),
{
    if rows.len() == 0 {
        Ok(Seq::empty())
    } else {
        match filter_rows(rows.drop_last(), kept, excluded) {
            Err(e) => Err(e),
            Ok(front) => match parse_row(rows.last()) {
                Err(fault) => Err((rows.len() - 1, fault)),
                Ok(record) => if retained(kept, excluded, record) {
                    Ok(front.push((record.read_id, record.taxid)))
                } else {
                    Ok(front)
                },
            },
        }
    }
}

/// Filtering rows in two batches, where both are well-formed, leaves what
/// filtering them in one batch leaves.
pub proof fn lemma_filter_concat(
    a: Seq<Seq<u8>>,
    b: Seq<Seq<u8>>,
    kept: Set<Seq<u8>>,
    excluded: Option<Set<Seq<u8>>>,
)
    requires
        filter_rows(a, kept, excluded) is Ok,
        filter_rows(b, kept, excluded) is Ok,
    ensures
        filter_rows(a + b, kept, excluded) == Ok::<Seq<(Seq<u8>, Seq<u8>)>, (int, RowFault)>(
            filter_rows(a, kept, excluded)->Ok_0 + filter_rows(b, kept, excluded)->Ok_0,
        ),
    decreases b.len(),
{
    let fa = filter_rows(a, kept, excluded)->Ok_0;
    if b.len() == 0 {
        assert(a + b == a);
        assert(fa + Seq::<(Seq<u8>, Seq<u8>)>::empty() == fa);
    } else {
        lemma_filter_concat(a, b.drop_last(), kept, excluded);
        assert((a + b).drop_last() == a + b.drop_last());
        assert((a + b).last() == b.last());
        let fb = filter_rows(b.drop_last(), kept, excluded)->Ok_0;
        let record = parse_row(b.last())->Ok_0;
        if retained(kept, excluded, record) {
            assert((fa + fb).push((record.read_id, record.taxid)) == fa + fb.push(
                (record.read_id, record.taxid),
            ));
        }
    }
}

/// Filtering rows in two batches and merging what each leaves gives the
/// index that filtering them in one batch gives.
pub proof fn lemma_batches_give_same_index(
    index: Map<Seq<u8>, Seq<u8>>,
    a: Seq<Seq<u8>>,
    b: Seq<Seq<u8>>,
    kept: Set<Seq<u8>>,
    excluded: Option<Set<Seq<u8>>>,
)
    requires
        filter_rows(a, kept, excluded) is Ok,
        filter_rows(b, kept, excluded) is Ok,
    ensures
        filter_rows(a + b, kept, excluded) is Ok,
        merge_entries(
            merge_entries(index, filter_rows(a, kept, excluded)->Ok_0),
            filter_rows(b, kept, excluded)->Ok_0,
        ) == merge_entries(index, filter_rows(a + b, kept, excluded)->Ok_0),
{
    lemma_filter_concat(a, b, kept, excluded);
    lemma_merge_concat(
        index,
        filter_rows(a, kept, excluded)->Ok_0,
        filter_rows(b, kept, excluded)->Ok_0,
    );
}

/// Whether a row stays.
pub fn is_retained(
    kept: &IncludeSet,
    matcher: &Option<ExclusionMatcher>,
    record: &ClassificationRecord,
) -> (stays: bool)
    ensures
        stays == retained(kept@, matcher_taxa(*matcher), record@),
{
    if !kept.contains(record.taxid.as_slice()) {
        return false;
    }
    match matcher {
        Some(m) => !m.is_excluded(record.evidence.as_slice()),
        None => true,
    }
}

/// Applies the decision to every row of a batch. The first malformed row
/// fails the whole batch.
pub fn filter_batch(
    rows: &Vec<Vec<u8>>,
    kept: &IncludeSet,
    matcher: &Option<ExclusionMatcher>,
) -> (left: Result<Vec<MatchEntry>, PipelineError>)
    ensures
        match left {
            Ok(entries) => filter_rows(byte_rows(rows@), kept@, matcher_taxa(*matcher)) == Ok::<
                Seq<(Seq<u8>, Seq<u8>)>,
                (int, RowFault),
            >(entries_view(entries@)),
            Err(e) => match filter_rows(byte_rows(rows@), kept@, matcher_taxa(*matcher)) {
                Err((row, fault)) => 0 <= row < rows.len() && e == (PipelineError::RecordParse {
                    row: row as usize,
                    fault,
                }),
                Ok(_) => false,
            },
        },
{
    let ghost lines = byte_rows(rows@);
    let ghost excluded = matcher_taxa(*matcher);
    let mut entries: Vec<MatchEntry> = Vec::new();
    let mut i: usize = 0;
    assert(entries_view(entries@) =~= Seq::empty());
    while i < rows.len()
        invariant
            i <= rows.len(),
            lines == byte_rows(rows@),
            excluded == matcher_taxa(*matcher),
            filter_rows(lines.take(i as int), kept@, excluded) == Ok::<
                Seq<(Seq<u8>, Seq<u8>)>,
                (int, RowFault),
            >(entries_view(entries@)),
        decreases rows.len() - i,
    {
        proof {
            assert(lines.take(i + 1).drop_last() == lines.take(i as int));
            assert(lines.take(i + 1).last() == rows@[i as int]@);
        }
        match read_row(rows[i].as_slice()) {
            Err(fault) => {
                proof {
                    lemma_filter_fails_on(lines, kept@, excluded, i + 1);
                }
                return Err(PipelineError::RecordParse { row: i, fault });
            },
            Ok(record) => {
                if is_retained(kept, matcher, &record) {
                    let ghost before = entries_view(entries@);
                    let entry = MatchEntry {
                        read_id: copy_bytes(record.read_id.as_slice()),
                        taxid: copy_bytes(record.taxid.as_slice()),
                    };
                    entries.push(entry);
                    assert(entries_view(entries@) =~= before.push((record@.read_id, record@.taxid)));
                }
            },
        }
        i += 1;
    }
    assert(lines.take(rows.len() as int) == lines);
    Ok(entries)
}

/// A fault within the first `n` rows is the fault of the whole batch.
pub proof fn lemma_filter_fails_on(
    rows: Seq<Seq<u8>>,
    kept: Set<Seq<u8>>,
    excluded: Option<Set<Seq<u8>>>,
    n: int,
)
    requires
        0 <= n <= rows.len(),
        filter_rows(rows.take(n), kept, excluded) is Err,
    ensures
        filter_rows(rows, kept, excluded) == filter_rows(rows.take(n), kept, excluded),
    decreases rows.len() - n,
{
    if n < rows.len() {
        assert(rows.take(n + 1).drop_last() == rows.take(n));
        lemma_filter_fails_on(rows, kept, excluded, n + 1);
    } else {
        assert(rows.take(n) == rows);
    }
}

} // verus!
