use crate::bytes::byte_rows;
use crate::closure::ancestor_map;
use crate::closure::first_missing;
use crate::closure::include_set;
use crate::closure::IncludeSet;
use crate::codec::compressed;
use crate::codec::gzip_content;
use crate::config::first_fault;
use crate::config::Config;
use crate::error::IoFault;
use crate::error::PatternFault;
use crate::error::PipelineError;
use crate::error::TaxonomyFault;
use crate::exclusion::compile_fault;
use crate::exclusion::ExclusionMatcher;
use crate::extract::extract_paired;
use crate::extract::extract_single;
use crate::extract::optional_rows;
use crate::extract::select_paired;
use crate::extract::select_single;
use crate::extract::write_block;
use crate::fastq::decode;
use crate::fastq::decode_records;
use crate::fastq::encode_all;
use crate::fastq::records_view;
use crate::fastq::SequenceRecord;
use crate::fastq::SequenceView;
use crate::filter::filter_batch;
use crate::filter::filter_rows;
use crate::filter::matcher_taxa;
use crate::lines::lines_of;
use crate::lines::read_lines;
use crate::match_index::empty_match_map;
use crate::match_index::merge_entries;
use crate::match_index::MatchIndex;
use crate::report::parse_report;
use crate::report::walk;
use crate::trim::ranges_view;
use vstd::prelude::*;

verus! {

/// What a run is asked to do, without its settings: the texts of its inputs,
/// the taxa of interest, the taxa to exclude and the tag ranges of each
/// mate.
pub struct Request {
    pub report: Vec<u8>,
    pub classification: Vec<u8>,
    pub mate1: Vec<u8>,
    pub mate2: Option<Vec<u8>>,
    pub interest: Vec<Vec<u8>>,
    pub exclude: Option<Vec<Vec<u8>>>,
    pub ranges1: Option<Vec<(usize, usize)>>,
    pub ranges2: Option<Vec<(usize, usize)>>,
}

/// A request as plain values.
pub struct RequestView {
    pub report: Seq<u8>,
    pub classification: Seq<u8>,
    pub mate1: Seq<u8>,
    pub mate2: Option<Seq<u8>>,
    pub interest: Seq<Seq<u8>>,
    pub exclude: Option<Seq<Seq<u8>>>,
    pub ranges1: Option<Seq<(usize, usize)>>,
    pub ranges2: Option<Seq<(usize, usize)>>,
}

impl View for Request {
    type V = RequestView;

    open spec fn view(&self) -> RequestView {
        RequestView {
            report: self.report@,
            classification: self.classification@,
            mate1: self.mate1@,
            mate2: match self.mate2 {
                Some(text) => Some(text@),
                None => None,
            },
            interest: byte_rows(self.interest@),
            exclude: match self.exclude {
                Some(list) => Some(byte_rows(list@)),
                None => None,
            },
            ranges1: ranges_view(self.ranges1),
            ranges2: ranges_view(self.ranges2),
        }
    }
}

/// What a run that succeeded leaves.
#[derive(Debug)]
pub enum RunOutput {
    /// No read stayed: nothing was read from the sequence texts and nothing
    /// written.
    NoMatches,
    /// The compressed output and the number of records in it.
    Written { records: usize, block: Vec<u8> },
}

/// The output of a run as plain values.
pub enum OutputView {
    NoMatches,
    Written { records: usize, block: Seq<u8> },
}

impl View for RunOutput {
    type V = OutputView;

    open spec fn view(&self) -> OutputView {
        match self {
            RunOutput::NoMatches => OutputView::NoMatches,
            RunOutput::Written { records, block } => OutputView::Written {
                records: *records,
                block: block@,
            },
        }
    }
}

/// The result of a run as plain values.
pub open spec fn result_view(done: Result<RunOutput, PipelineError>) -> Result<
    OutputView,
    PipelineError,
> {
    match done {
        Ok(output) => Ok(output@),
        Err(e) => Err(e),
    }
}

/// The include set of a report text and a request, or the taxonomy error.
pub open spec fn taxonomy_of(report: Seq<u8>, interest: Seq<Seq<u8>>) -> Result<
    Set<Seq<u8>>,
    PipelineError,
> {
    match walk(lines_of(report)) {
        Err(at) => Err(
            PipelineError::TaxonomyParse(TaxonomyFault::MalformedLine { line: at as usize }),
        ),
        Ok(w) => {
            let missing = first_missing(ancestor_map(w.entries), interest);
            if missing < interest.len() {
                Err(
                    PipelineError::TaxonomyParse(
                        TaxonomyFault::MissingTaxon { index: missing as usize },
                    ),
                )
            } else {
                Ok(include_set(w.entries, interest))
            }
        },
    }
}

/// Why the exclusion predicate of a request cannot be made; nothing where
/// there is no list to exclude or the list compiles.
pub open spec fn exclusion_fault(exclude: Option<Seq<Seq<u8>>>) -> Option<PatternFault> {
    match exclude {
        None => None,
        Some(list) => compile_fault(list),
    }
}

/// The excluded taxa of a request, as a set.
pub open spec fn excluded_of(exclude: Option<Seq<Seq<u8>>>) -> Option<Set<Seq<u8>>> {
    match exclude {
        Some(list) => Some(list.to_set()),
        None => None,
    }
}

/// The match index of a classification text, or the error of its first
/// malformed row.
pub open spec fn index_of(
    classification: Seq<u8>,
    kept: Set<Seq<u8>>,
    excluded: Option<Set<Seq<u8>>>,
) -> Result<Map<Seq<u8>, Seq<u8>>, PipelineError> {
    match filter_rows(lines_of(classification), kept, excluded) {
        Err((row, fault)) => Err(PipelineError::RecordParse { row: row as usize, fault }),
        Ok(entries) => Ok(merge_entries(empty_match_map(), entries)),
    }
}

/// The records that extraction leaves of the sequence texts, or the error
/// of a text that writes no records or of mates out of step.
pub open spec fn selected(request: RequestView, index: Map<Seq<u8>, Seq<u8>>) -> Result<
    Seq<SequenceView>,
    PipelineError,
> {
    match decode(request.mate1) {
        None => Err(PipelineError::Io(IoFault::Corrupt)),
        Some(first) => match request.mate2 {
            None => Ok(select_single(first, index, request.ranges1)),
            Some(text) => match decode(text) {
                None => Err(PipelineError::Io(IoFault::Corrupt)),
                Some(second) => if first.len() != second.len() {
                    Err(
                        PipelineError::PairingMismatch {
                            mate1: first.len() as usize,
                            mate2: second.len() as usize,
                        },
                    )
                } else {
                    Ok(select_paired(first, second, index, request.ranges1, request.ranges2))
                },
            },
        },
    }
}

/// What a run leaves before anything is compressed: nothing where no read
/// stayed, else the records to write; or the first error, the settings
/// before the report, the report before the exclusion list, the
/// classification text before the sequence texts.
pub open spec fn plan(config: Config, request: RequestView) -> Result<
    Option<Seq<SequenceView>>,
    PipelineError,
> {
    match first_fault(config) {
        Some(field) => Err(PipelineError::InvalidConfig(field)),
        None => match taxonomy_of(request.report, request.interest) {
            Err(e) => Err(e),
            Ok(kept) => match exclusion_fault(request.exclude) {
                Some(fault) => Err(PipelineError::PatternCompile(fault)),
                None => match index_of(
                    request.classification,
                    kept,
                    excluded_of(request.exclude),
                ) {
                    Err(e) => Err(e),
                    Ok(index) => if index == empty_match_map() {
                        Ok(None)
                    } else {
                        match selected(request, index) {
                            Err(e) => Err(e),
                            Ok(records) => Ok(Some(records)),
                        }
                    },
                },
            },
        },
    }
}

/// The result of a run: the error of the plan; no matches where the plan
/// leaves nothing; else the number of records that it leaves and their
/// written form, compressed at the level of the settings.
pub open spec fn outcome(config: Config, request: RequestView) -> Result<
    OutputView,
    PipelineError,
> {
    match plan(config, request) {
        Err(e) => Err(e),
        Ok(None) => Ok(OutputView::NoMatches),
        Ok(Some(left)) => Ok(
            OutputView::Written {
                records: left.len() as usize,
                block: compressed(config.compression_level as int, encode_all(left)),
            },
        ),
    }
}

/// Two runs on the same settings and the same request have the same
/// result: the same error, or the same output, byte for byte.
pub proof fn lemma_runs_agree(
    config: Config,
    request: RequestView,
    first: Result<OutputView, PipelineError>,
    second: Result<OutputView, PipelineError>,
)
    requires
        first == outcome(config, request),
        second == outcome(config, request),
    ensures
        first == second,
{
}

/// The records that a run leaves, trimmed or not, are read back from their
/// written form as they were left, byte by byte. The block of the run holds
/// that written form.
pub proof fn lemma_output_reads_back(config: Config, request: RequestView)
    requires
        plan(config, request) matches Ok(Some(_)),
    ensures
        decode(encode_all(plan(config, request)->Ok_0->Some_0)) == Some(
            plan(config, request)->Ok_0->Some_0,
        ),
{
    let index = index_of(
        request.classification,
        taxonomy_of(request.report, request.interest)->Ok_0,
        excluded_of(request.exclude),
    )->Ok_0;
    let left = plan(config, request)->Ok_0->Some_0;
    assert(selected(request, index) == Ok::<Seq<SequenceView>, PipelineError>(left));
    let first = decode(request.mate1)->Some_0;
    crate::fastq::lemma_decoded_writable(request.mate1);
    match request.mate2 {
        None => {
            crate::extract::lemma_select_single_writable(first, index, request.ranges1);
        },
        Some(text) => {
            crate::fastq::lemma_decoded_writable(text);
            crate::extract::lemma_select_paired_writable(
                first,
                decode(text)->Some_0,
                index,
                request.ranges1,
                request.ranges2,
            );
        },
    }
    crate::fastq::lemma_decode_encode(left);
}

/// Include set and exclusion predicate of a run.
pub struct Filters {
    pub kept: IncludeSet,
    pub matcher: Option<ExclusionMatcher>,
}

/// Include set and excluded taxa of a request, or the first error: that of
/// the report before that of the exclusion list.
pub open spec fn filters_of(
    report: Seq<u8>,
    interest: Seq<Seq<u8>>,
    exclude: Option<Seq<Seq<u8>>>,
) -> Result<(Set<Seq<u8>>, Option<Set<Seq<u8>>>), PipelineError> {
    match taxonomy_of(report, interest) {
        Err(e) => Err(e),
        Ok(kept) => match exclusion_fault(exclude) {
            Some(fault) => Err(PipelineError::PatternCompile(fault)),
            None => Ok((kept, excluded_of(exclude))),
        },
    }
}

/// Builds include set and exclusion predicate from the report text and the
/// two lists of taxa.
pub fn prepare_filters(
    report: &[u8],
    interest: &Vec<Vec<u8>>,
    exclude: &Option<Vec<Vec<u8>>>,
) -> (made: Result<Filters, PipelineError>)
    ensures
        match made {
            Ok(filters) => filters_of(report@, byte_rows(interest@), optional_rows(*exclude))
                == Ok::<(Set<Seq<u8>>, Option<Set<Seq<u8>>>), PipelineError>(
                (filters.kept@, matcher_taxa(filters.matcher)),
            ),
            Err(e) => filters_of(report@, byte_rows(interest@), optional_rows(*exclude)) == Err::<
                (Set<Seq<u8>>, Option<Set<Seq<u8>>>),
                PipelineError,
            >(e),
        },
{
    let entries = match parse_report(report) {
        Ok(entries) => entries,
        Err(e) => {
            return Err(e);
        },
    };
    let kept = match IncludeSet::from_report(&entries, interest) {
        Ok(kept) => kept,
        Err(e) => {
            return Err(e);
        },
    };
    let matcher = match ExclusionMatcher::compile_optional(exclude) {
        Ok(matcher) => matcher,
        Err(e) => {
            return Err(e);
        },
    };
    Ok(Filters { kept, matcher })
}

/// Filters a classification text: every row is decided on, and the rows
/// that stay make the match index.
pub fn filter_text(classification: &[u8], filters: &Filters) -> (made: Result<
    MatchIndex,
    PipelineError,
>)
    ensures
        match made {
            Ok(index) => index_of(
                classification@,
                filters.kept@,
                matcher_taxa(filters.matcher),
            ) == Ok::<Map<Seq<u8>, Seq<u8>>, PipelineError>(index@),
            Err(e) => index_of(classification@, filters.kept@, matcher_taxa(filters.matcher))
                == Err::<Map<Seq<u8>, Seq<u8>>, PipelineError>(e),
        },
{
    let rows = read_lines(classification);
    match filter_batch(&rows, &filters.kept, &filters.matcher) {
        Ok(entries) => Ok(MatchIndex::new().merge(entries)),
        Err(e) => Err(e),
    }
}

/// Reads the sequence texts of a request and leaves the records of the
/// reads in the index, mates in step.
pub fn select_records(request: &Request, index: &MatchIndex) -> (left: Result<
    Vec<SequenceRecord>,
    PipelineError,
>)
    ensures
        match left {
            Ok(records) => selected(request@, index@) == Ok::<Seq<SequenceView>, PipelineError>(
                records_view(records@),
            ),
            Err(e) => selected(request@, index@) == Err::<Seq<SequenceView>, PipelineError>(e),
        },
{
    let first = match decode_records(request.mate1.as_slice()) {
        Ok(first) => first,
        Err(e) => {
            return Err(e);
        },
    };
    match &request.mate2 {
        None => Ok(extract_single(&first, index, &request.ranges1)),
        Some(text) => {
            let second = match decode_records(text.as_slice()) {
                Ok(second) => second,
                Err(e) => {
                    return Err(e);
                },
            };
            extract_paired(&first, &second, index, &request.ranges1, &request.ranges2)
        },
    }
}

/// Runs the whole pipeline on texts held in memory: settings, report and
/// include set, exclusion predicate, classification filter, and, where a
/// read stayed, extraction into one compressed block.
pub fn run(config: &Config, request: &Request) -> (done: Result<RunOutput, PipelineError>)
    ensures
        result_view(done) == outcome(*config, request@),
        done matches Ok(RunOutput::Written { block, .. }) ==> gzip_content(block@) == Some(
            encode_all(plan(*config, request@)->Ok_0->Some_0),
        ),
{
    match config.validate() {
        Ok(_) => {},
        Err(e) => {
            return Err(e);
        },
    }
    let filters = match prepare_filters(
        request.report.as_slice(),
        &request.interest,
        &request.exclude,
    ) {
        Ok(filters) => filters,
        Err(e) => {
            return Err(e);
        },
    };
    let index = match filter_text(request.classification.as_slice(), &filters) {
        Ok(index) => index,
        Err(e) => {
            return Err(e);
        },
    };
    if index.is_empty() {
        return Ok(RunOutput::NoMatches);
    }
    let left = match select_records(request, &index) {
        Ok(left) => left,
        Err(e) => {
            return Err(e);
        },
    };
    match write_block(&left, config.compression_level) {
        Ok(block) => Ok(RunOutput::Written { records: left.len(), block }),
        Err(e) => Err(e),
    }
}

} // verus!
