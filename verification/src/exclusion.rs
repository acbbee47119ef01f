use crate::bytes::byte_rows;
use crate::bytes::copy_range;
use crate::bytes::find_byte;
use crate::bytes::first_index;
use crate::bytes::free_of;
use crate::bytes::lemma_first_index;
use crate::bytes::lemma_first_index_is;
use crate::bytes::occurs_at;
use crate::bytes::split;
use crate::bytes::split_bytes;
use crate::bytes::FIELD_SEPARATOR;
use crate::bytes::SPACE;
use crate::lines::lemma_split_first;
use crate::taxon_set::TaxonSet;
use crate::error::PatternFault;
use crate::error::PipelineError;
use aho_corasick::AhoCorasick;
use aho_corasick::AhoCorasickKind;
use aho_corasick::BuildError;
use vstd::prelude::*;

verus! {

/// A compiled multi-pattern searcher, opaque to the verifier.
#[verifier::external_type_specification]
#[verifier::external_body]
pub struct ExAhoCorasick(AhoCorasick);

/// The reason why no searcher could be built, opaque to the verifier.
#[verifier::external_type_specification]
#[verifier::external_body]
pub struct ExBuildError(BuildError);

/// The patterns that a searcher was built from, in the order given.
pub uninterp spec fn automaton_patterns(a: AhoCorasick) -> Seq<Seq<u8>>;

/// One of `patterns` stands somewhere in `hay`.
pub open spec fn any_occurs(patterns: Seq<Seq<u8>>, hay: Seq<u8>) -> bool {
    exists|k: int, i: int| 0 <= k < patterns.len() && #[trigger] occurs_at(hay, patterns[k], i)
}

/// Whether the builder, set to the DFA, builds a searcher from `patterns`:
/// whether their number, their lengths and the states they need stay within
/// the builder's limits.
pub uninterp spec fn dfa_builds(patterns: Seq<Seq<u8>>) -> bool;

/// `AhoCorasickBuilder::build` on a builder whose kind is set to the DFA and
/// that is otherwise as `AhoCorasick::builder` made it: a searcher that comes
/// back was built from exactly `patterns`, and whether one comes back
/// depends on the patterns alone.
#[verifier::external_body]
fn build_dfa(patterns: &Vec<Vec<u8>>) -> (built: Result<AhoCorasick, BuildError>)
    ensures
        built matches Ok(a) ==> automaton_patterns(a) == byte_rows(patterns@),
        built is Ok <==> dfa_builds(byte_rows(patterns@)),
{
    AhoCorasick::builder().kind(Some(AhoCorasickKind::DFA)).build(patterns)
}

/// `AhoCorasick::is_match` on a byte slice: true exactly where one of the
/// searcher's patterns stands somewhere in the haystack, bytes compared as
/// they are.
#[verifier::external_body]
fn automaton_is_match(a: &AhoCorasick, hay: &[u8]) -> (found: bool)
    ensures
        found == any_occurs(automaton_patterns(*a), hay@),
{
    a.is_match(hay)
}

/// The pattern that stands for an excluded taxon: its id, then the
/// separator.
pub open spec fn exclusion_pattern(taxon: Seq<u8>) -> Seq<u8> {
    taxon.push(FIELD_SEPARATOR)
}

/// One pattern for each excluded taxon, in order.
pub open spec fn exclusion_patterns(taxa: Seq<Seq<u8>>) -> Seq<Seq<u8>> {
    taxa.map_values(|t: Seq<u8>| exclusion_pattern(t))
}

/// The position of the first taxon with an empty id, or the length of the
/// list where none is empty.
pub open spec fn first_empty(taxa: Seq<Seq<u8>>) -> int
    decreases taxa.len(),
{
    if taxa.len() == 0 {
        0
    } else if taxa[0].len() == 0 {
        0
    } else {
        1 + first_empty(taxa.skip(1))
    }
}

/// A list of taxa to exclude is valid: it names a taxon, and none with an
/// empty id. Any other id can stand in it, a mark too.
pub open spec fn valid_exclusion(taxa: Seq<Seq<u8>>) -> bool {
    taxa.len() > 0 && first_empty(taxa) == taxa.len()
}

/// Why a list of taxa to exclude does not compile: it is empty; else it
/// holds an empty id, of which the first is named; else the builder refuses
/// its patterns. Nothing where it compiles.
pub open spec fn compile_fault(taxa: Seq<Seq<u8>>) -> Option<PatternFault> {
    if taxa.len() == 0 {
        Some(PatternFault::NoTaxon)
    } else if first_empty(taxa) < taxa.len() {
        Some(PatternFault::EmptyTaxon { index: first_empty(taxa) as usize })
    } else if !dfa_builds(exclusion_patterns(taxa)) {
        Some(PatternFault::Build)
    } else {
        None
    }
}

/// A list compiles exactly where it is valid and the builder builds a
/// searcher from its patterns.
pub proof fn lemma_compiles(taxa: Seq<Seq<u8>>)
    ensures
        compile_fault(taxa) is None <==> valid_exclusion(taxa) && dfa_builds(
            exclusion_patterns(taxa),
        ),
{
    lemma_first_empty(taxa);
}

/// `first_empty` lies within the list, stops at an empty id, and passes over
/// none.
pub proof fn lemma_first_empty(taxa: Seq<Seq<u8>>)
    ensures
        0 <= first_empty(taxa) <= taxa.len(),
        forall|j: int| 0 <= j < first_empty(taxa) ==> (#[trigger] taxa[j]).len() > 0,
        first_empty(taxa) < taxa.len() ==> taxa[first_empty(taxa)].len() == 0,
    decreases taxa.len(),
{
    if taxa.len() > 0 && taxa[0].len() != 0 {
        let rest = taxa.skip(1);
        lemma_first_empty(rest);
        assert forall|j: int| 0 <= j < first_empty(taxa) implies (#[trigger] taxa[j]).len()
            > 0 by {
            if j > 0 {
                assert(rest[j - 1] == taxa[j]);
            }
        }
        if first_empty(taxa) < taxa.len() {
            assert(rest[first_empty(rest)] == taxa[first_empty(taxa)]);
        }
    }
}

/// A position with an empty id, after a run of ids that are not empty, is
/// the first such position.
pub proof fn lemma_first_empty_is(taxa: Seq<Seq<u8>>, n: int)
    requires
        0 <= n <= taxa.len(),
        forall|j: int| 0 <= j < n ==> (#[trigger] taxa[j]).len() > 0,
        n < taxa.len() ==> taxa[n].len() == 0,
    ensures
        first_empty(taxa) == n,
{
    lemma_first_empty(taxa);
}

/// The patterns for `taxa`: each id with the separator appended.
pub fn exclusion_patterns_of(taxa: &Vec<Vec<u8>>) -> (patterns: Vec<Vec<u8>>)
    ensures
        byte_rows(patterns@) == exclusion_patterns(byte_rows(taxa@)),
{
    let mut patterns: Vec<Vec<u8>> = Vec::new();
    let mut i: usize = 0;
    while i < taxa.len()
        invariant
            i <= taxa.len(),
            byte_rows(patterns@) == exclusion_patterns(byte_rows(taxa@).take(i as int)),
        decreases taxa.len() - i,
    {
        let taxon = &taxa[i];
        let mut pattern: Vec<u8> = Vec::new();
        let mut j: usize = 0;
        while j < taxon.len()
            invariant
                j <= taxon.len(),
                pattern@ == taxon@.take(j as int),
            decreases taxon.len() - j,
        {
            pattern.push(taxon[j]);
            j += 1;
        }
        pattern.push(FIELD_SEPARATOR);
        proof {
            assert(taxon@.take(taxon.len() as int) == taxon@);
            let rows = byte_rows(taxa@);
            assert(rows.take(i + 1) == rows.take(i as int).push(rows[i as int]));
        }
        let ghost before = byte_rows(patterns@);
        patterns.push(pattern);
        assert(byte_rows(patterns@) =~= before.push(exclusion_pattern(taxon@)));
        i += 1;
    }
    assert(byte_rows(taxa@).take(taxa.len() as int) == byte_rows(taxa@));
    patterns
}

/// The mark that stands in place of a taxon where a window holds an
/// ambiguous base.
pub const AMBIGUOUS_MARK: u8 = 65;

/// The mark that stands in place of a taxon where a window has no hit.
pub const UNCLASSIFIED_MARK: u8 = 48;

/// `id` is one of the two marks, which are no taxa.
pub open spec fn is_mark(id: Seq<u8>) -> bool {
    id == seq![AMBIGUOUS_MARK] || id == seq![UNCLASSIFIED_MARK]
}

/// The tokens of an evidence string: its pieces between spaces.
pub open spec fn tokens_of(evidence: Seq<u8>) -> Seq<Seq<u8>> {
    split(evidence, SPACE)
}

/// The id of a token: what stands before its first separator; nothing where
/// the token holds no separator.
pub open spec fn token_id(token: Seq<u8>) -> Option<Seq<u8>> {
    let at = first_index(token, FIELD_SEPARATOR);
    if at < token.len() {
        Some(token.take(at as int))
    } else {
        None
    }
}

/// `token` is the token of an excluded taxon: its id is excluded and no
/// mark.
pub open spec fn names(excluded: Set<Seq<u8>>, token: Seq<u8>) -> bool {
    token_id(token) is Some && excluded.contains(token_id(token)->Some_0) && !is_mark(
        token_id(token)->Some_0,
    )
}

/// The evidence string has a token of an excluded taxon.
pub open spec fn mentions(excluded: Set<Seq<u8>>, evidence: Seq<u8>) -> bool {
    exists|k: int|
        0 <= k < tokens_of(evidence).len() && names(excluded, #[trigger] tokens_of(evidence)[k])
}

/// Every piece of a split stands somewhere in the whole.
pub proof fn lemma_piece_stands(s: Seq<u8>, sep: u8, k: int)
    requires
        0 <= k < split(s, sep).len(),
    ensures
        exists|at: int| occurs_at(s, split(s, sep)[k], at),
    decreases s.len(),
{
    let cut = first_index(s, sep);
    lemma_first_index(s, sep);
    let piece = split(s, sep)[k];
    if cut >= s.len() {
        assert(s.subrange(0, s.len() as int) == s);
        assert(occurs_at(s, piece, 0));
    } else if k == 0 {
        assert(s.subrange(0, cut as int) == s.take(cut as int));
        assert(occurs_at(s, piece, 0));
    } else {
        let rest = s.skip(cut as int + 1);
        lemma_piece_stands(rest, sep, k - 1);
        let same = split(rest, sep)[k - 1];
        let at = choose|at: int| occurs_at(rest, same, at);
        assert(s.subrange(cut + 1 + at, cut + 1 + at + piece.len()) == rest.subrange(
            at,
            at + piece.len(),
        ));
        assert(occurs_at(s, piece, cut + 1 + at));
    }
}

/// Where an evidence string has a token of a taxon, the pattern of that
/// taxon stands in it.
pub proof fn lemma_mention_stands(excluded: Set<Seq<u8>>, evidence: Seq<u8>)
    requires
        mentions(excluded, evidence),
    ensures
        exists|taxon: Seq<u8>, at: int|
            excluded.contains(taxon) && #[trigger] occurs_at(
                evidence,
                exclusion_pattern(taxon),
                at,
            ),
{
    let tokens = tokens_of(evidence);
    let k = choose|k: int| 0 <= k < tokens.len() && names(excluded, #[trigger] tokens[k]);
    let token = tokens[k];
    let cut = first_index(token, FIELD_SEPARATOR);
    lemma_first_index(token, FIELD_SEPARATOR);
    let taxon = token.take(cut as int);
    let pattern = exclusion_pattern(taxon);
    lemma_piece_stands(evidence, SPACE, k);
    let at = choose|at: int| occurs_at(evidence, token, at);
    assert(token.subrange(0, pattern.len() as int) =~= pattern);
    assert(evidence.subrange(at, at + pattern.len()) == evidence.subrange(
        at,
        at + token.len(),
    ).subrange(0, pattern.len() as int));
    assert(occurs_at(evidence, exclusion_pattern(taxon), at));
}

/// The compiled exclusion predicate: a searcher for the patterns of the
/// excluded taxa, and the set of their ids.
pub struct ExclusionMatcher {
    automaton: AhoCorasick,
    excluded: TaxonSet,
}

impl ExclusionMatcher {
    #[verifier::type_invariant]
    spec fn searched(self) -> bool {
        forall|taxon: Seq<u8>| #[trigger]
            self.excluded@.contains(taxon) ==> automaton_patterns(self.automaton).contains(
                exclusion_pattern(taxon),
            )
    }

    /// The excluded taxa.
    pub closed spec fn taxa(&self) -> Set<Seq<u8>> {
        self.excluded@
    }

    /// The patterns that the searcher was built from.
    pub closed spec fn patterns(&self) -> Seq<Seq<u8>> {
        automaton_patterns(self.automaton)
    }

    /// Takes what the builder returned for the patterns of `taxa`: a searcher
    /// becomes the predicate, a refusal becomes the pattern error.
    fn from_build(built: Result<AhoCorasick, BuildError>, taxa: &Vec<Vec<u8>>) -> (made: Result<
        ExclusionMatcher,
        PipelineError,
    >)
        requires
            built matches Ok(a) ==> automaton_patterns(a) == exclusion_patterns(byte_rows(taxa@)),
        ensures
            match built {
                Ok(_) => made matches Ok(m) && m.taxa() == byte_rows(taxa@).to_set()
                    && m.patterns() == exclusion_patterns(byte_rows(taxa@)),
                Err(_) => made == Err::<ExclusionMatcher, PipelineError>(
                    PipelineError::PatternCompile(PatternFault::Build),
                ),
            },
    {
        match built {
            Ok(automaton) => {
                let mut excluded = TaxonSet::new();
                excluded.insert_all(taxa);
                proof {
                    let rows = byte_rows(taxa@);
                    assert(excluded@ =~= rows.to_set());
                    assert forall|taxon: Seq<u8>| #[trigger]
                        excluded@.contains(taxon) implies automaton_patterns(automaton).contains(
                        exclusion_pattern(taxon),
                    ) by {
                        let k = choose|k: int| 0 <= k < rows.len() && rows[k] == taxon;
                        assert(exclusion_patterns(rows)[k] == exclusion_pattern(taxon));
                    }
                }
                Ok(ExclusionMatcher { automaton, excluded })
            },
            Err(_) => Err(PipelineError::PatternCompile(PatternFault::Build)),
        }
    }

    /// Compiles the predicate for the taxa to exclude. An empty list and an
    /// empty id are refused before the builder is asked.
    pub fn compile(taxa: &Vec<Vec<u8>>) -> (made: Result<ExclusionMatcher, PipelineError>)
        ensures
            match made {
                Ok(m) => compile_fault(byte_rows(taxa@)) is None && m.taxa() == byte_rows(
                    taxa@,
                ).to_set() && m.patterns() == exclusion_patterns(byte_rows(taxa@)),
                Err(e) => compile_fault(byte_rows(taxa@)) matches Some(fault) && e
                    == PipelineError::PatternCompile(fault),
            },
            made is Ok <==> valid_exclusion(byte_rows(taxa@)) && dfa_builds(
                exclusion_patterns(byte_rows(taxa@)),
            ),
    {
        proof {
            lemma_compiles(byte_rows(taxa@));
        }
        if taxa.len() == 0 {
            return Err(PipelineError::PatternCompile(PatternFault::NoTaxon));
        }
        let ghost rows = byte_rows(taxa@);
        let mut i: usize = 0;
        while i < taxa.len()
            invariant
                i <= taxa.len(),
                rows == byte_rows(taxa@),
                forall|j: int| 0 <= j < i ==> (#[trigger] rows[j]).len() > 0,
            decreases taxa.len() - i,
        {
            assert(rows[i as int] == taxa@[i as int]@);
            if taxa[i].len() == 0 {
                proof {
                    lemma_first_empty_is(rows, i as int);
                }
                return Err(PipelineError::PatternCompile(PatternFault::EmptyTaxon { index: i }));
            }
            i += 1;
        }
        proof {
            lemma_first_empty_is(rows, taxa.len() as int);
        }
        let patterns = exclusion_patterns_of(taxa);
        ExclusionMatcher::from_build(build_dfa(&patterns), taxa)
    }

    /// Compiles the predicate where a list is given; no list means no filter.
    pub fn compile_optional(taxa: &Option<Vec<Vec<u8>>>) -> (made: Result<
        Option<ExclusionMatcher>,
        PipelineError,
    >)
        ensures
            match made {
                Ok(None) => taxa is None,
                Ok(Some(m)) => taxa matches Some(list) && compile_fault(byte_rows(list@)) is None
                    && m.taxa() == byte_rows(list@).to_set() && m.patterns()
                    == exclusion_patterns(byte_rows(list@)),
                Err(e) => taxa matches Some(list) && compile_fault(byte_rows(list@)) matches Some(
                    fault,
                ) && e == PipelineError::PatternCompile(fault),
            },
    {
        match taxa {
            None => Ok(None),
            Some(list) => match ExclusionMatcher::compile(list) {
                Ok(m) => Ok(Some(m)),
                Err(e) => Err(e),
            },
        }
    }

    /// Whether `evidence` has a token of an excluded taxon. The searcher
    /// scans the string once; only where a pattern stands in it are the
    /// tokens looked at one by one.
    pub fn is_excluded(&self, evidence: &[u8]) -> (found: bool)
        ensures
            found == mentions(self.taxa(), evidence@),
    {
        proof {
            use_type_invariant(self);
        }
        if !automaton_is_match(&self.automaton, evidence) {
            proof {
                if mentions(self.taxa(), evidence@) {
                    lemma_mention_stands(self.taxa(), evidence@);
                    let (taxon, at) = choose|taxon: Seq<u8>, at: int|
                        self.taxa().contains(taxon) && #[trigger] occurs_at(
                            evidence@,
                            exclusion_pattern(taxon),
                            at,
                        );
                    let patterns = automaton_patterns(self.automaton);
                    assert(patterns.contains(exclusion_pattern(taxon)));
                    let k = choose|k: int|
                        0 <= k < patterns.len() && patterns[k] == exclusion_pattern(taxon);
                    assert(occurs_at(evidence@, patterns[k], at));
                }
            }
            return false;
        }
        let tokens = split_bytes(evidence, SPACE);
        let ghost pieces = tokens_of(evidence@);
        let mut k: usize = 0;
        while k < tokens.len()
            invariant
                k <= tokens.len(),
                pieces == byte_rows(tokens@),
                pieces == tokens_of(evidence@),
                forall|j: int| 0 <= j < k ==> !names(self.taxa(), #[trigger] pieces[j]),
            decreases tokens.len() - k,
        {
            let token = &tokens[k];
            assert(pieces[k as int] == token@);
            let cut = find_byte(token.as_slice(), 0, FIELD_SEPARATOR);
            assert(token@.skip(0) == token@);
            if cut < token.len() {
                let id = copy_range(token.as_slice(), 0, cut);
                assert(id@ == token@.take(cut as int));
                if !is_mark_id(id.as_slice()) && self.excluded.contains(id.as_slice()) {
                    return true;
                }
            }
            k += 1;
        }
        false
    }
}

/// Whether `id` is one of the two marks.
pub fn is_mark_id(id: &[u8]) -> (mark: bool)
    ensures
        mark == is_mark(id@),
{
    let mark = id.len() == 1 && (id[0] == AMBIGUOUS_MARK || id[0] == UNCLASSIFIED_MARK);
    proof {
        if mark {
            assert(id@ =~= seq![id@[0]]);
        } else if id.len() == 1 {
            assert(seq![AMBIGUOUS_MARK][0] == AMBIGUOUS_MARK);
            assert(seq![UNCLASSIFIED_MARK][0] == UNCLASSIFIED_MARK);
        } else {
            assert(seq![AMBIGUOUS_MARK].len() == 1);
            assert(seq![UNCLASSIFIED_MARK].len() == 1);
        }
    }
    mark
}

/// One token of an evidence string: a taxon id, or a mark in its place, and
/// a count.
pub struct TokenView {
    pub taxon: Seq<u8>,
    pub count: Seq<u8>,
}

/// `s` holds neither the separator nor a space.
pub open spec fn plain(s: Seq<u8>) -> bool {
    free_of(s, FIELD_SEPARATOR) && free_of(s, SPACE)
}

/// A token as it is written: the id, the separator, the count.
pub open spec fn token_text(t: TokenView) -> Seq<u8> {
    t.taxon.push(FIELD_SEPARATOR) + t.count
}

/// An evidence string as it is written: its tokens with one space between
/// neighbours.
pub open spec fn evidence_text(tokens: Seq<TokenView>) -> Seq<u8>
    decreases tokens.len(),
{
    if tokens.len() == 0 {
        Seq::empty()
    } else if tokens.len() == 1 {
        token_text(tokens[0])
    } else {
        token_text(tokens[0]).push(SPACE) + evidence_text(tokens.skip(1))
    }
}

/// A written token is read as its id.
pub proof fn lemma_token_id(t: TokenView)
    requires
        plain(t.taxon),
    ensures
        token_id(token_text(t)) == Some(t.taxon),
        plain(t.count) ==> free_of(token_text(t), SPACE),
{
    let text = token_text(t);
    lemma_first_index_is(text, FIELD_SEPARATOR, t.taxon.len() as int);
    assert(text.take(t.taxon.len() as int) =~= t.taxon);
}

/// A written evidence string is read as its tokens.
pub proof fn lemma_tokens_of_written(tokens: Seq<TokenView>)
    requires
        tokens.len() > 0,
        forall|k: int|
            0 <= k < tokens.len() ==> plain((#[trigger] tokens[k]).taxon) && plain(tokens[k].count),
    ensures
        tokens_of(evidence_text(tokens)) == tokens.map_values(|t: TokenView| token_text(t)),
    decreases tokens.len(),
{
    let first = token_text(tokens[0]);
    lemma_token_id(tokens[0]);
    if tokens.len() == 1 {
        lemma_first_index_is(first, SPACE, first.len() as int);
        assert(split(first, SPACE) =~= seq![first]);
        assert(tokens.map_values(|t: TokenView| token_text(t)) =~= seq![first]);
    } else {
        let rest = tokens.skip(1);
        assert forall|k: int| 0 <= k < rest.len() implies plain((#[trigger] rest[k]).taxon)
            && plain(rest[k].count) by {
            assert(rest[k] == tokens[k + 1]);
        }
        lemma_tokens_of_written(rest);
        lemma_split_first(first, SPACE, evidence_text(rest));
        assert(tokens.map_values(|t: TokenView| token_text(t)) =~= seq![first] + rest.map_values(
            |t: TokenView| token_text(t),
        ));
    }
}

/// The predicate fires exactly on the evidence strings that have a token
/// whose id is an excluded taxon and no mark. So it fires wherever an
/// excluded taxon has a token, and never because an excluded id stands
/// within the longer id of another taxon, within a count, or in a mark.
pub proof fn lemma_mentions_tokens(excluded: Set<Seq<u8>>, tokens: Seq<TokenView>)
    requires
        forall|k: int|
            0 <= k < tokens.len() ==> plain((#[trigger] tokens[k]).taxon) && plain(tokens[k].count),
    ensures
        mentions(excluded, evidence_text(tokens)) <==> exists|k: int|
            0 <= k < tokens.len() && excluded.contains((#[trigger] tokens[k]).taxon) && !is_mark(
                tokens[k].taxon,
            ),
{
    let text = evidence_text(tokens);
    let pieces = tokens_of(text);
    if tokens.len() == 0 {
        lemma_first_index_is(text, SPACE, 0);
        assert(pieces =~= seq![text]);
        lemma_first_index_is(text, FIELD_SEPARATOR, 0);
        if mentions(excluded, text) {
            let k = choose|k: int| 0 <= k < pieces.len() && names(excluded, #[trigger] pieces[k]);
            assert(pieces[k] == text);
        }
    } else {
        lemma_tokens_of_written(tokens);
        assert forall|k: int| 0 <= k < tokens.len() implies token_id(#[trigger] pieces[k]) == Some(
            tokens[k].taxon,
        ) by {
            lemma_token_id(tokens[k]);
        }
        if mentions(excluded, text) {
            let k = choose|k: int| 0 <= k < pieces.len() && names(excluded, #[trigger] pieces[k]);
            assert(excluded.contains(tokens[k].taxon) && !is_mark(tokens[k].taxon));
        }
        if exists|k: int|
            0 <= k < tokens.len() && excluded.contains((#[trigger] tokens[k]).taxon) && !is_mark(
                tokens[k].taxon,
            ) {
            let k = choose|k: int|
                0 <= k < tokens.len() && excluded.contains((#[trigger] tokens[k]).taxon)
                    && !is_mark(tokens[k].taxon);
            assert(names(excluded, pieces[k]));
        }
    }
}

/// The ids on which a token can fire: those of `excluded` that hold neither
/// the separator nor a space, and are no mark.
pub open spec fn firing(excluded: Set<Seq<u8>>) -> Set<Seq<u8>> {
    Set::new(|id: Seq<u8>| excluded.contains(id) && plain(id) && !is_mark(id))
}

/// Whatever the evidence string: only an id that a token can have fires. A
/// mark in the list, and an id that holds the separator or a space, change
/// no decision.
pub proof fn lemma_only_token_ids_fire(excluded: Set<Seq<u8>>, evidence: Seq<u8>)
    ensures
        mentions(excluded, evidence) == mentions(firing(excluded), evidence),
{
    let tokens = tokens_of(evidence);
    assert forall|k: int| 0 <= k < tokens.len() implies (names(excluded, #[trigger] tokens[k])
        <==> names(firing(excluded), tokens[k])) by {
        let token = tokens[k];
        let cut = first_index(token, FIELD_SEPARATOR);
        lemma_first_index(token, FIELD_SEPARATOR);
        crate::lines::lemma_split_pieces_free(evidence, SPACE, k);
        if cut < token.len() {
            let id = token.take(cut as int);
            assert forall|i: int| 0 <= i < id.len() implies id[i] != FIELD_SEPARATOR && id[i]
                != SPACE by {
                assert(id[i] == token[i]);
            }
            assert(plain(id));
        }
    }
    if mentions(excluded, evidence) {
        let k = choose|k: int| 0 <= k < tokens.len() && names(excluded, #[trigger] tokens[k]);
        assert(names(firing(excluded), tokens[k]));
    }
    if mentions(firing(excluded), evidence) {
        let k = choose|k: int|
            0 <= k < tokens.len() && names(firing(excluded), #[trigger] tokens[k]);
        assert(names(excluded, tokens[k]));
    }
}

} // verus!
