use crate::bytes::byte_rows;
use crate::bytes::copy_bytes;
use crate::bytes::copy_rows;
use crate::bytes::lemma_push_holds;
use crate::error::PipelineError;
use crate::error::TaxonomyFault;
use crate::taxon_set::TaxonMap;
use crate::taxon_set::TaxonSet;
use vstd::prelude::*;

verus! {

/// One taxon of a classification report: its id and the ids of its
/// ancestors, from the root down to its parent.
#[derive(Debug)]
pub struct ReportEntry {
    pub taxid: Vec<u8>,
    pub lineage: Vec<Vec<u8>>,
}

/// A report entry as plain byte strings.
pub struct ReportEntryView {
    pub taxid: Seq<u8>,
    pub lineage: Seq<Seq<u8>>,
}

impl View for ReportEntry {
    type V = ReportEntryView;

    open spec fn view(&self) -> ReportEntryView {
        ReportEntryView { taxid: self.taxid@, lineage: byte_rows(self.lineage@) }
    }
}

/// The entries of a report as plain values, in order.
pub open spec fn report_view(report: Seq<ReportEntry>) -> Seq<ReportEntryView> {
    report.map_values(|e: ReportEntry| e@)
}

/// The report lists `taxon`.
pub open spec fn lists(report: Seq<ReportEntryView>, taxon: Seq<u8>) -> bool {
    exists|k: int| 0 <= k < report.len() && (#[trigger] report[k]).taxid == taxon
}

/// The report has an entry of `taxon` whose lineage holds `ancestor`.
pub open spec fn has_ancestor(
    report: Seq<ReportEntryView>,
    taxon: Seq<u8>,
    ancestor: Seq<u8>,
) -> bool {
    exists|k: int|
        0 <= k < report.len() && (#[trigger] report[k]).taxid == taxon
            && report[k].lineage.contains(ancestor)
}

/// All ancestors of `taxon`: what the lineages of its entries hold.
pub open spec fn ancestors_of(report: Seq<ReportEntryView>, taxon: Seq<u8>) -> Set<Seq<u8>> {
    Set::new(|ancestor: Seq<u8>| has_ancestor(report, taxon, ancestor))
}

/// The taxa of a report, each with the set of its ancestors.
pub open spec fn ancestor_map(report: Seq<ReportEntryView>) -> Map<Seq<u8>, Set<Seq<u8>>> {
    Map::new(|taxon: Seq<u8>| lists(report, taxon), |taxon: Seq<u8>| ancestors_of(report, taxon))
}

/// The taxa that have `taxon` among their ancestors.
pub open spec fn descendants_of(ancestors: Map<Seq<u8>, Set<Seq<u8>>>, taxon: Seq<u8>) -> Set<
    Seq<u8>,
> {
    Set::new(|child: Seq<u8>| ancestors.contains_key(child) && ancestors[child].contains(taxon))
}

/// The inverse of an ancestor map: each of its taxa with the set of its
/// descendants.
pub open spec fn descendant_map(ancestors: Map<Seq<u8>, Set<Seq<u8>>>) -> Map<
    Seq<u8>,
    Set<Seq<u8>>,
> {
    Map::new(
        |taxon: Seq<u8>| ancestors.contains_key(taxon),
        |taxon: Seq<u8>| descendants_of(ancestors, taxon),
    )
}

/// The requested taxa together with all their descendants.
pub open spec fn closure_of(descendants: Map<Seq<u8>, Set<Seq<u8>>>, interest: Seq<Seq<u8>>) -> Set<
    Seq<u8>,
> {
    Set::new(
        |t: Seq<u8>|
            exists|i: int|
                0 <= i < interest.len() && (t == #[trigger] interest[i] || (
                descendants.contains_key(interest[i]) && descendants[interest[i]].contains(t))),
    )
}

/// The include set that a report and a request define: every requested
/// taxon, and every taxon that the report lists with a requested taxon among
/// its ancestors.
pub open spec fn include_set(report: Seq<ReportEntryView>, interest: Seq<Seq<u8>>) -> Set<Seq<u8>> {
    Set::new(
        |t: Seq<u8>|
            exists|i: int|
                0 <= i < interest.len() && (t == #[trigger] interest[i] || descendants_of(
                    ancestor_map(report),
                    interest[i],
                ).contains(t)),
    )
}

/// The entries of a report whose taxon is in `kept`, in the order of the
/// report.
pub open spec fn matching_entries(report: Seq<ReportEntryView>, kept: Set<Seq<u8>>) -> Seq<
    ReportEntryView,
> {
    report.filter(|e: ReportEntryView| kept.contains(e.taxid))
}

/// Where the report lists every requested taxon, uniting over the
/// descendant map gives the include set.
pub proof fn lemma_closure_is_include_set(report: Seq<ReportEntryView>, interest: Seq<Seq<u8>>)
    requires
        first_missing(ancestor_map(report), interest) == interest.len(),
    ensures
        closure_of(descendant_map(ancestor_map(report)), interest) == include_set(report, interest),
{
    let anc = ancestor_map(report);
    let desc = descendant_map(anc);
    lemma_first_missing(anc, interest);
    assert forall|t: Seq<u8>|
        closure_of(desc, interest).contains(t) <==> include_set(report, interest).contains(t) by {
        if closure_of(desc, interest).contains(t) {
            let i = choose|i: int|
                0 <= i < interest.len() && (t == #[trigger] interest[i] || (desc.contains_key(
                    interest[i],
                ) && desc[interest[i]].contains(t)));
            assert(t == interest[i] || descendants_of(anc, interest[i]).contains(t));
        }
        if include_set(report, interest).contains(t) {
            let i = choose|i: int|
                0 <= i < interest.len() && (t == #[trigger] interest[i] || descendants_of(
                    anc,
                    interest[i],
                ).contains(t));
            assert(anc.contains_key(interest[i]));
            assert(desc.contains_key(interest[i]));
        }
    }
    assert(closure_of(desc, interest) =~= include_set(report, interest));
}

/// The position of the first requested taxon that is no key of `index`, or
/// the length of the request where all are keys.
pub open spec fn first_missing(index: Map<Seq<u8>, Set<Seq<u8>>>, interest: Seq<Seq<u8>>) -> int
    decreases interest.len(),
{
    if interest.len() == 0 {
        0
    } else if !index.contains_key(interest[0]) {
        0
    } else {
        1 + first_missing(index, interest.skip(1))
    }
}

/// Completeness of the closure: every entry whose lineage holds a requested
/// taxon is in the include set.
pub proof fn lemma_closure_complete(
    report: Seq<ReportEntryView>,
    interest: Seq<Seq<u8>>,
    k: int,
    i: int,
)
    requires
        0 <= k < report.len(),
        0 <= i < interest.len(),
        report[k].lineage.contains(interest[i]),
    ensures
        include_set(report, interest).contains(report[k].taxid),
{
    assert(lists(report, report[k].taxid));
    assert(has_ancestor(report, report[k].taxid, interest[i]));
    assert(descendants_of(ancestor_map(report), interest[i]).contains(report[k].taxid));
}

/// Every requested taxon is itself in the include set.
pub proof fn lemma_closure_holds_request(
    report: Seq<ReportEntryView>,
    interest: Seq<Seq<u8>>,
    i: int,
)
    requires
        0 <= i < interest.len(),
    ensures
        include_set(report, interest).contains(interest[i]),
{
}

/// Soundness of the closure: a taxon that is not requested, and of which no
/// entry has a requested taxon in its lineage, is not in the include set.
pub proof fn lemma_closure_sound(report: Seq<ReportEntryView>, interest: Seq<Seq<u8>>, y: Seq<u8>)
    requires
        forall|i: int| 0 <= i < interest.len() ==> y != #[trigger] interest[i],
        forall|k: int, i: int|
            0 <= k < report.len() && 0 <= i < interest.len() && (#[trigger] report[k]).taxid == y
                ==> !report[k].lineage.contains(#[trigger] interest[i]),
    ensures
        !include_set(report, interest).contains(y),
{
    let anc = ancestor_map(report);
    if include_set(report, interest).contains(y) {
        let i = choose|i: int|
            0 <= i < interest.len() && (y == #[trigger] interest[i] || descendants_of(
                anc,
                interest[i],
            ).contains(y));
        assert(has_ancestor(report, y, interest[i]));
        let k = choose|k: int|
            0 <= k < report.len() && (#[trigger] report[k]).taxid == y
                && report[k].lineage.contains(interest[i]);
        assert(!report[k].lineage.contains(interest[i]));
    }
}

/// What one more entry adds to a report: its taxon is listed, and its
/// lineage joins the ancestors of its taxon.
pub proof fn lemma_ancestors_push(report: Seq<ReportEntryView>, entry: ReportEntryView)
    ensures
        ancestor_map(report.push(entry)) == ancestor_map(report).insert(
            entry.taxid,
            ancestors_of(report, entry.taxid) + entry.lineage.to_set(),
        ),
{
    let more = report.push(entry);
    let n = report.len() as int;
    assert forall|t: Seq<u8>| lists(more, t) <==> (lists(report, t) || t == entry.taxid) by {
        if lists(more, t) {
            let k = choose|k: int| 0 <= k < more.len() && (#[trigger] more[k]).taxid == t;
            if k < n {
                assert(report[k].taxid == t);
            }
        }
        if lists(report, t) {
            let k = choose|k: int| 0 <= k < report.len() && (#[trigger] report[k]).taxid == t;
            assert(more[k].taxid == t);
        }
        if t == entry.taxid {
            assert(more[n].taxid == t);
        }
    }
    assert forall|t: Seq<u8>, a: Seq<u8>|
        has_ancestor(more, t, a) <==> (has_ancestor(report, t, a) || (t == entry.taxid
            && entry.lineage.contains(a))) by {
        if has_ancestor(more, t, a) {
            let k = choose|k: int|
                0 <= k < more.len() && (#[trigger] more[k]).taxid == t && more[k].lineage.contains(
                    a,
                );
            if k < n {
                assert(report[k].taxid == t && report[k].lineage.contains(a));
            }
        }
        if has_ancestor(report, t, a) {
            let k = choose|k: int|
                0 <= k < report.len() && (#[trigger] report[k]).taxid == t
                    && report[k].lineage.contains(a);
            assert(more[k].taxid == t && more[k].lineage.contains(a));
        }
        if t == entry.taxid && entry.lineage.contains(a) {
            assert(more[n].taxid == t && more[n].lineage.contains(a));
        }
    }
    let target = ancestor_map(report).insert(
        entry.taxid,
        ancestors_of(report, entry.taxid) + entry.lineage.to_set(),
    );
    assert forall|t: Seq<u8>| ancestor_map(more).contains_key(t) implies #[trigger] ancestor_map(
        more,
    )[t] =~= target[t] by {
        assert forall|a: Seq<u8>| ancestors_of(more, t).contains(a) <==> target[t].contains(a) by {
            assert(has_ancestor(more, t, a) <==> (has_ancestor(report, t, a) || (t == entry.taxid
                && entry.lineage.contains(a))));
        }
    }
    assert(ancestor_map(more) =~= target);
}

/// The taxa of a report, each with the set of its ancestors.
pub struct AncestorIndex {
    keys: Vec<Vec<u8>>,
    map: TaxonMap,
}

impl View for AncestorIndex {
    type V = Map<Seq<u8>, Set<Seq<u8>>>;

    closed spec fn view(&self) -> Map<Seq<u8>, Set<Seq<u8>>> {
        self.map@
    }
}

impl AncestorIndex {
    #[verifier::type_invariant]
    spec fn listed(self) -> bool {
        forall|t: Seq<u8>| self.map@.contains_key(t) <==> byte_rows(self.keys@).contains(t)
    }

    /// Indexes the ancestors of every taxon of `report`.
    pub fn build(report: &Vec<ReportEntry>) -> (index: AncestorIndex)
        ensures
            index@ == ancestor_map(report_view(report@)),
    {
        let ghost entries = report_view(report@);
        let mut keys: Vec<Vec<u8>> = Vec::new();
        let mut map = TaxonMap::new();
        let mut i: usize = 0;
        proof {
            assert(map@ =~= ancestor_map(entries.take(0))) by {
                assert forall|t: Seq<u8>| !lists(entries.take(0), t) by {
                    assert(entries.take(0).len() == 0);
                }
            }
        }
        while i < report.len()
            invariant
                i <= report.len(),
                entries == report_view(report@),
                map@ == ancestor_map(entries.take(i as int)),
                byte_rows(keys@) == Seq::new(i as nat, |k: int| entries[k].taxid),
            decreases report.len() - i,
        {
            let entry = &report[i];
            let ghost front = entries.take(i as int);
            let ghost here = entries[i as int];
            let mut ancestors = TaxonSet::new();
            match map.members(entry.taxid.as_slice()) {
                Some(known) => {
                    ancestors.insert_all(&known);
                    assert(ancestors@ =~= ancestors_of(front, here.taxid));
                },
                None => {
                    proof {
                        assert(!lists(front, here.taxid));
                        assert forall|a: Seq<u8>| !has_ancestor(front, here.taxid, a) by {
                            if has_ancestor(front, here.taxid, a) {
                                let k = choose|k: int|
                                    0 <= k < front.len() && (#[trigger] front[k]).taxid
                                        == here.taxid && front[k].lineage.contains(a);
                                assert(lists(front, here.taxid));
                            }
                        }
                        assert(ancestors@ =~= ancestors_of(front, here.taxid));
                    }
                },
            }
            ancestors.insert_all(&entry.lineage);
            proof {
                lemma_ancestors_push(front, here);
                assert(entries.take(i + 1) == front.push(here));
            }
            map.insert(copy_bytes(entry.taxid.as_slice()), ancestors);
            let ghost listed = byte_rows(keys@);
            keys.push(copy_bytes(entry.taxid.as_slice()));
            proof {
                assert(entries[i as int].taxid == entry.taxid@);
                assert(byte_rows(keys@) =~= listed.push(entry.taxid@));
                assert(byte_rows(keys@) =~= Seq::new((i + 1) as nat, |k: int| entries[k].taxid));
            }
            i += 1;
        }
        proof {
            assert(entries.take(report.len() as int) == entries);
            assert forall|t: Seq<u8>| map@.contains_key(t) <==> byte_rows(keys@).contains(t) by {
                if map@.contains_key(t) {
                    let k = choose|k: int| 0 <= k < entries.len() && (#[trigger] entries[k]).taxid == t;
                    assert(byte_rows(keys@)[k] == t);
                }
                if byte_rows(keys@).contains(t) {
                    let k = choose|k: int| 0 <= k < keys@.len() && byte_rows(keys@)[k] == t;
                    assert(entries[k].taxid == t);
                }
            }
        }
        AncestorIndex { keys, map }
    }

    /// Whether the report lists `taxon`.
    pub fn contains_taxon(&self, taxon: &[u8]) -> (found: bool)
        ensures
            found == self@.contains_key(taxon@),
    {
        self.map.contains_key(taxon)
    }

    /// Whether the report lists `taxon` with `ancestor` among its ancestors.
    pub fn is_ancestor(&self, taxon: &[u8], ancestor: &[u8]) -> (found: bool)
        ensures
            found == (self@.contains_key(taxon@) && self@[taxon@].contains(ancestor@)),
    {
        self.map.relates(taxon, ancestor)
    }
}

/// The taxa of a report, each with the set of its descendants.
pub struct DescendantIndex {
    map: TaxonMap,
}

impl View for DescendantIndex {
    type V = Map<Seq<u8>, Set<Seq<u8>>>;

    closed spec fn view(&self) -> Map<Seq<u8>, Set<Seq<u8>>> {
        self.map@
    }
}

impl DescendantIndex {
    /// Inverts `ancestors`: every taxon is tested against the ancestor set of
    /// every taxon.
    pub fn build(ancestors: &AncestorIndex) -> (index: DescendantIndex)
        ensures
            index@ == descendant_map(ancestors@),
    {
        proof {
            use_type_invariant(ancestors);
        }
        let ghost anc = ancestors@;
        let ghost names = byte_rows(ancestors.keys@);
        let mut map = TaxonMap::new();
        let n = ancestors.keys.len();
        let mut i: usize = 0;
        while i < n
            invariant
                i <= n,
                n == ancestors.keys.len(),
                anc == ancestors@,
                names == byte_rows(ancestors.keys@),
                forall|t: Seq<u8>| anc.contains_key(t) <==> names.contains(t),
                map@ =~= Map::new(
                    |t: Seq<u8>| names.take(i as int).contains(t),
                    |t: Seq<u8>| descendants_of(anc, t),
                ),
            decreases n - i,
        {
            let taxon = &ancestors.keys[i];
            let mut below = TaxonSet::new();
            let mut j: usize = 0;
            while j < n
                invariant
                    j <= n,
                    n == ancestors.keys.len(),
                    anc == ancestors@,
                    names == byte_rows(ancestors.keys@),
                    taxon@ == names[i as int],
                    i < n,
                    below@ =~= Set::new(
                        |c: Seq<u8>|
                            names.take(j as int).contains(c) && anc.contains_key(c)
                                && anc[c].contains(taxon@),
                    ),
                decreases n - j,
            {
                let child = &ancestors.keys[j];
                let ghost before = names.take(j as int);
                let ghost after = names.take(j + 1);
                proof {
                    assert(after == before.push(names[j as int]));
                    assert(child@ == names[j as int]);
                    lemma_push_holds(before, child@);
                }
                if ancestors.is_ancestor(child.as_slice(), taxon.as_slice()) {
                    below.insert(copy_bytes(child.as_slice()));
                }
                j += 1;
            }
            proof {
                assert(names.take(n as int) == names);
                assert(below@ =~= descendants_of(anc, taxon@));
                let before = names.take(i as int);
                let after = names.take(i + 1);
                assert(after == before.push(names[i as int]));
                lemma_push_holds(before, taxon@);
            }
            map.insert(copy_bytes(taxon.as_slice()), below);
            i += 1;
        }
        proof {
            assert(names.take(n as int) == names);
            assert(map@ =~= descendant_map(anc));
        }
        DescendantIndex { map }
    }

    /// Whether the report lists `taxon`.
    pub fn contains_taxon(&self, taxon: &[u8]) -> (found: bool)
        ensures
            found == self@.contains_key(taxon@),
    {
        self.map.contains_key(taxon)
    }

    /// Whether the report lists `taxon` with `descendant` among its
    /// descendants.
    pub fn is_descendant(&self, taxon: &[u8], descendant: &[u8]) -> (found: bool)
        ensures
            found == (self@.contains_key(taxon@) && self@[taxon@].contains(descendant@)),
    {
        self.map.relates(taxon, descendant)
    }

    /// The descendants of `taxon`, in no particular order, or nothing where
    /// the report does not list `taxon`.
    pub fn descendants(&self, taxon: &[u8]) -> (items: Option<Vec<Vec<u8>>>)
        ensures
            items is Some == self@.contains_key(taxon@),
            items matches Some(v) ==> forall|t: Seq<u8>|
                self@[taxon@].contains(t) <==> byte_rows(v@).contains(t),
    {
        self.map.members(taxon)
    }
}

/// No requested taxon before position `n` is missing from the index.
pub proof fn lemma_first_missing(index: Map<Seq<u8>, Set<Seq<u8>>>, interest: Seq<Seq<u8>>)
    ensures
        0 <= first_missing(index, interest) <= interest.len(),
        forall|j: int|
            0 <= j < first_missing(index, interest) ==> index.contains_key(#[trigger] interest[j]),
        first_missing(index, interest) < interest.len() ==> !index.contains_key(
            interest[first_missing(index, interest)],
        ),
    decreases interest.len(),
{
    if interest.len() > 0 && index.contains_key(interest[0]) {
        let rest = interest.skip(1);
        lemma_first_missing(index, rest);
        assert forall|j: int| 0 <= j < first_missing(index, interest) implies index.contains_key(
            #[trigger] interest[j],
        ) by {
            if j > 0 {
                assert(rest[j - 1] == interest[j]);
            }
        }
        if first_missing(index, interest) < interest.len() {
            assert(rest[first_missing(index, rest)] == interest[first_missing(index, interest)]);
        }
    }
}

/// A position whose taxon is missing, after a run of listed taxa, is the
/// first missing one.
pub proof fn lemma_first_missing_is(
    index: Map<Seq<u8>, Set<Seq<u8>>>,
    interest: Seq<Seq<u8>>,
    n: int,
)
    requires
        0 <= n <= interest.len(),
        forall|j: int| 0 <= j < n ==> index.contains_key(#[trigger] interest[j]),
        n < interest.len() ==> !index.contains_key(interest[n]),
    ensures
        first_missing(index, interest) == n,
{
    lemma_first_missing(index, interest);
}

/// The taxa whose reads are kept: the requested taxa and all their
/// descendants.
pub struct IncludeSet {
    set: TaxonSet,
}

impl View for IncludeSet {
    type V = Set<Seq<u8>>;

    closed spec fn view(&self) -> Set<Seq<u8>> {
        self.set@
    }
}

impl IncludeSet {
    /// Unites, over the requested taxa, each taxon with its descendants. Fails
    /// at the first requested taxon that the report does not list.
    pub fn build(descendants: &DescendantIndex, interest: &Vec<Vec<u8>>) -> (built: Result<
        IncludeSet,
        PipelineError,
    >)
        ensures
            match built {
                Ok(kept) => first_missing(descendants@, byte_rows(interest@)) == interest.len()
                    && kept@ == closure_of(descendants@, byte_rows(interest@)),
                Err(e) => first_missing(descendants@, byte_rows(interest@)) < interest.len() && e
                    == PipelineError::TaxonomyParse(
                    TaxonomyFault::MissingTaxon {
                        index: first_missing(descendants@, byte_rows(interest@)) as usize,
                    },
                ),
            },
    {
        let ghost wanted = byte_rows(interest@);
        let ghost desc = descendants@;
        let mut k: usize = 0;
        while k < interest.len()
            invariant
                k <= interest.len(),
                wanted == byte_rows(interest@),
                desc == descendants@,
                forall|j: int| 0 <= j < k ==> desc.contains_key(#[trigger] wanted[j]),
            decreases interest.len() - k,
        {
            if !descendants.contains_taxon(interest[k].as_slice()) {
                proof {
                    lemma_first_missing_is(desc, wanted, k as int);
                }
                return Err(PipelineError::TaxonomyParse(TaxonomyFault::MissingTaxon { index: k }));
            }
            k += 1;
        }
        proof {
            lemma_first_missing_is(desc, wanted, interest.len() as int);
        }
        let mut set = TaxonSet::new();
        let mut i: usize = 0;
        while i < interest.len()
            invariant
                i <= interest.len(),
                wanted == byte_rows(interest@),
                desc == descendants@,
                forall|j: int| 0 <= j < wanted.len() ==> desc.contains_key(#[trigger] wanted[j]),
                set@ =~= closure_of(desc, wanted.take(i as int)),
            decreases interest.len() - i,
        {
            let taxon = &interest[i];
            assert(taxon@ == wanted[i as int]);
            let below = match descendants.descendants(taxon.as_slice()) {
                Some(v) => v,
                None => Vec::new(),
            };
            set.insert(copy_bytes(taxon.as_slice()));
            set.insert_all(&below);
            proof {
                let before = wanted.take(i as int);
                let after = wanted.take(i + 1);
                assert(after == before.push(wanted[i as int]));
                assert forall|t: Seq<u8>| #[trigger]
                    closure_of(desc, after).contains(t) <==> (closure_of(desc, before).contains(t)
                        || t == taxon@ || desc[taxon@].contains(t)) by {
                    if closure_of(desc, after).contains(t) {
                        let w = choose|w: int|
                            0 <= w < after.len() && (t == #[trigger] after[w] || (desc.contains_key(
                                after[w],
                            ) && desc[after[w]].contains(t)));
                        if w < i {
                            assert(before[w] == after[w]);
                        }
                    }
                    if closure_of(desc, before).contains(t) {
                        let w = choose|w: int|
                            0 <= w < before.len() && (t == #[trigger] before[w] || (
                            desc.contains_key(before[w]) && desc[before[w]].contains(t)));
                        assert(after[w] == before[w]);
                    }
                    if t == taxon@ || desc[taxon@].contains(t) {
                        assert(after[i as int] == taxon@);
                    }
                }
                assert(set@ =~= closure_of(desc, after));
            }
            i += 1;
        }
        proof {
            assert(wanted.take(interest.len() as int) == wanted);
        }
        Ok(IncludeSet { set })
    }

    /// The include set of a report and a request: builds both indices and
    /// unites. Fails at the first requested taxon that the report does not
    /// list.
    pub fn from_report(report: &Vec<ReportEntry>, interest: &Vec<Vec<u8>>) -> (built: Result<
        IncludeSet,
        PipelineError,
    >)
        ensures
            match built {
                Ok(kept) => first_missing(
                    ancestor_map(report_view(report@)),
                    byte_rows(interest@),
                ) == interest.len() && kept@ == include_set(
                    report_view(report@),
                    byte_rows(interest@),
                ),
                Err(e) => first_missing(ancestor_map(report_view(report@)), byte_rows(interest@))
                    < interest.len() && e == PipelineError::TaxonomyParse(
                    TaxonomyFault::MissingTaxon {
                        index: first_missing(
                            ancestor_map(report_view(report@)),
                            byte_rows(interest@),
                        ) as usize,
                    },
                ),
            },
    {
        let ancestors = AncestorIndex::build(report);
        let descendants = DescendantIndex::build(&ancestors);
        proof {
            lemma_first_missing_same_keys(ancestors@, descendants@, byte_rows(interest@));
            if first_missing(ancestors@, byte_rows(interest@)) == interest.len() {
                lemma_closure_is_include_set(report_view(report@), byte_rows(interest@));
            }
        }
        IncludeSet::build(&descendants, interest)
    }

    /// The entries of `report` whose taxon is in the set, each with its
    /// lineage, in the order of the report.
    pub fn matching(&self, report: &Vec<ReportEntry>) -> (found: Vec<ReportEntry>)
        ensures
            report_view(found@) == matching_entries(report_view(report@), self@),
    {
        let ghost entries = report_view(report@);
        let ghost wanted = |e: ReportEntryView| self@.contains(e.taxid);
        let mut found: Vec<ReportEntry> = Vec::new();
        let mut i: usize = 0;
        assert(report_view(found@) =~= Seq::empty());
        assert(entries.take(0).filter(wanted) =~= Seq::empty()) by {
            assert(entries.take(0) =~= Seq::empty());
        }
        while i < report.len()
            invariant
                i <= report.len(),
                entries == report_view(report@),
                wanted == |e: ReportEntryView| self@.contains(e.taxid),
                report_view(found@) == entries.take(i as int).filter(wanted),
            decreases report.len() - i,
        {
            let entry = &report[i];
            proof {
                assert(entries.take(i + 1).drop_last() == entries.take(i as int));
                assert(entries.take(i + 1).last() == entry@);
                reveal(Seq::filter);
            }
            if self.contains(entry.taxid.as_slice()) {
                let ghost before = report_view(found@);
                let copy = ReportEntry {
                    taxid: copy_bytes(entry.taxid.as_slice()),
                    lineage: copy_rows(&entry.lineage, entry.lineage.len()),
                };
                proof {
                    assert(byte_rows(entry.lineage@).take(entry.lineage.len() as int)
                        == byte_rows(entry.lineage@));
                    assert(copy@ == entry@);
                }
                found.push(copy);
                assert(report_view(found@) =~= before.push(entry@));
            }
            i += 1;
        }
        assert(entries.take(report.len() as int) == entries);
        found
    }

    /// Whether reads assigned to `taxon` are kept.
    pub fn contains(&self, taxon: &[u8]) -> (found: bool)
        ensures
            found == self@.contains(taxon@),
    {
        self.set.contains(taxon)
    }
}

/// Two indices with the same keys miss the same requested taxon first.
pub proof fn lemma_first_missing_same_keys(
    a: Map<Seq<u8>, Set<Seq<u8>>>,
    b: Map<Seq<u8>, Set<Seq<u8>>>,
    interest: Seq<Seq<u8>>,
)
    requires
        forall|t: Seq<u8>| a.contains_key(t) <==> b.contains_key(t),
    ensures
        first_missing(a, interest) == first_missing(b, interest),
    decreases interest.len(),
{
    if interest.len() > 0 && a.contains_key(interest[0]) {
        lemma_first_missing_same_keys(a, b, interest.skip(1));
    }
}

} // verus!
