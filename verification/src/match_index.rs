use crate::bytes::copy_bytes;
use rustc_hash::FxBuildHasher;
use std::collections::HashMap;
use vstd::prelude::*;

verus! {

/// The read ids that a hash map has as keys, each with the taxon it maps to.
pub uninterp spec fn match_map_contents(m: HashMap<Vec<u8>, Vec<u8>, FxBuildHasher>) -> Map<
    Seq<u8>,
    Seq<u8>,
>;

/// The map from read ids to taxa that has no key.
pub open spec fn empty_match_map() -> Map<Seq<u8>, Seq<u8>> {
    Map::empty()
}

/// `HashMap::default` with the Fx hasher: a new map has no key.
#[verifier::external_body]
fn fx_index_new() -> (m: HashMap<Vec<u8>, Vec<u8>, FxBuildHasher>)
    ensures
        match_map_contents(m) == empty_match_map(),
{
    HashMap::default()
}

/// `HashMap::insert`: afterwards `key` maps to `value`, whatever it mapped to
/// before, and every other key is as it was.
#[verifier::external_body]
fn fx_index_insert(m: &mut HashMap<Vec<u8>, Vec<u8>, FxBuildHasher>, key: Vec<u8>, value: Vec<u8>)
    ensures
        match_map_contents(*final(m)) == match_map_contents(*old(m)).insert(key@, value@),
{
    m.insert(key, value);
}

/// `HashMap::get`, asked with a byte slice: what the key with exactly these
/// bytes maps to, or nothing where the map has no such key.
#[verifier::external_body]
fn fx_index_get<'a>(m: &'a HashMap<Vec<u8>, Vec<u8>, FxBuildHasher>, key: &[u8]) -> (value:
    Option<&'a Vec<u8>>)
    ensures
        match value {
            Some(v) => match_map_contents(*m).contains_key(key@) && v@ == match_map_contents(
                *m,
            )[key@],
            None => !match_map_contents(*m).contains_key(key@),
        },
{
    m.get(key)
}

/// `HashMap::len`: the number of keys.
#[verifier::external_body]
fn fx_index_len(m: &HashMap<Vec<u8>, Vec<u8>, FxBuildHasher>) -> (n: usize)
    ensures
        n == match_map_contents(*m).dom().len(),
{
    m.len()
}

/// A read that passed the filter: its id and the taxon it was assigned to.
#[derive(Debug)]
pub struct MatchEntry {
    pub read_id: Vec<u8>,
    pub taxid: Vec<u8>,
}

impl View for MatchEntry {
    type V = (Seq<u8>, Seq<u8>);

    open spec fn view(&self) -> (Seq<u8>, Seq<u8>) {
        (self.read_id@, self.taxid@)
    }
}

/// The entries of a list as plain values, in order.
pub open spec fn entries_view(entries: Seq<MatchEntry>) -> Seq<(Seq<u8>, Seq<u8>)> {
    entries.map_values(|e: MatchEntry| e@)
}

/// `index` after the entries were put into it one after the other; of two
/// entries for one read the later one stays.
pub open spec fn merge_entries(index: Map<Seq<u8>, Seq<u8>>, entries: Seq<(Seq<u8>, Seq<u8>)>) -> Map<
    Seq<u8>,
    Seq<u8>,
>
    decreases entries.len(),
{
    if entries.len() == 0 {
        index
    } else {
        merge_entries(index, entries.drop_last()).insert(entries.last().0, entries.last().1)
    }
}

/// Merging a list in two parts is merging it whole.
pub proof fn lemma_merge_concat(
    index: Map<Seq<u8>, Seq<u8>>,
    a: Seq<(Seq<u8>, Seq<u8>)>,
    b: Seq<(Seq<u8>, Seq<u8>)>,
)
    ensures
        merge_entries(merge_entries(index, a), b) == merge_entries(index, a + b),
    decreases b.len(),
{
    if b.len() == 0 {
        assert(a + b == a);
    } else {
        lemma_merge_concat(index, a, b.drop_last());
        assert((a + b).drop_last() == a + b.drop_last());
        assert((a + b).last() == b.last());
    }
}

/// The reads of a merged index are those that it held and those of the
/// entries, whatever the order of the entries.
pub proof fn lemma_merge_keys(
    index: Map<Seq<u8>, Seq<u8>>,
    entries: Seq<(Seq<u8>, Seq<u8>)>,
    read_id: Seq<u8>,
)
    ensures
        merge_entries(index, entries).contains_key(read_id) <==> (index.contains_key(read_id)
            || exists|k: int| 0 <= k < entries.len() && (#[trigger] entries[k]).0 == read_id),
    decreases entries.len(),
{
    if entries.len() > 0 {
        let front = entries.drop_last();
        lemma_merge_keys(index, front, read_id);
        if exists|k: int| 0 <= k < front.len() && (#[trigger] front[k]).0 == read_id {
            let k = choose|k: int| 0 <= k < front.len() && (#[trigger] front[k]).0 == read_id;
            assert(entries[k].0 == read_id);
        }
        if entries.last().0 == read_id {
            assert(entries[entries.len() - 1].0 == read_id);
        }
        if exists|k: int| 0 <= k < entries.len() && (#[trigger] entries[k]).0 == read_id {
            let k = choose|k: int| 0 <= k < entries.len() && (#[trigger] entries[k]).0 == read_id;
            if k < entries.len() - 1 {
                assert(front[k].0 == read_id);
            }
        }
    }
}

/// The reads that passed the filter, each with the taxon it was assigned to.
pub struct MatchIndex {
    map: HashMap<Vec<u8>, Vec<u8>, FxBuildHasher>,
}

impl View for MatchIndex {
    type V = Map<Seq<u8>, Seq<u8>>;

    closed spec fn view(&self) -> Map<Seq<u8>, Seq<u8>> {
        match_map_contents(self.map)
    }
}

impl MatchIndex {
    #[verifier::type_invariant]
    spec fn bounded(self) -> bool {
        match_map_contents(self.map).dom().finite()
    }

    /// The index without reads.
    pub fn new() -> (index: MatchIndex)
        ensures
            index@ == empty_match_map(),
    {
        MatchIndex { map: fx_index_new() }
    }

    /// The index that holds `entries`, put in one after the other on top of
    /// what `self` holds.
    pub fn merge(self, entries: Vec<MatchEntry>) -> (merged: MatchIndex)
        ensures
            merged@ == merge_entries(self@, entries_view(entries@)),
    {
        proof {
            use_type_invariant(&self);
        }
        let ghost start = self@;
        let ghost added = entries_view(entries@);
        let mut map = self.map;
        let mut i: usize = 0;
        while i < entries.len()
            invariant
                i <= entries.len(),
                added == entries_view(entries@),
                match_map_contents(map) == merge_entries(start, added.take(i as int)),
                match_map_contents(map).dom().finite(),
            decreases entries.len() - i,
        {
            let entry = &entries[i];
            proof {
                assert(added.take(i + 1).drop_last() == added.take(i as int));
                assert(added.take(i + 1).last() == entry@);
            }
            fx_index_insert(
                &mut map,
                copy_bytes(entry.read_id.as_slice()),
                copy_bytes(entry.taxid.as_slice()),
            );
            i += 1;
        }
        assert(added.take(entries.len() as int) == added);
        MatchIndex { map }
    }

    /// Whether the index holds the read `read_id`.
    pub fn contains(&self, read_id: &[u8]) -> (found: bool)
        ensures
            found == self@.contains_key(read_id@),
    {
        fx_index_get(&self.map, read_id).is_some()
    }

    /// The taxon that the read `read_id` was assigned to, or nothing where
    /// the index does not hold the read.
    pub fn taxon_of(&self, read_id: &[u8]) -> (taxon: Option<Vec<u8>>)
        ensures
            match taxon {
                Some(t) => self@.contains_key(read_id@) && t@ == self@[read_id@],
                None => !self@.contains_key(read_id@),
            },
    {
        match fx_index_get(&self.map, read_id) {
            Some(t) => Some(copy_bytes(t.as_slice())),
            None => None,
        }
    }

    /// The number of reads in the index.
    pub fn len(&self) -> (n: usize)
        ensures
            n == self@.dom().len(),
            self@.dom().finite(),
    {
        proof {
            use_type_invariant(self);
        }
        fx_index_len(&self.map)
    }

    /// Whether the index holds no read.
    pub fn is_empty(&self) -> (empty: bool)
        ensures
            empty == (self@ == empty_match_map()),
    {
        proof {
            use_type_invariant(self);
        }
        let n = fx_index_len(&self.map);
        proof {
            if n == 0 {
                assert(self@.dom() =~= Set::empty()) by {
                    if !(self@.dom() =~= Set::<Seq<u8>>::empty()) {
                        let k = choose|k: Seq<u8>| self@.dom().contains(k);
                        assert(self@.dom().contains(k));
                        assert(self@.dom().len() > 0) by {
                            vstd::set_lib::lemma_set_empty_equivalency_len(self@.dom());
                        }
                    }
                }
                assert(self@ =~= empty_match_map());
            } else {
                assert(empty_match_map().dom().len() == 0);
            }
        }
        n == 0
    }
}

} // verus!
