use crate::bytes::byte_rows;
use crate::bytes::copy_bytes;
use crate::bytes::lemma_push_holds;
use rustc_hash::FxBuildHasher;
use std::collections::HashMap;
use std::collections::HashSet;
use vstd::prelude::*;

verus! {

/// The hasher state of `rustc_hash`, opaque to the verifier.
#[verifier::external_type_specification]
#[verifier::external_body]
pub struct ExFxBuildHasher(FxBuildHasher);

/// The taxon ids that a hash set holds, each as its bytes.
pub uninterp spec fn taxon_set_contents(s: HashSet<Vec<u8>, FxBuildHasher>) -> Set<Seq<u8>>;

/// The taxon ids that a hash map has as keys, each with the set it maps to.
pub uninterp spec fn taxon_map_contents(
    m: HashMap<Vec<u8>, HashSet<Vec<u8>, FxBuildHasher>, FxBuildHasher>,
) -> Map<Seq<u8>, Set<Seq<u8>>>;

/// The map from taxon ids to sets of taxon ids that has no key.
pub open spec fn empty_taxon_map() -> Map<Seq<u8>, Set<Seq<u8>>> {
    Map::empty()
}

/// `HashSet::default` with the Fx hasher: a new set holds nothing.
#[verifier::external_body]
fn fx_set_new() -> (s: HashSet<Vec<u8>, FxBuildHasher>)
    ensures
        taxon_set_contents(s) == Set::<Seq<u8>>::empty(),
{
    HashSet::default()
}

/// `HashSet::insert`: afterwards the set holds what it held and `taxon`; the
/// result says whether `taxon` was new to it.
#[verifier::external_body]
fn fx_set_insert(s: &mut HashSet<Vec<u8>, FxBuildHasher>, taxon: Vec<u8>) -> (fresh: bool)
    ensures
        taxon_set_contents(*final(s)) == taxon_set_contents(*old(s)).insert(taxon@),
        fresh == !taxon_set_contents(*old(s)).contains(taxon@),
{
    s.insert(taxon)
}

/// `HashSet::contains`, asked with a byte slice: whether the set holds a
/// taxon id with exactly these bytes.
#[verifier::external_body]
fn fx_set_contains(s: &HashSet<Vec<u8>, FxBuildHasher>, taxon: &[u8]) -> (found: bool)
    ensures
        found == taxon_set_contents(*s).contains(taxon@),
{
    s.contains(taxon)
}

/// `HashSet::iter`, each item copied out: the result lists exactly the ids
/// that the set holds, in the order in which the set is walked, which is
/// left open.
#[verifier::external_body]
fn fx_set_items(s: &HashSet<Vec<u8>, FxBuildHasher>) -> (items: Vec<Vec<u8>>)
    ensures
        forall|t: Seq<u8>| taxon_set_contents(*s).contains(t) <==> byte_rows(items@).contains(t),
{
    s.iter().cloned().collect()
}

/// `HashMap::default` with the Fx hasher: a new map has no key.
#[verifier::external_body]
fn fx_map_new() -> (m: HashMap<Vec<u8>, HashSet<Vec<u8>, FxBuildHasher>, FxBuildHasher>)
    ensures
        taxon_map_contents(m) == empty_taxon_map(),
{
    HashMap::default()
}

/// `HashMap::insert`: afterwards `key` maps to `value`, whatever it mapped to
/// before, and every other key is as it was.
#[verifier::external_body]
fn fx_map_insert(
    m: &mut HashMap<Vec<u8>, HashSet<Vec<u8>, FxBuildHasher>, FxBuildHasher>,
    key: Vec<u8>,
    value: HashSet<Vec<u8>, FxBuildHasher>,
)
    ensures
        taxon_map_contents(*final(m)) == taxon_map_contents(*old(m)).insert(
            key@,
            taxon_set_contents(value),
        ),
{
    m.insert(key, value);
}

/// `HashMap::get`, asked with a byte slice: the set that the key with exactly
/// these bytes maps to, or nothing where the map has no such key.
#[verifier::external_body]
fn fx_map_get<'a>(
    m: &'a HashMap<Vec<u8>, HashSet<Vec<u8>, FxBuildHasher>, FxBuildHasher>,
    key: &[u8],
) -> (value: Option<&'a HashSet<Vec<u8>, FxBuildHasher>>)
    ensures
        match value {
            Some(s) => taxon_map_contents(*m).contains_key(key@) && taxon_set_contents(*s)
                == taxon_map_contents(*m)[key@],
            None => !taxon_map_contents(*m).contains_key(key@),
        },
{
    m.get(key)
}

/// A set of taxon ids, compared byte by byte.
pub struct TaxonSet {
    set: HashSet<Vec<u8>, FxBuildHasher>,
}

impl View for TaxonSet {
    type V = Set<Seq<u8>>;

    closed spec fn view(&self) -> Set<Seq<u8>> {
        taxon_set_contents(self.set)
    }
}

impl TaxonSet {
    /// The empty set.
    pub fn new() -> (s: TaxonSet)
        ensures
            s@ == Set::<Seq<u8>>::empty(),
    {
        TaxonSet { set: fx_set_new() }
    }

    /// Adds `taxon`; returns whether it was absent before.
    pub fn insert(&mut self, taxon: Vec<u8>) -> (fresh: bool)
        ensures
            final(self)@ == old(self)@.insert(taxon@),
            fresh == !old(self)@.contains(taxon@),
    {
        fx_set_insert(&mut self.set, taxon)
    }

    /// Membership of the id with the bytes `taxon`.
    pub fn contains(&self, taxon: &[u8]) -> (found: bool)
        ensures
            found == self@.contains(taxon@),
    {
        fx_set_contains(&self.set, taxon)
    }

    /// Adds every id of `items`.
    pub fn insert_all(&mut self, items: &Vec<Vec<u8>>)
        ensures
            final(self)@ == old(self)@ + byte_rows(items@).to_set(),
    {
        let ghost start = self@;
        let ghost rows = byte_rows(items@);
        let mut j: usize = 0;
        assert(rows.take(0).to_set() =~= Set::<Seq<u8>>::empty());
        assert(start + Set::<Seq<u8>>::empty() =~= start);
        while j < items.len()
            invariant
                j <= items.len(),
                rows == byte_rows(items@),
                self@ == start + rows.take(j as int).to_set(),
            decreases items.len() - j,
        {
            self.insert(copy_bytes(items[j].as_slice()));
            proof {
                let before = rows.take(j as int);
                let after = rows.take(j + 1);
                assert(after == before.push(rows[j as int]));
                lemma_push_holds(before, rows[j as int]);
                assert(start + after.to_set() =~= (start + before.to_set()).insert(
                    rows[j as int],
                ));
            }
            j += 1;
        }
        assert(rows.take(items.len() as int) == rows);
    }

    /// The ids of the set, in no particular order.
    pub fn items(&self) -> (items: Vec<Vec<u8>>)
        ensures
            forall|t: Seq<u8>| self@.contains(t) <==> byte_rows(items@).contains(t),
    {
        fx_set_items(&self.set)
    }
}

/// A map from taxon ids to sets of taxon ids, keys compared byte by byte.
pub struct TaxonMap {
    map: HashMap<Vec<u8>, HashSet<Vec<u8>, FxBuildHasher>, FxBuildHasher>,
}

impl View for TaxonMap {
    type V = Map<Seq<u8>, Set<Seq<u8>>>;

    closed spec fn view(&self) -> Map<Seq<u8>, Set<Seq<u8>>> {
        taxon_map_contents(self.map)
    }
}

impl TaxonMap {
    /// The map without keys.
    pub fn new() -> (m: TaxonMap)
        ensures
            m@ == empty_taxon_map(),
    {
        TaxonMap { map: fx_map_new() }
    }

    /// Maps `key` to `value`, replacing what `key` mapped to.
    pub fn insert(&mut self, key: Vec<u8>, value: TaxonSet)
        ensures
            final(self)@ == old(self)@.insert(key@, value@),
    {
        fx_map_insert(&mut self.map, key, value.set)
    }

    /// Whether `key` is a key of the map.
    pub fn contains_key(&self, key: &[u8]) -> (found: bool)
        ensures
            found == self@.contains_key(key@),
    {
        fx_map_get(&self.map, key).is_some()
    }

    /// Whether `key` is a key of the map and maps to a set that holds `member`.
    pub fn relates(&self, key: &[u8], member: &[u8]) -> (found: bool)
        ensures
            found == (self@.contains_key(key@) && self@[key@].contains(member@)),
    {
        match fx_map_get(&self.map, key) {
            Some(s) => fx_set_contains(s, member),
            None => false,
        }
    }

    /// The ids of the set that `key` maps to, in no particular order, or
    /// nothing where `key` is no key of the map.
    pub fn members(&self, key: &[u8]) -> (items: Option<Vec<Vec<u8>>>)
        ensures
            items is Some == self@.contains_key(key@),
            items matches Some(v) ==> forall|t: Seq<u8>|
                self@[key@].contains(t) <==> byte_rows(v@).contains(t),
    {
        match fx_map_get(&self.map, key) {
            Some(s) => Some(fx_set_items(s)),
            None => None,
        }
    }
}

} // verus!
