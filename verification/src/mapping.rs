//! The keyed collection inside a mapping value.

use crate::tree::Tree;
use crate::value::Value;
use hashlink::LinkedHashMap;
use vstd::prelude::*;

verus! {

/// A mapping from text keys to values, with unique keys. It is stored in a
/// `hashlink::LinkedHashMap`, which the verifier does not look into: what it
/// holds is known only through [`mapping_entries`].
#[derive(Debug)]
#[verifier::external_body]
pub struct Mapping {
    inner: LinkedHashMap<String, Value>,
}

/// The entries of a mapping: each key with the tree of the value stored
/// under it.
pub uninterp spec fn mapping_entries(m: Mapping) -> Map<Seq<char>, Tree>;

impl View for Mapping {
    type V = Map<Seq<char>, Tree>;

    open spec fn view(&self) -> Map<Seq<char>, Tree> {
        mapping_entries(*self)
    }
}

/// `LinkedHashMap::new`: the map it returns has no entries.
#[verifier::external_body]
fn linked_new() -> (m: Mapping)
    ensures
        mapping_entries(m) == empty_entries(),
{
    Mapping { inner: LinkedHashMap::new() }
}

/// `LinkedHashMap::len`: the number of entries, which is finite.
#[verifier::external_body]
fn linked_len(m: &Mapping) -> (n: usize)
    ensures
        has_size(mapping_entries(*m), n as nat),
{
    m.inner.len()
}

/// `LinkedHashMap::get`: a reference to the value stored under `key`, or
/// `None` where the map has no such key.
#[verifier::external_body]
fn linked_get<'a>(m: &'a Mapping, key: &str) -> (found: Option<&'a Value>)
    ensures
        match found {
            Some(v) => mapping_entries(*m).contains_key(key@) && mapping_entries(*m)[key@] == v@,
            None => !mapping_entries(*m).contains_key(key@),
        },
{
    m.inner.get(key)
}

/// `LinkedHashMap::insert`: afterwards `key` holds `value`, replacing what it
/// held before, and every other key holds what it held. The value that was
/// replaced is dropped.
#[verifier::external_body]
fn linked_insert(m: &mut Mapping, key: String, value: Value)
    ensures
        mapping_entries(*final(m)) == mapping_entries(*old(m)).insert(key@, value@),
{
    m.inner.insert(key, value);
}

/// `LinkedHashMap::iter`, collected: every entry of the map once, as a key
/// and the value under it. The order is that of the map's list and is left
/// open here.
#[verifier::external_body]
fn linked_entries<'a>(m: &'a Mapping) -> (items: Vec<(&'a String, &'a Value)>)
    ensures
        is_listing(items@, mapping_entries(*m)),
{
    m.inner.iter().collect()
}

/// The map without entries.
pub open spec fn empty_entries() -> Map<Seq<char>, Tree> {
    Map::empty()
}

/// `m` has exactly `n` entries.
pub open spec fn has_size(m: Map<Seq<char>, Tree>, n: nat) -> bool {
    m.dom().finite() && m.dom().len() == n
}

/// `items` lists the entries of `m`: each entry once, and nothing else.
pub open spec fn is_listing(items: Seq<(&String, &Value)>, m: Map<Seq<char>, Tree>) -> bool {
    &&& m.dom().finite()
    &&& items.len() == m.dom().len()
    &&& forall|i: int|
        0 <= i < items.len() ==> m.contains_key(#[trigger] items[i].0@) && m[items[i].0@]
            == items[i].1@
    &&& forall|i: int, j: int|
        0 <= i < j < items.len() ==> #[trigger] items[i].0@ != #[trigger] items[j].0@
    &&& forall|k: Seq<char>|
        m.contains_key(k) ==> exists|i: int| 0 <= i < items.len() && #[trigger] items[i].0@ == k
}

impl Mapping {
    /// A mapping without entries.
    pub fn new() -> (m: Mapping)
        ensures
            m@ == empty_entries(),
    {
        linked_new()
    }

    /// The number of entries.
    pub fn len(&self) -> (n: usize)
        ensures
            self@.dom().finite(),
            n == self@.dom().len(),
    {
        linked_len(self)
    }

    /// The value under `key`, if the mapping has that key.
    pub fn get<'a>(&'a self, key: &str) -> (found: Option<&'a Value>)
        ensures
            match found {
                Some(v) => self@.contains_key(key@) && self@[key@] == v@,
                None => !self@.contains_key(key@),
            },
    {
        linked_get(self, key)
    }

    /// Stores `value` under `key`, in place of what the key held before.
    pub fn insert(&mut self, key: String, value: Value)
        ensures
            final(self)@ == old(self)@.insert(key@, value@),
    {
        linked_insert(self, key, value)
    }

    /// The entries, each once.
    pub fn entries<'a>(&'a self) -> (items: Vec<(&'a String, &'a Value)>)
        ensures
            is_listing(items@, self@),
    {
        linked_entries(self)
    }
}

impl Clone for Mapping {
    /// A mapping of its own with the same entries.
    fn clone(&self) -> (copy: Mapping)
        ensures
            copy@ == self@,
        decreases self@,
    {
        let items = self.entries();
        let mut copy = Mapping::new();
        let mut i: usize = 0;
        while i < items.len()
            invariant
                i <= items.len(),
                is_listing(items@, self@),
                forall|k: Seq<char>|
                    copy@.contains_key(k) <==> exists|j: int|
                        0 <= j < i && #[trigger] items@[j].0@ == k,
                forall|k: Seq<char>| copy@.contains_key(k) ==> copy@[k] == self@[k],
            decreases items.len() - i,
        {
            let (key, value) = items[i];
            assert(decreases_to!(self@ => self@[key@]));
            copy.insert(key.clone(), value.clone());
            i += 1;
        }
        assert(copy@ =~= self@);
        copy
    }
}

} // verus!
