//! The key/value store that entries are loaded into, and that placeholder
//! expansion reads as its base.
use std::collections::BTreeMap;
use vstd::prelude::*;

verus! {

/// What a map of strings holds, as characters. `String`'s order and equality
/// go by its characters, so two keys with the same characters are one key.
pub uninterp spec fn store_view(m: BTreeMap<String, String>) -> Map<Seq<char>, Seq<char>>;

/// The store that holds nothing.
pub open spec fn empty_store() -> Map<Seq<char>, Seq<char>> {
    Map::empty()
}

/// Relies on `BTreeMap::new`: a new map is empty.
#[verifier::external_body]
fn new_store() -> (r: BTreeMap<String, String>)
    ensures
        store_view(r) == empty_store(),
{
    BTreeMap::new()
}

/// Relies on `BTreeMap::contains_key`: whether a value is stored under `key`.
#[verifier::external_body]
fn store_contains(m: &BTreeMap<String, String>, key: &str) -> (r: bool)
    ensures
        r == store_view(*m).contains_key(key@),
{
    m.contains_key(key)
}

/// Relies on `BTreeMap::get`: the value stored under `key`, if any (cloned).
#[verifier::external_body]
fn store_get(m: &BTreeMap<String, String>, key: &str) -> (r: Option<String>)
    ensures
        match r {
            Some(v) => store_view(*m).contains_key(key@) && v@ == store_view(*m)[key@],
            None => !store_view(*m).contains_key(key@),
        },
{
    m.get(key).cloned()
}

/// Relies on `BTreeMap::insert`: afterwards `key` maps to `value`, and every
/// other key keeps its value.
#[verifier::external_body]
fn store_insert(m: &mut BTreeMap<String, String>, key: String, value: String)
    ensures
        store_view(*final(m)) == store_view(*old(m)).insert(key@, value@),
{
    m.insert(key, value);
}

/// Destination for loaded environment variables: an in-memory map.
#[derive(Debug, PartialEq, Eq)]
pub struct TargetEnv {
    map: BTreeMap<String, String>,
}

impl View for TargetEnv {
    type V = Map<Seq<char>, Seq<char>>;

    closed spec fn view(&self) -> Map<Seq<char>, Seq<char>> {
        store_view(self.map)
    }
}

impl Default for TargetEnv {
    fn default() -> (r: Self)
        ensures
            r@ == empty_store(),
    {
        Self::memory()
    }
}

impl TargetEnv {
    /// Create an in-memory environment target.
    pub fn memory() -> (r: Self)
        ensures
            r@ == empty_store(),
    {
        Self::from_memory(new_store())
    }

    /// Create an in-memory environment target from an existing map.
    pub fn from_memory(map: BTreeMap<String, String>) -> (r: Self)
        ensures
            r@ == store_view(map),
    {
        TargetEnv { map }
    }

    /// The map that holds the variables.
    pub fn as_memory(&self) -> (r: Option<&BTreeMap<String, String>>)
        ensures
            r matches Some(m) && store_view(*m) == self@,
    {
        Some(&self.map)
    }

    /// The map that holds the variables, for changing them in place.
    pub fn as_memory_mut(&mut self) -> (r: Option<&mut BTreeMap<String, String>>)
        ensures
            r matches Some(m) && store_view(*m) == old(self)@,
            r matches Some(m) && store_view(*final(m)) == final(self)@,
    {
        Some(&mut self.map)
    }

    pub fn contains_key(&self, key: &str) -> (r: bool)
        ensures
            r == self@.contains_key(key@),
    {
        store_contains(&self.map, key)
    }

    pub fn get_var(&self, key: &str) -> (r: Option<String>)
        ensures
            match r {
                Some(v) => self@.contains_key(key@) && v@ == self@[key@],
                None => !self@.contains_key(key@),
            },
    {
        store_get(&self.map, key)
    }

    pub fn set_var(&mut self, key: &str, value: &str)
        ensures
            final(self)@ == old(self)@.insert(key@, value@),
    {
        store_insert(&mut self.map, key.to_owned(), value.to_owned());
    }
}

} // verus!
