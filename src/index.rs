use vstd::hash_map::StringHashMap;
use vstd::prelude::*;

verus! {

/// A map from text keys to 64-bit numbers: positions in a log, or counts of writes.
pub struct Index {
    tbl: StringHashMap<u64>,
}

impl View for Index {
    type V = Map<Seq<char>, u64>;

    closed spec fn view(&self) -> Map<Seq<char>, u64> {
        self.tbl@
    }
}

/// What a map holds for a key, as an `Option`.
pub open spec fn lookup(m: Map<Seq<char>, u64>, k: Seq<char>) -> Option<u64> {
    if m.contains_key(k) {
        Some(m[k])
    } else {
        None
    }
}

impl Index {
    /// An empty index.
    pub fn new() -> (r: Index)
        ensures
            r@ == Map::<Seq<char>, u64>::empty(),
    {
        Index { tbl: StringHashMap::new() }
    }

    /// Maps `key` to `value`, and returns what `key` mapped to before.
    pub fn set(&mut self, key: String, value: u64) -> (r: Option<u64>)
        ensures
            r == lookup(old(self)@, key@),
            final(self)@ == old(self)@.insert(key@, value),
    {
        let prev = self.get(key.as_str());
        self.tbl.insert(key, value);
        prev
    }

    /// What `key` maps to.
    pub fn get(&self, key: &str) -> (r: Option<u64>)
        ensures
            r == lookup(self@, key@),
    {
        match self.tbl.get(key) {
            Some(v) => Some(*v),
            None => None,
        }
    }

    /// Removes `key`, and returns what it mapped to.
    pub fn remove(&mut self, key: &str) -> (r: Option<u64>)
        ensures
            r == lookup(old(self)@, key@),
            final(self)@ == old(self)@.remove(key@),
    {
        let prev = self.get(key);
        self.tbl.remove(key);
        prev
    }

    /// Whether `key` is present.
    pub fn contains(&self, key: &str) -> (r: bool)
        ensures
            r == self@.contains_key(key@),
    {
        self.tbl.contains_key(key)
    }
}

} // verus!
