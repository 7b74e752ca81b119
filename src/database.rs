//! The key-value store the tree keeps its state in.
use vstd::hash_map::HashMapWithView;
use vstd::prelude::*;

use crate::{DBKey, Value};

verus! {

/// A key-value store from fixed-width keys to byte strings.
pub trait Database: Sized {
    /// Everything the store holds.
    spec fn contents(&self) -> Map<DBKey, Seq<u8>>;

    /// The value stored under `key`, if any.
    fn get(&self, key: DBKey) -> (r: Option<Value>)
        ensures
            match r {
                Some(v) => self.contents().contains_key(key) && v@ == self.contents()[key],
                None => !self.contents().contains_key(key),
            },
    ;

    /// Stores `value` under `key`, replacing what was there.
    fn put(&mut self, key: DBKey, value: Value)
        ensures
            final(self).contents() == old(self).contents().insert(key, value@),
    ;

    /// Whether the store holds nothing, i.e. no earlier state to resume.
    fn is_empty(&self) -> (r: bool)
        ensures
            r == (self.contents() == Map::<DBKey, Seq<u8>>::empty()),
    ;
}

/// A store held in memory.
pub struct MemoryDb {
    map: HashMapWithView<u64, Vec<u8>>,
}

impl MemoryDb {
    /// An empty store.
    pub fn new() -> (r: MemoryDb)
        ensures
            r.contents() == Map::<DBKey, Seq<u8>>::empty(),
    {
        broadcast use vstd::std_specs::hash::group_hash_axioms;

        let r = MemoryDb { map: HashMapWithView::new() };
        assert(r.contents() =~= Map::<DBKey, Seq<u8>>::empty());
        r
    }
}

impl Database for MemoryDb {
    closed spec fn contents(&self) -> Map<DBKey, Seq<u8>> {
        Map::new(|k: DBKey| self.map@.contains_key(k), |k: DBKey| self.map@[k]@)
    }

    fn get(&self, key: DBKey) -> (r: Option<Value>) {
        match self.map.get(&key) {
            Some(v) => {
                let c = v.clone();
                assert(c@ =~= v@);
                Some(c)
            },
            None => None,
        }
    }

    fn put(&mut self, key: DBKey, value: Value) {
        self.map.insert(key, value);
        assert(self.contents() =~= old(self).contents().insert(key, value@));
    }

    fn is_empty(&self) -> (r: bool) {
        let r = self.map.is_empty();
        if !r {
            proof {
                let k = choose|k: DBKey| self.map@.contains_key(k);
                assert(self.contents().contains_key(k));
            }
        } else {
            assert(self.contents() =~= Map::<DBKey, Seq<u8>>::empty());
        }
        r
    }
}

} // verus!
