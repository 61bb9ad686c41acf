use crate::internal::KvStore;
use crate::MapKind;
use std::collections::BTreeMap;
use vstd::laws_cmp::obeys_cmp;
use vstd::prelude::*;

verus! {

/// The comparison-based store kind: keys must be totally ordered.
pub struct Ordered;

impl<K: Ord + Copy, V> MapKind<K, V> for Ordered {
    type Store = OrderedMap<K, V>;
}

/// A backing store implemented by a balanced comparison tree.
pub struct OrderedMap<K, V>(BTreeMap<K, V>);

impl<K: Ord + Copy, V> KvStore<K, V> for OrderedMap<K, V> {
    closed spec fn contents(&self) -> Map<K, V> {
        self.0@
    }

    open spec fn obeys_model() -> bool {
        obeys_cmp::<K>()
    }

    fn new() -> (s: Self) {
        OrderedMap(BTreeMap::new())
    }

    fn len(&self) -> (n: usize) {
        self.0.len()
    }

    fn contains_key(&self, key: &K) -> (b: bool) {
        self.0.contains_key(key)
    }

    fn get(&self, key: &K) -> (r: Option<&V>) {
        self.0.get(key)
    }

    fn insert(&mut self, key: K, value: V) {
        self.0.insert(key, value);
    }

    fn remove_entry(&mut self, key: &K) -> (r: Option<(K, V)>) {
        match self.0.remove(key) {
            Some(v) => Some((*key, v)),
            None => None,
        }
    }
}

} // verus!
