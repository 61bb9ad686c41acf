use crate::internal::KvStore;
use crate::MapKind;
use std::collections::hash_map::RandomState;
use std::collections::HashMap;
use std::hash::{BuildHasher, Hash};
use std::marker::PhantomData;
use vstd::prelude::*;
use vstd::std_specs::hash::{builds_valid_hashers, obeys_key_model};

verus! {

/// Whether a map is the empty map, under a name that lets a contract say so
/// without naming the map's two type arguments.
pub open spec fn is_empty_map<K, V>(m: Map<K, V>) -> bool {
    m == Map::<K, V>::empty()
}

/// The hash-based store kind: keys must support equality and hashing, and
/// the hash strategy is pluggable, defaulting to a randomized strategy.
pub struct Unordered<S = RandomState> {
    marker: PhantomData<S>,
}

impl<K: Eq + Hash + Copy, V, S: BuildHasher + Default> MapKind<K, V> for Unordered<S> {
    type Store = UnorderedMap<K, V, S>;
}

/// A backing store implemented by a hash table.
#[verifier::reject_recursive_types(S)]
pub struct UnorderedMap<K, V, S = RandomState> {
    inner: HashMap<K, V, S>,
}

impl<K: Eq + Hash + Copy, V> UnorderedMap<K, V> {
    /// An empty store preallocated for at least `capacity` entries.
    pub fn with_capacity(capacity: usize) -> (s: Self)
        ensures
            s.contents() == Map::<K, V>::empty(),
    {
        UnorderedMap { inner: HashMap::with_capacity(capacity) }
    }
}

impl<K: Eq + Hash + Copy, V, S: BuildHasher + Default> UnorderedMap<K, V, S> {
    /// An empty store preallocated for at least `capacity` entries, using
    /// the given hash strategy.
    ///
    /// Relies on std's `HashMap::with_capacity_and_hasher`, which creates an
    /// empty map (its capacity is a preallocation hint only); vstd specifies
    /// `with_capacity` the same way but gives this constructor no contract.
    #[verifier::external_body]
    pub fn with_capacity_and_hasher(capacity: usize, hasher_builder: S) -> (s: Self)
        ensures
            is_empty_map(s.contents()),
    {
        UnorderedMap { inner: HashMap::with_capacity_and_hasher(capacity, hasher_builder) }
    }
}

impl<K: Eq + Hash + Copy, V, S: BuildHasher + Default> KvStore<K, V> for UnorderedMap<K, V, S> {
    closed spec fn contents(&self) -> Map<K, V> {
        self.inner@
    }

    open spec fn obeys_model() -> bool {
        obeys_key_model::<K>() && builds_valid_hashers::<S>()
    }

    fn new() -> (s: Self) {
        UnorderedMap { inner: HashMap::default() }
    }

    fn len(&self) -> (n: usize) {
        self.inner.len()
    }

    fn contains_key(&self, key: &K) -> (b: bool) {
        self.inner.contains_key(key)
    }

    fn get(&self, key: &K) -> (r: Option<&V>) {
        self.inner.get(key)
    }

    fn insert(&mut self, key: K, value: V) {
        self.inner.insert(key, value);
    }

    fn remove_entry(&mut self, key: &K) -> (r: Option<(K, V)>) {
        match self.inner.remove(key) {
            Some(v) => Some((*key, v)),
            None => None,
        }
    }
}

} // verus!
