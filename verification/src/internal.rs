use vstd::prelude::*;

verus! {

/// The capability contract a key/value store must satisfy to serve as one
/// side of a bidirectional map: construction, size, membership test, point
/// lookup, insert, and remove-returning-owned-entry.
///
/// A store's observable content is the mathematical map `contents()`.
/// `obeys_model()` says that the key type satisfies the conditions under
/// which the behaviour of the backing structure is known (a well-behaved
/// total order for a comparison-based store, a well-behaved hash for a
/// hash-based store).
pub trait KvStore<K, V>: Sized {
    /// The mathematical content of the store: the map from each stored key
    /// to its associated value.
    spec fn contents(&self) -> Map<K, V>;

    /// Whether the key type (and, where relevant, the hash strategy) is one
    /// whose behaviour the contracts below describe.
    spec fn obeys_model() -> bool;

    /// Construct an empty store.
    fn new() -> (s: Self)
        requires
            Self::obeys_model(),
        ensures
            s.contents() == Map::<K, V>::empty(),
    ;

    /// The current entry count.
    fn len(&self) -> (n: usize)
        requires
            Self::obeys_model(),
        ensures
            n == self.contents().dom().len(),
    ;

    /// Membership test.
    fn contains_key(&self, key: &K) -> (b: bool)
        requires
            Self::obeys_model(),
        ensures
            b == self.contents().dom().contains(*key),
    ;

    /// Point lookup: the stored value if the key is present, else absent.
    fn get(&self, key: &K) -> (r: Option<&V>)
        requires
            Self::obeys_model(),
        ensures
            match r {
                Some(v) => self.contents().dom().contains(*key) && *v == self.contents()[*key],
                None => !self.contents().dom().contains(*key),
            },
    ;

    /// Insert, taking ownership of the key; if the key already exists the
    /// result is equivalent to replace.
    fn insert(&mut self, key: K, value: V)
        requires
            Self::obeys_model(),
        ensures
            final(self).contents() == old(self).contents().insert(key, value),
    ;

    /// Remove and return ownership of the key plus the stored value, or
    /// absent if the key is not present.
    fn remove_entry(&mut self, key: &K) -> (r: Option<(K, V)>)
        requires
            Self::obeys_model(),
        ensures
            match r {
                Some(kv) => {
                    &&& old(self).contents().dom().contains(*key)
                    &&& kv.0 == *key
                    &&& kv.1 == old(self).contents()[*key]
                    &&& final(self).contents() == old(self).contents().remove(*key)
                },
                None => {
                    &&& !old(self).contents().dom().contains(*key)
                    &&& final(self).contents() == old(self).contents()
                },
            },
    ;
}

} // verus!
