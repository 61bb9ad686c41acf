//! A bidirectional map: pairs (left, right) with pairwise distinct left
//! values and pairwise distinct right values, retrievable by either side.
//! Each pair is held as two mutually consistent records, one in a left-keyed
//! and one in a right-keyed backing store; the store kinds (ordered or
//! hash-based) are chosen independently per side. Every operation's effect
//! on both associations is stated in its contract and verified, as is the
//! cross-consistency invariant that ties the two stores together.

pub mod internal;
pub mod ordered;
pub mod unordered;

use crate::internal::KvStore;
use crate::ordered::Ordered;
use crate::unordered::Unordered;
use vstd::pervasive::unreached;
use vstd::prelude::*;

verus! {

/// The association `fwd` after a conflict-resolving insert of the pair
/// `(a, b)`, where `bwd` is the reverse association: any pair keyed `a`, and
/// any pair whose reverse side is `b`, is evicted, and `(a, b)` is written.
pub open spec fn map_after_insert<A, B>(fwd: Map<A, B>, bwd: Map<B, A>, a: A, b: B) -> Map<A, B> {
    let cleared = fwd.remove(a);
    let evicted = if bwd.dom().contains(b) {
        cleared.remove(bwd[b])
    } else {
        cleared
    };
    evicted.insert(a, b)
}

/// Which prior pair(s) a conflict-resolving insert of `(l, r)` evicts, given
/// the association `m0` from left to right and its reverse `w0`.
pub open spec fn overwritten_by<L, R>(m0: Map<L, R>, w0: Map<R, L>, l: L, r: R) -> Overwritten<
    L,
    R,
> {
    if m0.dom().contains(l) {
        if m0[l] == r {
            Overwritten::Pair(l, r)
        } else if w0.dom().contains(r) {
            Overwritten::Both((l, m0[l]), (w0[r], r))
        } else {
            Overwritten::Left(l, m0[l])
        }
    } else if w0.dom().contains(r) {
        Overwritten::Right(w0[r], r)
    } else {
        Overwritten::Neither
    }
}

/// The left-to-right association that a sequence of conflict-resolving
/// inserts builds up, starting from an empty container.
pub open spec fn lefts_after<L, R>(s: Seq<(L, R)>) -> Map<L, R>
    decreases s.len(),
{
    if s.len() == 0 {
        Map::empty()
    } else {
        map_after_insert(
            lefts_after(s.drop_last()),
            rights_after(s.drop_last()),
            s.last().0,
            s.last().1,
        )
    }
}

/// The right-to-left association that a sequence of conflict-resolving
/// inserts builds up, starting from an empty container.
pub open spec fn rights_after<L, R>(s: Seq<(L, R)>) -> Map<R, L>
    decreases s.len(),
{
    if s.len() == 0 {
        Map::empty()
    } else {
        map_after_insert(
            rights_after(s.drop_last()),
            lefts_after(s.drop_last()),
            s.last().1,
            s.last().0,
        )
    }
}

/// Law: a sequence of conflict-resolving inserts whose left values are
/// pairwise distinct and whose right values are pairwise distinct evicts
/// nothing: it yields exactly as many pairs as inserts were made, and each
/// side recovers exactly the inserted associations.
pub proof fn lemma_insert_sequence<L, R>(s: Seq<(L, R)>)
    requires
        forall|i: int, j: int| #![trigger s[i], s[j]] 0 <= i < j < s.len() ==> s[i].0 != s[j].0,
        forall|i: int, j: int| #![trigger s[i], s[j]] 0 <= i < j < s.len() ==> s[i].1 != s[j].1,
    ensures
        lefts_after(s).dom().finite(),
        rights_after(s).dom().finite(),
        lefts_after(s).dom().len() == s.len(),
        rights_after(s).dom().len() == s.len(),
        forall|i: int|
            #![trigger s[i]]
            0 <= i < s.len() ==> lefts_after(s).contains_pair(s[i].0, s[i].1),
        forall|i: int|
            #![trigger s[i]]
            0 <= i < s.len() ==> rights_after(s).contains_pair(s[i].1, s[i].0),
        forall|l: L| #[trigger]
            lefts_after(s).dom().contains(l) ==> exists|i: int| 0 <= i < s.len() && s[i].0 == l,
        forall|r: R| #[trigger]
            rights_after(s).dom().contains(r) ==> exists|i: int| 0 <= i < s.len() && s[i].1 == r,
    decreases s.len(),
{
    if s.len() > 0 {
        let p = s.drop_last();
        let l = s.last().0;
        let r = s.last().1;
        lemma_insert_sequence(p);
        assert(!lefts_after(p).dom().contains(l)) by {
            if lefts_after(p).dom().contains(l) {
                let i = choose|i: int| 0 <= i < p.len() && p[i].0 == l;
                assert(s[i].0 != s[s.len() - 1].0);
            }
        }
        assert(!rights_after(p).dom().contains(r)) by {
            if rights_after(p).dom().contains(r) {
                let i = choose|i: int| 0 <= i < p.len() && p[i].1 == r;
                assert(s[i].1 != s[s.len() - 1].1);
            }
        }
        assert(lefts_after(s) =~= lefts_after(p).insert(l, r));
        assert(rights_after(s) =~= rights_after(p).insert(r, l));
        assert(lefts_after(s).dom() =~= lefts_after(p).dom().insert(l));
        assert(rights_after(s).dom() =~= rights_after(p).dom().insert(r));
        assert forall|i: int| #![trigger s[i]] 0 <= i < s.len() implies lefts_after(
            s,
        ).contains_pair(s[i].0, s[i].1) && rights_after(s).contains_pair(s[i].1, s[i].0) by {
            if i < s.len() - 1 {
                assert(p[i] == s[i]);
                assert(s[i].0 != l);
                assert(s[i].1 != r);
            }
        }
    }
}

/// Selects a concrete backing-store implementation for a given key and
/// value type; a bidirectional map is built from two such kinds, one for
/// each direction.
pub trait MapKind<K, V> {
    type Store: KvStore<K, V>;
}

/// Which prior pair(s), if any, were evicted by an insert.
#[derive(Debug, PartialEq, Eq)]
pub enum Overwritten<L, R> {
    /// No prior pair shared the new pair's left or right value.
    Neither,
    /// A prior pair shared only the new pair's left value.
    Left(L, R),
    /// A prior pair shared only the new pair's right value.
    Right(L, R),
    /// The inserted pair itself was already present.
    Pair(L, R),
    /// Two distinct prior pairs shared the new left and the new right value.
    Both((L, R), (L, R)),
}

/// A bidirectional map with ordered backing stores on both sides.
pub type BiBTreeMap<L, R> = BiMap<L, R, Ordered, Ordered>;

/// A bidirectional map with hash-based backing stores on both sides.
pub type BiHashMap<L, R> = BiMap<L, R, Unordered, Unordered>;

/// A bidirectional map: a container of (left, right) pairs with pairwise
/// distinct left values and pairwise distinct right values, composed of one
/// left-keyed and one right-keyed backing store that are kept mutually
/// consistent.
pub struct BiMap<L, R, LK = Unordered, RK = Unordered> where
    LK: MapKind<L, R>,
    RK: MapKind<R, L>,
 {
    left_map: LK::Store,
    right_map: RK::Store,
}

impl<L, R, LK, RK> BiMap<L, R, LK, RK> where
    L: Copy,
    R: Copy,
    LK: MapKind<L, R>,
    RK: MapKind<R, L>,
 {
    /// The association from each left value to its paired right value.
    pub closed spec fn lefts(&self) -> Map<L, R> {
        self.left_map.contents()
    }

    /// The association from each right value to its paired left value.
    pub closed spec fn rights(&self) -> Map<R, L> {
        self.right_map.contents()
    }

    /// Whether the two chosen backing-store kinds model the key types: a
    /// well-behaved total order for an ordered side, a well-behaved hash for
    /// a hash-based side.
    pub open spec fn kinds_obey() -> bool {
        &&& <LK::Store as KvStore<L, R>>::obeys_model()
        &&& <RK::Store as KvStore<R, L>>::obeys_model()
    }

    /// The cross-consistency invariant: every pair held by one store is held,
    /// with its sides swapped, by the other.
    pub closed spec fn wf(&self) -> bool {
        &&& Self::kinds_obey()
        &&& self.lefts().dom().finite()
        &&& self.rights().dom().finite()
        &&& forall|l: L| #[trigger]
            self.lefts().dom().contains(l) ==> self.rights().dom().contains(self.lefts()[l])
                && self.rights()[self.lefts()[l]] == l
        &&& forall|r: R| #[trigger]
            self.rights().dom().contains(r) ==> self.lefts().dom().contains(self.rights()[r])
                && self.lefts()[self.rights()[r]] == r
    }

    /// A container with both backing stores empty.
    pub fn new() -> (s: Self)
        requires
            Self::kinds_obey(),
        ensures
            s.wf(),
            s.lefts() == Map::<L, R>::empty(),
            s.rights() == Map::<R, L>::empty(),
    {
        BiMap {
            left_map: <LK::Store as KvStore<L, R>>::new(),
            right_map: <RK::Store as KvStore<R, L>>::new(),
        }
    }

    /// Each pair held on the left side is held on the right side and vice
    /// versa, so the two stores always have the same cardinality.
    pub proof fn lemma_cardinality_symmetry(&self)
        requires
            self.wf(),
        ensures
            self.lefts().dom().len() == self.rights().dom().len(),
    {
        assert forall|r: R| self.rights().dom().contains(r) implies self.lefts().values().contains(
            r,
        ) by {
            let l = self.rights()[r];
            assert(self.lefts().contains_pair(l, r));
        }
        assert forall|r: R| self.lefts().values().contains(r) implies self.rights().dom().contains(
            r,
        ) by {
            let l = choose|l: L| #[trigger] self.lefts().dom().contains(l) && self.lefts()[l] == r;
            assert(self.lefts().dom().contains(l));
        }
        assert(self.rights().dom() =~= self.lefts().values());
        self.lefts().lemma_injective_values_len();
    }

    /// The common cardinality of the two backing stores.
    pub fn len(&self) -> (n: usize)
        requires
            self.wf(),
        ensures
            n == self.lefts().dom().len(),
            n == self.rights().dom().len(),
    {
        proof {
            self.lemma_cardinality_symmetry();
        }
        self.left_map.len()
    }

    /// Whether some pair has `left` as its left value.
    pub fn contains_left(&self, left: &L) -> (b: bool)
        requires
            self.wf(),
        ensures
            b == self.lefts().dom().contains(*left),
    {
        self.left_map.contains_key(left)
    }

    /// Whether some pair has `right` as its right value.
    pub fn contains_right(&self, right: &R) -> (b: bool)
        requires
            self.wf(),
        ensures
            b == self.rights().dom().contains(*right),
    {
        self.right_map.contains_key(right)
    }

    /// Whether `left` occurs on the left side and `right` occurs on the
    /// right side; the two memberships are independent, so this does not say
    /// that `left` and `right` are paired with each other.
    pub fn contains_pair(&self, left: &L, right: &R) -> (b: bool)
        requires
            self.wf(),
        ensures
            b == (self.lefts().dom().contains(*left) && self.rights().dom().contains(*right)),
    {
        self.contains_left(left) && self.contains_right(right)
    }

    /// The right value paired with `left`, if any.
    pub fn get_by_left(&self, left: &L) -> (r: Option<&R>)
        requires
            self.wf(),
        ensures
            match r {
                Some(v) => self.lefts().dom().contains(*left) && *v == self.lefts()[*left],
                None => !self.lefts().dom().contains(*left),
            },
    {
        self.left_map.get(left)
    }

    /// The left value paired with `right`, if any.
    pub fn get_by_right(&self, right: &R) -> (r: Option<&L>)
        requires
            self.wf(),
        ensures
            match r {
                Some(v) => self.rights().dom().contains(*right) && *v == self.rights()[*right],
                None => !self.rights().dom().contains(*right),
            },
    {
        self.right_map.get(right)
    }

    /// Remove the pair whose left value is `left`, if any, and return its
    /// two sides; the paired right value becomes absent from the right side
    /// in the same operation.
    pub fn remove_by_left(&mut self, left: &L) -> (r: Option<(L, R)>)
        requires
            old(self).wf(),
        ensures
            final(self).wf(),
            match r {
                Some(pair) => {
                    &&& old(self).lefts().dom().contains(*left)
                    &&& pair == (*left, old(self).lefts()[*left])
                    &&& final(self).lefts() == old(self).lefts().remove(*left)
                    &&& final(self).rights() == old(self).rights().remove(
                        old(self).lefts()[*left],
                    )
                },
                None => {
                    &&& !old(self).lefts().dom().contains(*left)
                    &&& final(self).lefts() == old(self).lefts()
                    &&& final(self).rights() == old(self).rights()
                },
            },
    {
        match self.left_map.remove_entry(left) {
            None => None,
            Some((left_key, right_val)) => {
                // The cross-reference must resolve: its absence would be a
                // broken invariant, which the invariant itself rules out.
                match self.right_map.remove_entry(&right_val) {
                    Some((right_key, _back_ref)) => Some((left_key, right_key)),
                    None => unreached(),
                }
            },
        }
    }

    /// Remove the pair whose right value is `right`, if any; the mirror
    /// image of `remove_by_left`.
    pub fn remove_by_right(&mut self, right: &R) -> (r: Option<(L, R)>)
        requires
            old(self).wf(),
        ensures
            final(self).wf(),
            match r {
                Some(pair) => {
                    &&& old(self).rights().dom().contains(*right)
                    &&& pair == (old(self).rights()[*right], *right)
                    &&& final(self).rights() == old(self).rights().remove(*right)
                    &&& final(self).lefts() == old(self).lefts().remove(
                        old(self).rights()[*right],
                    )
                },
                None => {
                    &&& !old(self).rights().dom().contains(*right)
                    &&& final(self).lefts() == old(self).lefts()
                    &&& final(self).rights() == old(self).rights()
                },
            },
    {
        match self.right_map.remove_entry(right) {
            None => None,
            Some((right_key, left_val)) => {
                match self.left_map.remove_entry(&left_val) {
                    Some((left_key, _back_ref)) => Some((left_key, right_key)),
                    None => unreached(),
                }
            },
        }
    }

    /// Create the two cross-linked records for `(left, right)` without
    /// checking for conflicts; the caller must have established that neither
    /// side is already present, or the distinctness invariant would break.
    pub fn insert_unchecked(&mut self, left: L, right: R)
        requires
            old(self).wf(),
            !old(self).lefts().dom().contains(left),
            !old(self).rights().dom().contains(right),
        ensures
            final(self).wf(),
            final(self).lefts() == old(self).lefts().insert(left, right),
            final(self).rights() == old(self).rights().insert(right, left),
    {
        self.left_map.insert(left, right);
        self.right_map.insert(right, left);
    }

    /// The general, conflict-resolving insert: evict any pair keyed `left`
    /// and any pair keyed `right` (left removal first), report what was
    /// evicted, then write `(left, right)`.
    pub fn insert(&mut self, left: L, right: R) -> (o: Overwritten<L, R>)
        requires
            old(self).wf(),
        ensures
            final(self).wf(),
            o == overwritten_by(old(self).lefts(), old(self).rights(), left, right),
            final(self).lefts() == map_after_insert(
                old(self).lefts(),
                old(self).rights(),
                left,
                right,
            ),
            final(self).rights() == map_after_insert(
                old(self).rights(),
                old(self).lefts(),
                right,
                left,
            ),
    {
        let had_right = self.contains_right(&right);
        let from_left = self.remove_by_left(&left);
        let from_right = self.remove_by_right(&right);
        let overwritten = match (from_left, from_right) {
            (None, None) => Overwritten::Neither,
            (None, Some((l, r))) => Overwritten::Right(l, r),
            (Some((l, r)), None) => {
                // the first removal may already have taken the pair keyed by
                // the new right value, exactly when that value was present
                if had_right {
                    Overwritten::Pair(l, r)
                } else {
                    Overwritten::Left(l, r)
                }
            },
            (Some(left_pair), Some(right_pair)) => Overwritten::Both(left_pair, right_pair),
        };
        self.insert_unchecked(left, right);
        proof {
            assert(self.lefts() =~= map_after_insert(
                old(self).lefts(),
                old(self).rights(),
                left,
                right,
            ));
            assert(self.rights() =~= map_after_insert(
                old(self).rights(),
                old(self).lefts(),
                right,
                left,
            ));
        }
        overwritten
    }

    /// Insert `(left, right)` only if neither side is already present; on a
    /// collision the container is unchanged and the rejected pair is handed
    /// back.
    pub fn try_insert(&mut self, left: L, right: R) -> (r: Result<(), (L, R)>)
        requires
            old(self).wf(),
        ensures
            final(self).wf(),
            old(self).lefts().dom().contains(left) || old(self).rights().dom().contains(right)
                ==> {
                &&& r == Err::<(), (L, R)>((left, right))
                &&& final(self).lefts() == old(self).lefts()
                &&& final(self).rights() == old(self).rights()
            },
            !(old(self).lefts().dom().contains(left) || old(self).rights().dom().contains(right))
                ==> {
                &&& r == Ok::<(), (L, R)>(())
                &&& final(self).lefts() == old(self).lefts().insert(left, right)
                &&& final(self).rights() == old(self).rights().insert(right, left)
            },
    {
        if self.contains_left(&left) || self.contains_right(&right) {
            Err((left, right))
        } else {
            self.insert_unchecked(left, right);
            Ok(())
        }
    }

    /// Law: a pair is held by the left-keyed store exactly when its mirror
    /// image is held by the right-keyed store.
    pub proof fn lemma_inverse(&self, l: L, r: R)
        requires
            self.wf(),
        ensures
            (self.lefts().dom().contains(l) && self.lefts()[l] == r) <==> (
            self.rights().dom().contains(r) && self.rights()[r] == l),
    {
    }

    /// Law: inserting a pair whose two sides are both fresh evicts nothing,
    /// extends both associations by exactly that pair, and grows the
    /// cardinality by one.
    pub proof fn lemma_insert_fresh(&self, l: L, r: R)
        requires
            self.wf(),
            !self.lefts().dom().contains(l),
            !self.rights().dom().contains(r),
        ensures
            overwritten_by(self.lefts(), self.rights(), l, r) == Overwritten::<L, R>::Neither,
            map_after_insert(self.lefts(), self.rights(), l, r) == self.lefts().insert(l, r),
            map_after_insert(self.rights(), self.lefts(), r, l) == self.rights().insert(r, l),
            map_after_insert(self.lefts(), self.rights(), l, r).dom().len() == self.lefts().dom().len()
                + 1,
    {
        assert(map_after_insert(self.lefts(), self.rights(), l, r) =~= self.lefts().insert(l, r));
        assert(map_after_insert(self.rights(), self.lefts(), r, l) =~= self.rights().insert(r, l));
        assert(self.lefts().insert(l, r).dom() =~= self.lefts().dom().insert(l));
    }

    /// Law: inserting a pair whose left value already exists with a
    /// different, fresh right value evicts exactly the old pair, reported as
    /// `Left`; afterward the new pair is on both sides and the old right
    /// value is reachable from neither side.
    pub proof fn lemma_insert_left_overwrite(&self, l: L, r: R)
        requires
            self.wf(),
            self.lefts().dom().contains(l),
            self.lefts()[l] != r,
            !self.rights().dom().contains(r),
        ensures
            overwritten_by(self.lefts(), self.rights(), l, r) == Overwritten::Left(
                l,
                self.lefts()[l],
            ),
            map_after_insert(self.lefts(), self.rights(), l, r) == self.lefts().insert(l, r),
            map_after_insert(self.rights(), self.lefts(), r, l) == self.rights().remove(
                self.lefts()[l],
            ).insert(r, l),
            !map_after_insert(self.rights(), self.lefts(), r, l).dom().contains(self.lefts()[l]),
            forall|l2: L| #[trigger]
                map_after_insert(self.lefts(), self.rights(), l, r).dom().contains(l2)
                    ==> map_after_insert(self.lefts(), self.rights(), l, r)[l2]
                    != self.lefts()[l],
    {
        assert(map_after_insert(self.lefts(), self.rights(), l, r) =~= self.lefts().insert(l, r));
        assert(map_after_insert(self.rights(), self.lefts(), r, l) =~= self.rights().remove(
            self.lefts()[l],
        ).insert(r, l));
        assert forall|l2: L| #[trigger]
            self.lefts().insert(l, r).dom().contains(l2) implies self.lefts().insert(l, r)[l2]
            != self.lefts()[l] by {
            if l2 != l && self.lefts()[l2] == self.lefts()[l] {
                self.lemma_inverse(l2, self.lefts()[l2]);
                self.lemma_inverse(l, self.lefts()[l]);
            }
        }
    }

    /// Law: re-inserting a pair that is already present evicts exactly that
    /// pair, reported as `Pair`, and leaves both associations unchanged.
    pub proof fn lemma_reinsert_pair(&self, l: L, r: R)
        requires
            self.wf(),
            self.lefts().dom().contains(l),
            self.lefts()[l] == r,
        ensures
            overwritten_by(self.lefts(), self.rights(), l, r) == Overwritten::Pair(l, r),
            map_after_insert(self.lefts(), self.rights(), l, r) == self.lefts(),
            map_after_insert(self.rights(), self.lefts(), r, l) == self.rights(),
    {
        assert(map_after_insert(self.lefts(), self.rights(), l, r) =~= self.lefts());
        assert(map_after_insert(self.rights(), self.lefts(), r, l) =~= self.rights());
    }

    /// Law: inserting a pair that collides on the left with one existing
    /// pair and on the right with a different existing pair evicts both,
    /// reported as `Both`, and afterward neither evicted pair is reachable
    /// from either side.
    pub proof fn lemma_insert_both_overwrite(&self, l: L, r: R)
        requires
            self.wf(),
            self.lefts().dom().contains(l),
            self.lefts()[l] != r,
            self.rights().dom().contains(r),
        ensures
            self.rights()[r] != l,
            overwritten_by(self.lefts(), self.rights(), l, r) == Overwritten::Both(
                (l, self.lefts()[l]),
                (self.rights()[r], r),
            ),
            map_after_insert(self.lefts(), self.rights(), l, r)[l] == r,
            !map_after_insert(self.lefts(), self.rights(), l, r).dom().contains(self.rights()[r]),
            map_after_insert(self.rights(), self.lefts(), r, l)[r] == l,
            !map_after_insert(self.rights(), self.lefts(), r, l).dom().contains(self.lefts()[l]),
    {
        self.lemma_inverse(l, r);
        self.lemma_inverse(self.rights()[r], r);
        self.lemma_inverse(l, self.lefts()[l]);
    }

    /// Law: removing a pair clears it from both sides; neither its left nor
    /// its right value remains a key afterward.
    pub proof fn lemma_remove_clears_both_sides(&self, l: L)
        requires
            self.wf(),
            self.lefts().dom().contains(l),
        ensures
            !self.lefts().remove(l).dom().contains(l),
            !self.rights().remove(self.lefts()[l]).dom().contains(self.lefts()[l]),
    {
    }
}

} // verus!
