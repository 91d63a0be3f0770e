//! A set of keys that hands its members out in increasing order.
use crate::order::Key;
use crate::order;
use crate::seqs;
use crate::sorted_map::SortedMap;
use vstd::prelude::*;

verus! {

/// A set of keys, with its members in increasing order.
#[verifier::reject_recursive_types(K)]
#[derive(Debug)]
pub struct SortedSet<K: Key> {
    members: SortedMap<K, ()>,
}

impl<K: Key> View for SortedSet<K> {
    type V = Set<K>;

    closed spec fn view(&self) -> Set<K> {
        self.members@.dom()
    }
}

impl<K: Key> SortedSet<K> {
    /// The empty set.
    pub fn new() -> (s: Self)
        ensures
            s@ == Set::<K>::empty(),
    {
        SortedSet { members: SortedMap::new() }
    }

    pub fn contains(&self, k: &K) -> (r: bool)
        ensures
            r == self@.contains(*k),
    {
        self.members.contains_key(k)
    }

    /// Puts `k` in.
    pub fn insert(&mut self, k: K)
        ensures
            final(self)@ == old(self)@.insert(k),
    {
        self.members.insert(k, ());
    }

    /// The number of members.
    pub fn len(&self) -> (n: usize)
        ensures
            self@.finite(),
            n == self@.len(),
    {
        self.members.len()
    }

    /// The members in increasing order.
    pub fn to_vec(&self) -> (r: Vec<K>)
        ensures
            r@ == order::in_order(self@),
            order::lists(r@, self@),
            self@.finite(),
            r@.len() == self@.len(),
            forall|k: K| #[trigger] r@.contains(k) <==> self@.contains(k),
            forall|i: int, j: int|
                0 <= i < j < r@.len() ==> (#[trigger] r@[i]).before(#[trigger] r@[j]),
    {
        self.members.keys()
    }

    /// The keys listed in `keys`.
    pub fn from_keys(keys: &Vec<K>) -> (s: Self)
        ensures
            s@ == keys@.to_set(),
    {
        let mut s: SortedSet<K> = SortedSet::new();
        let mut n: usize = 0;
        while n < keys.len()
            invariant
                n <= keys@.len(),
                s@ =~= keys@.take(n as int).to_set(),
            decreases keys@.len() - n,
        {
            s.insert(keys[n]);
            proof {
                let before = keys@.take(n as int);
                let after = keys@.take(n + 1);
                assert(after =~= before.push(keys@[n as int]));
                seqs::lemma_push_contains(before, keys@[n as int]);
                assert(after.to_set() =~= before.to_set().insert(keys@[n as int]));
            }
            n += 1;
        }
        assert(keys@.take(n as int) =~= keys@);
        s
    }

    /// The members that `other` does not have.
    pub fn difference(&self, other: &Self) -> (r: Self)
        ensures
            r@ == self@.difference(other@),
    {
        let all: Vec<K> = self.to_vec();
        let mut r: SortedSet<K> = SortedSet::new();
        let mut n: usize = 0;
        while n < all.len()
            invariant
                n <= all@.len(),
                order::lists(all@, self@),
                r@ =~= all@.take(n as int).to_set().difference(other@),
            decreases all@.len() - n,
        {
            if !other.contains(&all[n]) {
                r.insert(all[n]);
            }
            proof {
                order::lemma_listing_step(all@, self@, n as int);
                assert(all@.take(n + 1).to_set() =~= all@.take(n as int).to_set().insert(
                    all@[n as int],
                ));
            }
            n += 1;
        }
        assert(all@.take(n as int) =~= all@);
        assert(all@.to_set() =~= self@);
        r
    }
}

impl<K: Key> Clone for SortedSet<K> {
    fn clone(&self) -> (r: Self)
        ensures
            r@ == self@,
    {
        SortedSet { members: self.members.clone() }
    }
}

} // verus!
