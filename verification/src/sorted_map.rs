//! An ordered map, kept as a vector sorted by key.
use crate::order::Key;
use crate::order;
use crate::seqs;
use crate::value::Value;
use vstd::prelude::*;

verus! {

/// A map from keys to values that hands its keys out in increasing order. Its view maps each key
/// to the view of its value.
#[verifier::reject_recursive_types(K)]
#[verifier::reject_recursive_types(V)]
#[derive(Debug)]
pub struct SortedMap<K: Key, V: Value> {
    entries: Vec<(K, V)>,
}

spec fn keys_of<K: Key, V: Value>(entries: Seq<(K, V)>) -> Seq<K> {
    entries.map_values(|e: (K, V)| e.0)
}

spec fn holds_at<K: Key, V: Value>(entries: Seq<(K, V)>, i: int, k: K) -> bool {
    0 <= i < entries.len() && entries[i].0 == k
}

spec fn table<K: Key, V: Value>(entries: Seq<(K, V)>) -> Map<K, V::V> {
    Map::new(
        |k: K| exists|i: int| holds_at(entries, i, k),
        |k: K| entries[choose|i: int| holds_at(entries, i, k)].1@,
    )
}

/// In sorted entries a key stands at one place only.
proof fn lemma_entry<K: Key, V: Value>(entries: Seq<(K, V)>, i: int)
    requires
        order::is_increasing(keys_of(entries)),
        0 <= i < entries.len(),
    ensures
        table(entries).contains_key(entries[i].0),
        table(entries)[entries[i].0] == entries[i].1@,
{
    let k = entries[i].0;
    assert(holds_at(entries, i, k));
    let j = choose|j: int| holds_at(entries, j, k);
    let q = keys_of(entries);
    K::irreflexive(k);
    if i < j {
        assert(q[i].before(q[j]));
    }
    if j < i {
        assert(q[j].before(q[i]));
    }
}

proof fn lemma_keys_list<K: Key, V: Value>(entries: Seq<(K, V)>)
    requires
        order::is_increasing(keys_of(entries)),
    ensures
        order::lists(keys_of(entries), table(entries).dom()),
{
    let q = keys_of(entries);
    assert forall|k: K| #[trigger] q.contains(k) <==> table(entries).dom().contains(k) by {
        if q.contains(k) {
            let i = choose|i: int| 0 <= i < q.len() && q[i] == k;
            assert(holds_at(entries, i, k));
        }
        if table(entries).dom().contains(k) {
            let i = choose|i: int| holds_at(entries, i, k);
            assert(q[i] == k);
        }
    }
}

impl<K: Key, V: Value> View for SortedMap<K, V> {
    type V = Map<K, V::V>;

    closed spec fn view(&self) -> Map<K, V::V> {
        table(self.entries@)
    }
}

impl<K: Key, V: Value> SortedMap<K, V> {
    #[verifier::type_invariant]
    spec fn sorted(self) -> bool {
        order::is_increasing(keys_of(self.entries@))
    }

    /// The empty map.
    pub fn new() -> (m: Self)
        ensures
            m@ == Map::<K, V::V>::empty(),
    {
        let m = SortedMap { entries: Vec::new() };
        assert(m@ =~= Map::<K, V::V>::empty());
        m
    }

    /// A sorted map has finitely many keys.
    pub proof fn lemma_finite(&self)
        ensures
            self@.dom().finite(),
    {
        let q = keys_of(self.entries@);
        let places = q.to_set();
        vstd::seq_lib::seq_to_set_is_finite(q);
        assert forall|k: K| #[trigger] self@.dom().contains(k) implies places.contains(k) by {
            let i = choose|i: int| holds_at(self.entries@, i, k);
            assert(q[i] == k);
        }
        assert(self@.dom().subset_of(places));
        vstd::set_lib::lemma_len_subset(self@.dom(), places);
    }

    /// How many entries come before the place of `k`.
    fn place(&self, k: &K) -> (lo: usize)
        ensures
            lo <= self.entries@.len(),
            forall|j: int| 0 <= j < lo ==> (#[trigger] self.entries@[j]).0.before(*k),
            forall|j: int|
                lo <= j < self.entries@.len() ==> !(#[trigger] self.entries@[j]).0.before(*k),
    {
        proof {
            use_type_invariant(self);
        }
        let ghost q = keys_of(self.entries@);
        let mut lo: usize = 0;
        let mut hi: usize = self.entries.len();
        while lo < hi
            invariant
                lo <= hi <= self.entries@.len(),
                q == keys_of(self.entries@),
                order::is_increasing(q),
                forall|j: int| 0 <= j < lo ==> (#[trigger] self.entries@[j]).0.before(*k),
                forall|j: int|
                    hi <= j < self.entries@.len() ==> !(#[trigger] self.entries@[j]).0.before(*k),
            decreases hi - lo,
        {
            let mid: usize = lo + (hi - lo) / 2;
            if self.entries[mid].0.is_before(k) {
                proof {
                    assert forall|j: int| 0 <= j < mid + 1 implies (
                    #[trigger] self.entries@[j]).0.before(*k) by {
                        if j < mid {
                            assert(q[j].before(q[mid as int]));
                            K::transitive(q[j], q[mid as int], *k);
                        }
                    }
                }
                lo = mid + 1;
            } else {
                proof {
                    assert forall|j: int| mid <= j < self.entries@.len() implies !(
                    #[trigger] self.entries@[j]).0.before(*k) by {
                        if j > mid && self.entries@[j].0.before(*k) {
                            assert(q[mid as int].before(q[j]));
                            K::transitive(q[mid as int], q[j], *k);
                        }
                    }
                }
                hi = mid;
            }
        }
        lo
    }

    /// Where `k` stands among the entries, if it does.
    fn find(&self, k: &K) -> (r: Option<usize>)
        ensures
            match r {
                Some(i) => i < self.entries@.len() && self.entries@[i as int].0 == *k
                    && self@.contains_key(*k) && self@[*k] == self.entries@[i as int].1@,
                None => !self@.contains_key(*k),
            },
    {
        proof {
            use_type_invariant(self);
        }
        let i: usize = self.place(k);
        proof {
            K::irreflexive(*k);
            let q = keys_of(self.entries@);
            if self@.contains_key(*k) {
                let j = choose|j: int| holds_at(self.entries@, j, *k);
                if j > i {
                    assert(q[i as int].before(q[j]));
                }
            }
        }
        if i < self.entries.len() && self.entries[i].0.is_same(k) {
            proof {
                lemma_entry(self.entries@, i as int);
            }
            Some(i)
        } else {
            None
        }
    }

    pub fn contains_key(&self, k: &K) -> (r: bool)
        ensures
            r == self@.contains_key(*k),
    {
        self.find(k).is_some()
    }

    pub fn get(&self, k: &K) -> (r: Option<&V>)
        ensures
            match r {
                Some(v) => self@.contains_key(*k) && v@ == self@[*k],
                None => !self@.contains_key(*k),
            },
    {
        match self.find(k) {
            Some(i) => Some(&self.entries[i].1),
            None => None,
        }
    }

    /// The number of keys.
    pub fn len(&self) -> (n: usize)
        ensures
            self@.dom().finite(),
            n == self@.dom().len(),
    {
        proof {
            use_type_invariant(self);
            lemma_keys_list(self.entries@);
            order::lemma_listing_len(keys_of(self.entries@), self@.dom());
        }
        self.entries.len()
    }

    /// The keys in increasing order.
    pub fn keys(&self) -> (r: Vec<K>)
        ensures
            r@ == order::in_order(self@.dom()),
            order::lists(r@, self@.dom()),
            self@.dom().finite(),
            r@.len() == self@.dom().len(),
            forall|k: K| #[trigger] r@.contains(k) <==> self@.contains_key(k),
            forall|i: int, j: int|
                0 <= i < j < r@.len() ==> (#[trigger] r@[i]).before(#[trigger] r@[j]),
    {
        proof {
            use_type_invariant(self);
        }
        let mut r: Vec<K> = Vec::new();
        let mut i: usize = 0;
        while i < self.entries.len()
            invariant
                i <= self.entries@.len(),
                r@ =~= keys_of(self.entries@).take(i as int),
            decreases self.entries@.len() - i,
        {
            r.push(self.entries[i].0);
            i += 1;
        }
        proof {
            assert(r@ =~= keys_of(self.entries@));
            lemma_keys_list(self.entries@);
            order::lemma_in_order(r@, self@.dom());
            order::lemma_listing_len(r@, self@.dom());
        }
        r
    }

    /// Sets the value of `k`.
    pub fn insert(&mut self, k: K, v: V)
        ensures
            final(self)@ == old(self)@.insert(k, v@),
    {
        proof {
            use_type_invariant(&*self);
        }
        let i: usize = self.place(&k);
        let found: Option<usize> = self.find(&k);
        let ghost before = self.entries@;
        let mut entries: Vec<(K, V)> = Vec::new();
        std::mem::swap(&mut entries, &mut self.entries);
        match found {
            Some(j) => {
                entries[j] = (k, v);
                proof {
                    assert(keys_of(entries@) =~= keys_of(before));
                    lemma_table_set(before, j as int, (k, v));
                }
            },
            None => {
                entries.insert(i, (k, v));
                proof {
                    lemma_table_insert(before, i as int, (k, v));
                }
            },
        }
        self.entries = entries;
    }

    /// Takes `k` out, with its value if it was there.
    pub fn remove(&mut self, k: &K) -> (r: Option<V>)
        ensures
            final(self)@ == old(self)@.remove(*k),
            match r {
                Some(v) => old(self)@.contains_key(*k) && v@ == old(self)@[*k],
                None => !old(self)@.contains_key(*k),
            },
    {
        proof {
            use_type_invariant(&*self);
        }
        match self.find(k) {
            Some(i) => {
                let ghost before = self.entries@;
                let mut entries: Vec<(K, V)> = Vec::new();
                std::mem::swap(&mut entries, &mut self.entries);
                let (_, v) = entries.remove(i);
                proof {
                    lemma_table_remove(before, i as int);
                }
                self.entries = entries;
                Some(v)
            },
            None => {
                assert(self@ =~= self@.remove(*k));
                None
            },
        }
    }

    /// The entries that `base` lacks or holds with another value.
    pub fn changed_from(&self, base: &Self) -> (r: Self)
        ensures
            r@ == changes(self@, base@),
            forall|k: K| #[trigger]
                r@.contains_key(k) <==> self@.contains_key(k) && !(base@.contains_key(k) && base@[k]
                    == self@[k]),
            forall|k: K| #[trigger] r@.contains_key(k) ==> r@[k] == self@[k],
    {
        let keys: Vec<K> = self.keys();
        let mut r: SortedMap<K, V> = SortedMap::new();
        let ghost all = changes(self@, base@);
        let mut n: usize = 0;
        proof {
            assert(r@ =~= all.restrict(keys@.take(0).to_set()));
        }
        while n < keys.len()
            invariant
                n <= keys@.len(),
                order::lists(keys@, self@.dom()),
                all == changes(self@, base@),
                r@ =~= all.restrict(keys@.take(n as int).to_set()),
            decreases keys@.len() - n,
        {
            let k: K = keys[n];
            assert(keys@.contains(k));
            let v: &V = self.get(&k).unwrap();
            let changed: bool = match base.get(&k) {
                Some(b) => !v.same(b),
                None => true,
            };
            if changed {
                r.insert(k, v.copied());
            }
            proof {
                order::lemma_listing_step(keys@, self@.dom(), n as int);
                assert(keys@.take(n + 1).to_set() =~= keys@.take(n as int).to_set().insert(k));
            }
            n += 1;
        }
        proof {
            assert(keys@.take(n as int) =~= keys@);
            assert(r@ =~= all);
        }
        r
    }

    /// Takes over from `from` the entries with the given keys.
    pub fn overlay(&mut self, from: &Self, keys: &Vec<K>)
        requires
            keys@.to_set().subset_of(from@.dom()),
        ensures
            final(self)@ == old(self)@.union_prefer_right(from@.restrict(keys@.to_set())),
            forall|k: K| #[trigger]
                final(self)@.contains_key(k) <==> old(self)@.contains_key(k) || keys@.contains(k),
            forall|k: K| #[trigger]
                final(self)@.contains_key(k) ==> final(self)@[k] == if keys@.contains(k) {
                    from@[k]
                } else {
                    old(self)@[k]
                },
    {
        let mut n: usize = 0;
        assert(self@ =~= old(self)@.union_prefer_right(from@.restrict(keys@.take(0).to_set())));
        while n < keys.len()
            invariant
                n <= keys@.len(),
                keys@.to_set().subset_of(from@.dom()),
                self@ == old(self)@.union_prefer_right(
                    from@.restrict(keys@.take(n as int).to_set()),
                ),
            decreases keys@.len() - n,
        {
            let k: K = keys[n];
            proof {
                assert(keys@.contains(k));
                assert(keys@.to_set().contains(k));
                assert(keys@.take(n + 1) =~= keys@.take(n as int).push(k));
                seqs::lemma_push_contains(keys@.take(n as int), k);
            }
            let v: V = from.get(&k).unwrap().copied();
            self.insert(k, v);
            assert(self@ =~= old(self)@.union_prefer_right(
                from@.restrict(keys@.take(n + 1).to_set()),
            ));
            n += 1;
        }
        assert(keys@.take(n as int) =~= keys@);
    }
}

/// The entries of `now` that `base` lacks or holds with another value.
pub open spec fn changes<K, W>(now: Map<K, W>, base: Map<K, W>) -> Map<K, W> {
    now.restrict(
        Set::new(|k: K| now.contains_key(k) && !(base.contains_key(k) && base[k] == now[k])),
    )
}

impl<K: Key, V: Value> Clone for SortedMap<K, V> {
    fn clone(&self) -> (r: Self)
        ensures
            r@ == self@,
    {
        let r = self.changed_from(&SortedMap::new());
        assert(r@ =~= self@);
        r
    }
}

proof fn lemma_table_set<K: Key, V: Value>(entries: Seq<(K, V)>, i: int, e: (K, V))
    requires
        order::is_increasing(keys_of(entries)),
        0 <= i < entries.len(),
        entries[i].0 == e.0,
    ensures
        table(entries.update(i, e)) == table(entries).insert(e.0, e.1@),
{
    let after = entries.update(i, e);
    assert(keys_of(after) =~= keys_of(entries));
    assert forall|k: K| #[trigger]
        table(after).contains_key(k) <==> table(entries).insert(e.0, e.1@).contains_key(k) by {
        lemma_keys_list(after);
        lemma_keys_list(entries);
        lemma_entry(entries, i);
        assert(keys_of(after).contains(k) <==> table(after).dom().contains(k));
        assert(keys_of(entries).contains(k) <==> table(entries).dom().contains(k));
    }
    assert forall|k: K| #[trigger] table(after).contains_key(k) implies table(after)[k] == table(
        entries,
    ).insert(e.0, e.1@)[k] by {
        let j = choose|j: int| holds_at(after, j, k);
        lemma_entry(after, j);
        lemma_entry(entries, j);
        lemma_entry(after, i);
    }
    assert(table(after) =~= table(entries).insert(e.0, e.1@));
}

proof fn lemma_table_insert<K: Key, V: Value>(entries: Seq<(K, V)>, i: int, e: (K, V))
    requires
        order::is_increasing(keys_of(entries)),
        0 <= i <= entries.len(),
        forall|j: int| 0 <= j < i ==> (#[trigger] entries[j]).0.before(e.0),
        forall|j: int| i <= j < entries.len() ==> !(#[trigger] entries[j]).0.before(e.0),
        !table(entries).contains_key(e.0),
    ensures
        order::is_increasing(keys_of(entries.insert(i, e))),
        table(entries.insert(i, e)) == table(entries).insert(e.0, e.1@),
{
    let after = entries.insert(i, e);
    let q = keys_of(entries);
    let p = keys_of(after);
    assert(p =~= q.insert(i, e.0));
    assert forall|a: int, b: int| 0 <= a < b < p.len() implies (#[trigger] p[a]).before(
        #[trigger] p[b],
    ) by {
        if a == i {
            assert(p[b] == entries[b - 1].0);
            K::total(e.0, p[b]);
            assert(holds_at(entries, b - 1, p[b]));
        } else if b == i {
            assert(p[a] == entries[a].0);
        } else {
            let a0 = if a < i { a } else { a - 1 };
            let b0 = if b < i { b } else { b - 1 };
            assert(q[a0].before(q[b0]));
        }
    }
    assert forall|k: K| #[trigger]
        table(after).contains_key(k) <==> table(entries).insert(e.0, e.1@).contains_key(k) by {
        if table(after).contains_key(k) {
            let j = choose|j: int| holds_at(after, j, k);
            if j < i {
                assert(holds_at(entries, j, k));
            } else if j > i {
                assert(holds_at(entries, j - 1, k));
            }
        }
        if table(entries).contains_key(k) {
            let j = choose|j: int| holds_at(entries, j, k);
            if j < i {
                assert(holds_at(after, j, k));
            } else {
                assert(holds_at(after, j + 1, k));
            }
        }
        assert(holds_at(after, i, e.0));
    }
    assert forall|k: K| #[trigger] table(after).contains_key(k) implies table(after)[k] == table(
        entries,
    ).insert(e.0, e.1@)[k] by {
        let j = choose|j: int| holds_at(after, j, k);
        lemma_entry(after, j);
        if j < i {
            lemma_entry(entries, j);
        } else if j > i {
            lemma_entry(entries, j - 1);
        }
    }
    assert(table(after) =~= table(entries).insert(e.0, e.1@));
}

proof fn lemma_table_remove<K: Key, V: Value>(entries: Seq<(K, V)>, i: int)
    requires
        order::is_increasing(keys_of(entries)),
        0 <= i < entries.len(),
    ensures
        order::is_increasing(keys_of(entries.remove(i))),
        table(entries.remove(i)) == table(entries).remove(entries[i].0),
{
    let after = entries.remove(i);
    let q = keys_of(entries);
    let p = keys_of(after);
    assert forall|a: int, b: int| 0 <= a < b < p.len() implies (#[trigger] p[a]).before(
        #[trigger] p[b],
    ) by {
        let a0 = if a < i { a } else { a + 1 };
        let b0 = if b < i { b } else { b + 1 };
        assert(q[a0].before(q[b0]));
    }
    assert forall|k: K| #[trigger]
        table(after).contains_key(k) <==> table(entries).remove(entries[i].0).contains_key(k) by {
        if table(after).contains_key(k) {
            let j = choose|j: int| holds_at(after, j, k);
            let j0 = if j < i { j } else { j + 1 };
            assert(holds_at(entries, j0, k));
            K::irreflexive(k);
            if j0 < i {
                assert(q[j0].before(q[i]));
            } else {
                assert(q[i].before(q[j0]));
            }
        }
        if table(entries).contains_key(k) && k != entries[i].0 {
            let j = choose|j: int| holds_at(entries, j, k);
            if j < i {
                assert(holds_at(after, j, k));
            } else {
                assert(holds_at(after, j - 1, k));
            }
        }
    }
    assert forall|k: K| #[trigger] table(after).contains_key(k) implies table(after)[k] == table(
        entries,
    ).remove(entries[i].0)[k] by {
        let j = choose|j: int| holds_at(after, j, k);
        lemma_entry(after, j);
        let j0 = if j < i { j } else { j + 1 };
        lemma_entry(entries, j0);
    }
    assert(table(after) =~= table(entries).remove(entries[i].0));
}

} // verus!
