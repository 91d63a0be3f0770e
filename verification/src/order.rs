//! Strictly ordered keys and the increasing listing of a set of them.
use crate::seqs;
use vstd::prelude::*;

verus! {

/// A copyable key with a strict total order.
pub trait Key: Copy + Sized {
    /// `self` comes strictly before `other`.
    spec fn before(self, other: Self) -> bool;

    proof fn irreflexive(a: Self)
        ensures
            !a.before(a),
    ;

    proof fn transitive(a: Self, b: Self, c: Self)
        requires
            a.before(b),
            b.before(c),
        ensures
            a.before(c),
    ;

    proof fn total(a: Self, b: Self)
        ensures
            a == b || a.before(b) || b.before(a),
    ;

    fn is_before(&self, other: &Self) -> (r: bool)
        ensures
            r == self.before(*other),
    ;

    fn is_same(&self, other: &Self) -> (r: bool)
        ensures
            r == (*self == *other),
    ;
}

/// Each item of `q` comes strictly before every later one.
pub open spec fn is_increasing<K: Key>(q: Seq<K>) -> bool {
    forall|i: int, j: int| 0 <= i < j < q.len() ==> (#[trigger] q[i]).before(#[trigger] q[j])
}

/// `q` holds the members of `s`, each once, in increasing order.
pub open spec fn lists<K: Key>(q: Seq<K>, s: Set<K>) -> bool {
    &&& is_increasing(q)
    &&& forall|k: K| #[trigger] q.contains(k) <==> s.contains(k)
}

/// The members of the finite set `s` in increasing order.
pub open spec fn in_order<K: Key>(s: Set<K>) -> Seq<K> {
    choose|q: Seq<K>| lists(q, s)
}

/// A set has only one increasing listing.
pub proof fn lemma_listing_unique<K: Key>(p: Seq<K>, q: Seq<K>, s: Set<K>)
    requires
        lists(p, s),
        lists(q, s),
    ensures
        p == q,
    decreases p.len(),
{
    if p.len() == 0 {
        if q.len() > 0 {
            assert(q.contains(q[0]));
            assert(p.contains(q[0]));
        }
    } else {
        assert(p.contains(p.last()));
        assert(q.contains(p.last()));
        let n = p.last();
        let j = choose|j: int| 0 <= j < q.len() && q[j] == n;
        assert(q.contains(q.last()));
        assert(p.contains(q.last()));
        let i = choose|i: int| 0 <= i < p.len() && p[i] == q.last();
        if j < q.len() - 1 {
            assert(q[j].before(q[q.len() - 1]));
            if i < p.len() - 1 {
                assert(p[i].before(p[p.len() - 1]));
                K::transitive(n, q.last(), n);
            }
            K::irreflexive(n);
        }
        assert(p.last() == q.last());
        let rest = s.remove(n);
        assert(lists(p.drop_last(), rest)) by {
            lemma_listing_without_last(p, s);
        }
        assert(lists(q.drop_last(), rest)) by {
            lemma_listing_without_last(q, s);
        }
        lemma_listing_unique(p.drop_last(), q.drop_last(), rest);
        assert(p =~= p.drop_last().push(n));
        assert(q =~= q.drop_last().push(n));
    }
}

proof fn lemma_listing_without_last<K: Key>(q: Seq<K>, s: Set<K>)
    requires
        lists(q, s),
        q.len() > 0,
    ensures
        lists(q.drop_last(), s.remove(q.last())),
{
    let d = q.drop_last();
    assert forall|k: K| #[trigger] d.contains(k) <==> s.remove(q.last()).contains(k) by {
        if d.contains(k) {
            let i = choose|i: int| 0 <= i < d.len() && d[i] == k;
            assert(q[i] == k);
            assert(q.contains(k));
            assert(q[i].before(q[q.len() - 1]));
            K::irreflexive(k);
        }
        if s.remove(q.last()).contains(k) {
            assert(q.contains(k));
            let i = choose|i: int| 0 <= i < q.len() && q[i] == k;
            assert(d[i] == k);
        }
    }
}

/// Whoever holds an increasing listing of `s` holds `in_order(s)`.
pub proof fn lemma_in_order<K: Key>(q: Seq<K>, s: Set<K>)
    requires
        lists(q, s),
    ensures
        in_order(s) == q,
        lists(in_order(s), s),
{
    lemma_listing_unique(q, in_order(s), s);
}

/// Nothing occurs twice in an increasing sequence.
pub proof fn lemma_increasing_distinct<K: Key>(q: Seq<K>)
    requires
        is_increasing(q),
    ensures
        q.no_duplicates(),
{
    assert forall|i: int, j: int| 0 <= i < j < q.len() implies q[i] != q[j] by {
        K::irreflexive(q[i]);
        assert(q[i].before(q[j]));
    }
}

/// An increasing listing has as many items as its set has members.
pub proof fn lemma_listing_len<K: Key>(q: Seq<K>, s: Set<K>)
    requires
        lists(q, s),
    ensures
        s.finite(),
        s.len() == q.len(),
{
    lemma_increasing_distinct(q);
    q.unique_seq_to_set();
    assert(q.to_set() =~= s);
    vstd::seq_lib::seq_to_set_is_finite(q);
}

/// Every finite set can be listed in increasing order.
pub proof fn lemma_in_order_lists<K: Key>(s: Set<K>)
    requires
        s.finite(),
    ensures
        lists(in_order(s), s),
    decreases s.len(),
{
    if s.len() == 0 {
        assert(lists(Seq::<K>::empty(), s)) by {
            assert forall|k: K| #[trigger] Seq::<K>::empty().contains(k) <==> s.contains(k) by {
                if s.contains(k) {
                    assert(s.remove(k).len() < s.len());
                }
            }
        }
    } else {
        let a = s.choose();
        lemma_in_order_lists(s.remove(a));
        let q = lemma_listing_insert(in_order(s.remove(a)), s.remove(a), a);
        assert(s.remove(a).insert(a) =~= s);
        assert(lists(q, s));
    }
}

proof fn lemma_listing_insert<K: Key>(q: Seq<K>, s: Set<K>, a: K) -> (r: Seq<K>)
    requires
        lists(q, s),
        !s.contains(a),
    ensures
        lists(r, s.insert(a)),
    decreases q.len(),
{
    if q.len() == 0 || q.last().before(a) {
        let r = q.push(a);
        assert forall|i: int, j: int| 0 <= i < j < r.len() implies (#[trigger] r[i]).before(
            #[trigger] r[j],
        ) by {
            if j == q.len() && i < q.len() - 1 {
                assert(q[i].before(q[q.len() - 1]));
                K::transitive(q[i], q.last(), a);
            }
        }
        seqs::lemma_push_contains(q, a);
        r
    } else {
        let n = q.last();
        assert(q.contains(n));
        K::total(a, n);
        lemma_listing_without_last(q, s);
        let d = lemma_listing_insert(q.drop_last(), s.remove(n), a);
        let r = d.push(n);
        assert forall|i: int, j: int| 0 <= i < j < r.len() implies (#[trigger] r[i]).before(
            #[trigger] r[j],
        ) by {
            if j == d.len() {
                assert(d.contains(d[i]));
                if d[i] != a {
                    assert(q.contains(d[i]));
                    let m = choose|m: int| 0 <= m < q.len() && q[m] == d[i];
                    assert(q[m].before(q[q.len() - 1]));
                }
            }
        }
        seqs::lemma_push_contains(d, n);
        assert forall|k: K| #[trigger] r.contains(k) <==> s.insert(a).contains(k) by {
            assert(d.contains(k) <==> s.remove(n).insert(a).contains(k));
        }
        r
    }
}

/// Reading an increasing listing up to its `n`th item and then that item.
pub proof fn lemma_listing_step<K: Key>(q: Seq<K>, s: Set<K>, n: int)
    requires
        lists(q, s),
        0 <= n < q.len(),
    ensures
        s.contains(q[n]),
        !q.take(n).contains(q[n]),
        q.take(n + 1) == q.take(n).push(q[n]),
        forall|k: K| #[trigger]
            q.take(n + 1).contains(k) <==> q.take(n).contains(k) || k == q[n],
{
    assert(q.contains(q[n]));
    if q.take(n).contains(q[n]) {
        let m = choose|m: int| 0 <= m < n && q.take(n)[m] == q[n];
        assert(q[m].before(q[n]));
        K::irreflexive(q[n]);
    }
    assert(q.take(n + 1) =~= q.take(n).push(q[n]));
    seqs::lemma_push_contains(q.take(n), q[n]);
}

/// Picking items out of an increasing listing lists the members that were picked.
pub proof fn lemma_listing_filter<K: Key>(q: Seq<K>, s: Set<K>, p: spec_fn(K) -> bool)
    requires
        lists(q, s),
    ensures
        lists(q.filter(p), s.filter(p)),
        in_order(s.filter(p)) == q.filter(p),
    decreases q.len(),
{
    reveal(Seq::filter);
    let r = q.filter(p);
    if q.len() == 0 {
        assert forall|k: K| #[trigger] r.contains(k) <==> s.filter(p).contains(k) by {
            assert(q.contains(k) <==> s.contains(k));
        }
    } else {
        let n = q.last();
        let rest = q.drop_last();
        assert(q.contains(n));
        lemma_listing_without_last(q, s);
        lemma_listing_filter(rest, s.remove(n), p);
        let d = rest.filter(p);
        seqs::lemma_push_contains(d, n);
        assert forall|k: K| #[trigger] r.contains(k) <==> s.filter(p).contains(k) by {
            assert(d.contains(k) <==> s.remove(n).filter(p).contains(k));
        }
        assert forall|i: int, j: int| 0 <= i < j < r.len() implies (#[trigger] r[i]).before(
            #[trigger] r[j],
        ) by {
            if j == d.len() {
                assert(d.contains(d[i]));
                assert(rest.contains(d[i]));
                let m = choose|m: int| 0 <= m < rest.len() && rest[m] == d[i];
                assert(q[m].before(q[q.len() - 1]));
            } else {
                assert(d[i].before(d[j]));
            }
        }
    }
    lemma_in_order(r, s.filter(p));
}

} // verus!
