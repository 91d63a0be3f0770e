//! Facts about sequences.
use vstd::prelude::*;

verus! {

/// What a sequence holds once an item is added at its end.
pub proof fn lemma_push_contains<A>(q: Seq<A>, a: A)
    ensures
        forall|k: A| #[trigger] q.push(a).contains(k) <==> q.contains(k) || k == a,
{
    let r = q.push(a);
    assert forall|k: A| #[trigger] r.contains(k) <==> q.contains(k) || k == a by {
        if q.contains(k) {
            let i = choose|i: int| 0 <= i < q.len() && q[i] == k;
            assert(r[i] == k);
        }
        if k == a {
            assert(r[q.len() as int] == k);
        }
        if r.contains(k) {
            let i = choose|i: int| 0 <= i < r.len() && r[i] == k;
            if i < q.len() {
                assert(q[i] == k);
            }
        }
    }
}

/// Filtering twice is filtering by both conditions.
pub proof fn lemma_filter_filter<A>(
    s: Seq<A>,
    p: spec_fn(A) -> bool,
    q: spec_fn(A) -> bool,
    both: spec_fn(A) -> bool,
)
    requires
        forall|a: A| #[trigger] both(a) <==> p(a) && q(a),
    ensures
        s.filter(p).filter(q) == s.filter(both),
    decreases s.len(),
{
    reveal(Seq::filter);
    if s.len() > 0 {
        lemma_filter_filter(s.drop_last(), p, q, both);
        let d = s.drop_last().filter(p);
        if p(s.last()) {
            assert(d.push(s.last()).drop_last() =~= d);
        }
    }
}

/// Conditions that agree keep the same items.
pub proof fn lemma_filter_agree<A>(s: Seq<A>, p: spec_fn(A) -> bool, q: spec_fn(A) -> bool)
    requires
        forall|a: A| #[trigger] p(a) == q(a),
    ensures
        s.filter(p) == s.filter(q),
    decreases s.len(),
{
    reveal(Seq::filter);
    if s.len() > 0 {
        lemma_filter_agree(s.drop_last(), p, q);
        assert(p(s.last()) == q(s.last()));
    }
}

/// A filter that keeps every item changes nothing.
pub proof fn lemma_filter_all<A>(s: Seq<A>, p: spec_fn(A) -> bool)
    requires
        forall|n: int| 0 <= n < s.len() ==> p(#[trigger] s[n]),
    ensures
        s.filter(p) == s,
    decreases s.len(),
{
    reveal(Seq::filter);
    if s.len() > 0 {
        let d = s.drop_last();
        assert forall|n: int| 0 <= n < d.len() implies p(#[trigger] d[n]) by {
            assert(d[n] == s[n]);
        }
        lemma_filter_all(d, p);
        assert(d.push(s.last()) =~= s);
    }
}

/// A filter that changes nothing keeps every item.
pub proof fn lemma_filter_same<A>(s: Seq<A>, p: spec_fn(A) -> bool, n: int)
    requires
        s.filter(p) == s,
        0 <= n < s.len(),
    ensures
        p(s[n]),
{
    broadcast use Seq::lemma_filter_pred;

    assert(p(s.filter(p)[n]));
}

/// The first item that a filter keeps.
pub proof fn lemma_filter_first<A>(s: Seq<A>, p: spec_fn(A) -> bool, n: int)
    requires
        0 <= n <= s.len(),
        forall|j: int| 0 <= j < n ==> !p(#[trigger] s[j]),
        n < s.len() ==> p(s[n]),
    ensures
        n == s.len() ==> s.filter(p).len() == 0,
        n < s.len() ==> s.filter(p).len() > 0 && s.filter(p)[0] == s[n],
    decreases s.len(),
{
    reveal(Seq::filter);
    if s.len() > 0 {
        let d = s.drop_last();
        if n == s.len() {
            lemma_filter_first(d, p, n - 1);
        } else {
            lemma_filter_first(d, p, n);
        }
    }
}

/// Where the first item that a filter keeps stands, or the length of the sequence.
pub proof fn lemma_filter_head<A>(s: Seq<A>, p: spec_fn(A) -> bool) -> (n: int)
    ensures
        0 <= n <= s.len(),
        forall|j: int| 0 <= j < n ==> !p(#[trigger] s[j]),
        n < s.len() ==> p(s[n]) && s.filter(p).len() > 0 && s.filter(p)[0] == s[n],
        n == s.len() ==> s.filter(p).len() == 0,
    decreases s.len(),
{
    reveal(Seq::filter);
    if s.len() == 0 {
        0
    } else {
        let d = s.drop_last();
        let n = lemma_filter_head(d, p);
        assert forall|j: int| 0 <= j < n implies !p(#[trigger] s[j]) by {
            assert(!p(d[j]));
        }
        if n < d.len() || p(s.last()) {
            n
        } else {
            s.len() as int
        }
    }
}

/// What a filter keeps satisfies the condition and was there before.
pub proof fn lemma_filter_member<A>(s: Seq<A>, p: spec_fn(A) -> bool, n: int)
    requires
        0 <= n < s.filter(p).len(),
    ensures
        p(s.filter(p)[n]),
        exists|j: int| 0 <= j < s.len() && s[j] == s.filter(p)[n],
    decreases s.len(),
{
    reveal(Seq::filter);
    let d = s.drop_last();
    if n < d.filter(p).len() {
        lemma_filter_member(d, p, n);
        let j = choose|j: int| 0 <= j < d.len() && d[j] == d.filter(p)[n];
        assert(s[j] == s.filter(p)[n]);
    } else {
        assert(s[s.len() - 1] == s.filter(p)[n]);
    }
}

/// What mapping items to sequences and joining those gives holds just what one of them holds.
pub proof fn lemma_flat_map_contains<A, B>(s: Seq<A>, f: spec_fn(A) -> Seq<B>, b: B)
    ensures
        s.flat_map(f).contains(b) <==> exists|j: int|
            0 <= j < s.len() && f(#[trigger] s[j]).contains(b),
    decreases s.len(),
{
    if s.len() > 0 {
        let d = s.drop_last();
        let head = d.flat_map(f);
        let tail = f(s.last());
        lemma_flat_map_contains(d, f, b);
        d.lemma_flat_map_push(f, s.last());
        assert(d.push(s.last()) =~= s);
        let all = s.flat_map(f);
        assert(all == head + tail);
        if all.contains(b) {
            let n = choose|n: int| 0 <= n < all.len() && all[n] == b;
            if n < head.len() {
                assert(head[n] == b);
                let j = choose|j: int| 0 <= j < d.len() && f(#[trigger] d[j]).contains(b);
                assert(f(s[j]).contains(b));
            } else {
                assert(tail[n - head.len()] == b);
                assert(f(s[s.len() - 1]).contains(b));
            }
        }
        if exists|j: int| 0 <= j < s.len() && f(#[trigger] s[j]).contains(b) {
            let j = choose|j: int| 0 <= j < s.len() && f(#[trigger] s[j]).contains(b);
            if j < d.len() {
                assert(f(d[j]).contains(b));
                let n = choose|n: int| 0 <= n < head.len() && head[n] == b;
                assert(all[n] == b);
            } else {
                let n = choose|n: int| 0 <= n < tail.len() && tail[n] == b;
                assert(all[head.len() + n] == b);
            }
        }
    } else {
        assert(s.map_values(f) =~= Seq::empty());
        assert(s.flat_map(f) =~= Seq::empty());
    }
}

/// Where each item is mapped to a sequence of things of its own, picking out the things of one item
/// gives back its sequence.
pub proof fn lemma_flat_map_pick<A, B>(
    s: Seq<A>,
    f: spec_fn(A) -> Seq<B>,
    owner: spec_fn(B) -> A,
    a: A,
    p: spec_fn(B) -> bool,
)
    requires
        s.no_duplicates(),
        forall|x: A, n: int| 0 <= n < f(x).len() ==> owner(#[trigger] f(x)[n]) == x,
        forall|b: B| #[trigger] p(b) <==> owner(b) == a,
    ensures
        s.flat_map(f).filter(p) == if s.contains(a) {
            f(a)
        } else {
            Seq::empty()
        },
    decreases s.len(),
{
    reveal(Seq::filter);
    if s.len() > 0 {
        let d = s.drop_last();
        let x = s.last();
        d.lemma_flat_map_push(f, x);
        assert(d.push(x) =~= s);
        lemma_push_contains(d, x);
        lemma_flat_map_pick(d, f, owner, a, p);
        Seq::filter_distributes_over_add(d.flat_map(f), f(x), p);
        if x == a {
            assert(!d.contains(a)) by {
                assert(s[s.len() - 1] == x);
            }
            lemma_filter_all(f(x), p);
            assert(Seq::<B>::empty() + f(x) =~= f(x));
        } else {
            f(x).lemma_all_neg_filter_empty(p);
            assert(d.flat_map(f).filter(p) + f(x).filter(p) =~= d.flat_map(f).filter(p));
        }
    } else {
        assert(s.map_values(f) =~= Seq::empty());
        assert(s.flat_map(f) =~= Seq::empty());
    }
}

} // verus!
