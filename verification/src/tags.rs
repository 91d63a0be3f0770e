//! The key-value tags that OpenStreetMap puts on its objects.
use crate::value::Value;
use vstd::prelude::*;

verus! {

/// Tags: a text for each of some keys. Their view is the map from key to text.
#[derive(Debug)]
pub struct Tags {
    entries: Vec<(String, String)>,
}

spec fn tag_at(entries: Seq<(String, String)>, i: int, k: Seq<char>) -> bool {
    0 <= i < entries.len() && entries[i].0@ == k
}

spec fn distinct_tags(entries: Seq<(String, String)>) -> bool {
    forall|i: int, j: int|
        0 <= i < j < entries.len() ==> (#[trigger] entries[i]).0@ != (#[trigger] entries[j]).0@
}

spec fn tag_map(entries: Seq<(String, String)>) -> Map<Seq<char>, Seq<char>> {
    Map::new(
        |k: Seq<char>| exists|i: int| tag_at(entries, i, k),
        |k: Seq<char>| entries[choose|i: int| tag_at(entries, i, k)].1@,
    )
}

proof fn lemma_tag(entries: Seq<(String, String)>, i: int)
    requires
        distinct_tags(entries),
        0 <= i < entries.len(),
    ensures
        tag_map(entries).contains_key(entries[i].0@),
        tag_map(entries)[entries[i].0@] == entries[i].1@,
{
    let k = entries[i].0@;
    assert(tag_at(entries, i, k));
    let j = choose|j: int| tag_at(entries, j, k);
    assert(entries[j].0@ == entries[i].0@);
}

impl View for Tags {
    type V = Map<Seq<char>, Seq<char>>;

    closed spec fn view(&self) -> Map<Seq<char>, Seq<char>> {
        tag_map(self.entries@)
    }
}

impl Tags {
    #[verifier::type_invariant]
    spec fn distinct(self) -> bool {
        distinct_tags(self.entries@)
    }

    /// No tags.
    pub fn new() -> (t: Self)
        ensures
            t@ == Map::<Seq<char>, Seq<char>>::empty(),
    {
        let t = Tags { entries: Vec::new() };
        assert(t@ =~= Map::<Seq<char>, Seq<char>>::empty());
        t
    }

    fn find(&self, key: &String) -> (r: Option<usize>)
        ensures
            match r {
                Some(i) => tag_at(self.entries@, i as int, key@) && self@.contains_key(key@)
                    && self@[key@] == self.entries@[i as int].1@,
                None => !self@.contains_key(key@),
            },
    {
        proof {
            use_type_invariant(self);
        }
        let mut i: usize = 0;
        while i < self.entries.len()
            invariant
                i <= self.entries@.len(),
                distinct_tags(self.entries@),
                forall|j: int| 0 <= j < i ==> (#[trigger] self.entries@[j]).0@ != key@,
            decreases self.entries@.len() - i,
        {
            if self.entries[i].0 == *key {
                proof {
                    lemma_tag(self.entries@, i as int);
                }
                return Some(i);
            }
            i += 1;
        }
        None
    }

    /// The text of `key`.
    pub fn get(&self, key: &str) -> (r: Option<&String>)
        ensures
            match r {
                Some(v) => self@.contains_key(key@) && v@ == self@[key@],
                None => !self@.contains_key(key@),
            },
    {
        match self.find(&key.to_owned()) {
            Some(i) => Some(&self.entries[i].1),
            None => None,
        }
    }

    /// Sets the text of `key`.
    pub fn insert(&mut self, key: String, text: String)
        ensures
            final(self)@ == old(self)@.insert(key@, text@),
    {
        proof {
            use_type_invariant(&*self);
        }
        let found: Option<usize> = self.find(&key);
        let ghost before = self.entries@;
        let ghost (k, t) = (key@, text@);
        let mut entries: Vec<(String, String)> = Vec::new();
        std::mem::swap(&mut entries, &mut self.entries);
        match found {
            Some(i) => {
                entries[i] = (key, text);
                proof {
                    assert forall|m: Seq<char>| #[trigger]
                        tag_map(entries@).contains_key(m) <==> tag_map(before).contains_key(m) by {
                        if tag_map(before).contains_key(m) {
                            let j = choose|j: int| tag_at(before, j, m);
                            assert(tag_at(entries@, j, m));
                        }
                        if tag_map(entries@).contains_key(m) {
                            let j = choose|j: int| tag_at(entries@, j, m);
                            assert(tag_at(before, j, m));
                        }
                    }
                }
            },
            None => {
                proof {
                    assert forall|j: int| 0 <= j < before.len() implies (
                    #[trigger] before[j]).0@ != k by {
                        assert(tag_at(before, j, before[j].0@));
                    }
                }
                entries.push((key, text));
                proof {
                    let n = before.len() as int;
                    assert(tag_at(entries@, n, k));
                    assert forall|m: Seq<char>| #[trigger]
                        tag_map(entries@).contains_key(m) <==> tag_map(before).contains_key(m) || m
                        == k by {
                        if tag_map(before).contains_key(m) {
                            let j = choose|j: int| tag_at(before, j, m);
                            assert(tag_at(entries@, j, m));
                        }
                        if tag_map(entries@).contains_key(m) {
                            let j = choose|j: int| tag_at(entries@, j, m);
                            if j < n {
                                assert(tag_at(before, j, m));
                            }
                        }
                    }
                }
            },
        }
        proof {
            assert forall|m: Seq<char>| #[trigger]
                tag_map(entries@).contains_key(m) implies tag_map(entries@)[m] == tag_map(
                before,
            ).insert(k, t)[m] by {
                let j = choose|j: int| tag_at(entries@, j, m);
                lemma_tag(entries@, j);
                if m != k {
                    assert(entries@[j] == before[j]);
                    lemma_tag(before, j);
                }
            }
            assert(tag_map(entries@) =~= tag_map(before).insert(k, t));
        }
        self.entries = entries;
    }

    /// Every tag of `self` is a tag of `other`.
    fn within(&self, other: &Self) -> (r: bool)
        ensures
            r == self@.submap_of(other@),
    {
        proof {
            use_type_invariant(self);
        }
        let mut i: usize = 0;
        while i < self.entries.len()
            invariant
                i <= self.entries@.len(),
                distinct_tags(self.entries@),
                forall|j: int|
                    0 <= j < i ==> other@.contains_key((#[trigger] self.entries@[j]).0@)
                        && other@[self.entries@[j].0@] == self.entries@[j].1@,
            decreases self.entries@.len() - i,
        {
            proof {
                lemma_tag(self.entries@, i as int);
            }
            match other.find(&self.entries[i].0) {
                Some(o) => {
                    if other.entries[o].1 != self.entries[i].1 {
                        return false;
                    }
                },
                None => {
                    return false;
                },
            }
            i += 1;
        }
        proof {
            assert forall|k: Seq<char>| #[trigger] self@.contains_key(k) implies
                other@.contains_key(k) && self@[k] == other@[k] by {
                let j = choose|j: int| tag_at(self.entries@, j, k);
                lemma_tag(self.entries@, j);
                assert(other@.contains_key(self.entries@[j].0@));
            }
        }
        true
    }

    fn copy_entries(&self) -> (r: Vec<(String, String)>)
        ensures
            r@ == self.entries@,
    {
        let mut r: Vec<(String, String)> = Vec::new();
        let mut i: usize = 0;
        while i < self.entries.len()
            invariant
                i <= self.entries@.len(),
                r@ =~= self.entries@.take(i as int),
            decreases self.entries@.len() - i,
        {
            r.push((self.entries[i].0.clone(), self.entries[i].1.clone()));
            i += 1;
        }
        assert(r@ =~= self.entries@);
        r
    }

    /// The tags as pairs of key and text.
    pub fn pairs(&self) -> (r: Vec<(String, String)>)
        ensures
            forall|i: int, j: int|
                0 <= i < j < r@.len() ==> (#[trigger] r@[i]).0@ != (#[trigger] r@[j]).0@,
            forall|i: int|
                0 <= i < r@.len() ==> self@.contains_key((#[trigger] r@[i]).0@)
                    && self@[r@[i].0@] == r@[i].1@,
            forall|k: Seq<char>| #[trigger]
                self@.contains_key(k) ==> exists|i: int| 0 <= i < r@.len() && r@[i].0@ == k,
    {
        let r: Vec<(String, String)> = self.copy_entries();
        proof {
            use_type_invariant(self);
            assert forall|i: int| 0 <= i < r@.len() implies self@.contains_key(
                (#[trigger] r@[i]).0@,
            ) && self@[r@[i].0@] == r@[i].1@ by {
                lemma_tag(self.entries@, i);
            }
            assert forall|k: Seq<char>| #[trigger] self@.contains_key(k) implies exists|i: int|
                0 <= i < r@.len() && r@[i].0@ == k by {
                let i = choose|i: int| tag_at(self.entries@, i, k);
                assert(r@[i].0@ == k);
            }
        }
        r
    }
}

impl Value for Tags {
    fn same(&self, other: &Self) -> (r: bool) {
        let r = self.within(other) && other.within(self);
        proof {
            if r {
                assert(self@ =~= other@);
            }
        }
        r
    }

    fn copied(&self) -> (r: Self) {
        proof {
            use_type_invariant(self);
        }
        Tags { entries: self.copy_entries() }
    }
}

} // verus!
