//! Small finite maps for the filesystem state: one keyed by path text,
//! which keeps a list of distinct keys with their values, and one keyed by
//! inode number, held in a `HashMap`. The view of each is the map from keys
//! to values.

use vstd::prelude::*;
use vstd::std_specs::iter::IteratorSpec;
use std::collections::HashMap;

verus! {

broadcast use vstd::std_specs::hash::group_hash_axioms;

/// Whether the keys of `s` are pairwise distinct.
pub open spec fn text_keys_distinct<V>(s: Seq<(String, V)>) -> bool {
    forall|i: int, j: int|
        0 <= i < s.len() && 0 <= j < s.len() && i != j ==> #[trigger] s[i].0@ != #[trigger] s[j].0@
}

/// Whether `k` is a key of `s`.
pub open spec fn text_has<V>(s: Seq<(String, V)>, k: Seq<char>) -> bool {
    exists|i: int| 0 <= i < s.len() && #[trigger] s[i].0@ == k
}

/// A position of key `k` in `s`.
pub open spec fn text_index<V>(s: Seq<(String, V)>, k: Seq<char>) -> int {
    choose|i: int| 0 <= i < s.len() && #[trigger] s[i].0@ == k
}

/// The map that the pairs of `s` describe.
pub open spec fn text_map<V>(s: Seq<(String, V)>) -> Map<Seq<char>, V> {
    Map::new(|k: Seq<char>| text_has(s, k), |k: Seq<char>| s[text_index(s, k)].1)
}

/// With distinct keys, the value at a position of `k` is the map's value.
proof fn lemma_text_at<V>(s: Seq<(String, V)>, i: int)
    requires
        text_keys_distinct(s),
        0 <= i < s.len(),
    ensures
        text_map(s).contains_key(s[i].0@),
        text_map(s)[s[i].0@] == s[i].1,
{
    let k = s[i].0@;
    assert(text_has(s, k));
    let j = text_index(s, k);
    assert(s[j].0@ == k);
}

/// A map from path text to values.
pub struct NameTable<V> {
    items: Vec<(String, V)>,
}

impl<V> NameTable<V> {
    /// Well-formedness: the keys are distinct.
    pub closed spec fn wf(&self) -> bool {
        text_keys_distinct(self.items@)
    }

    /// The key/value pairs, in the table's order.
    pub closed spec fn spec_items(&self) -> Seq<(String, V)> {
        self.items@
    }

    /// The map from keys to values.
    pub closed spec fn spec_map(&self) -> Map<Seq<char>, V> {
        text_map(self.items@)
    }

    /// An empty table.
    pub fn new() -> (t: Self)
        ensures
            t.wf(),
            t.spec_map() == Map::<Seq<char>, V>::empty(),
            t.spec_items().len() == 0,
    {
        let t = NameTable { items: Vec::new() };
        assert(t.spec_map() =~= Map::<Seq<char>, V>::empty());
        t
    }

    /// The number of keys.
    pub fn len(&self) -> (n: usize)
        requires
            self.wf(),
        ensures
            n == self.spec_items().len(),
            self.spec_map().dom().len() == n,
            self.spec_map().dom().finite(),
    {
        proof {
            self.lemma_dom_len();
        }
        self.items.len()
    }

    proof fn lemma_dom_len(&self)
        requires
            text_keys_distinct(self.items@),
        ensures
            self.spec_map().dom().finite(),
            self.spec_map().dom().len() == self.items@.len(),
        decreases self.items@.len(),
    {
        let s = self.items@;
        let keys = s.map_values(|p: (String, V)| p.0@);
        assert(self.spec_map().dom() =~= keys.to_set()) by {
            assert forall|k: Seq<char>| self.spec_map().dom().contains(k) implies keys.to_set().contains(k) by {
                let i = text_index(s, k);
                assert(keys[i] == k);
            }
            assert forall|k: Seq<char>| keys.to_set().contains(k) implies self.spec_map().dom().contains(k) by {
                let i = choose|i: int| 0 <= i < keys.len() && keys[i] == k;
                assert(s[i].0@ == k);
            }
        }
        assert(keys.no_duplicates()) by {
            assert forall|i: int, j: int| 0 <= i < keys.len() && 0 <= j < keys.len() && i != j implies keys[i] != keys[j] by {
                assert(s[i].0@ != s[j].0@);
            }
        }
        keys.unique_seq_to_set();
    }

    /// The position of `k`, if it is a key.
    fn find(&self, k: &String) -> (r: Option<usize>)
        ensures
            match r {
                Some(i) => i < self.spec_items().len() && self.spec_items()[i as int].0@ == k@,
                None => !text_has(self.spec_items(), k@),
            },
    {
        let mut i: usize = 0;
        while i < self.items.len()
            invariant
                i <= self.items@.len(),
                forall|j: int| 0 <= j < i ==> #[trigger] self.items@[j].0@ != k@,
            decreases self.items@.len() - i,
        {
            if self.items[i].0 == *k {
                return Some(i);
            }
            i = i + 1;
        }
        None
    }

    /// Whether `k` is a key.
    pub fn contains(&self, k: &str) -> (b: bool)
        ensures
            b == self.spec_map().contains_key(k@),
    {
        let key = k.to_owned();
        self.find(&key).is_some()
    }

    /// The value of `k`, if it is a key.
    pub fn get(&self, k: &str) -> (r: Option<&V>)
        requires
            self.wf(),
        ensures
            r is Some == self.spec_map().contains_key(k@),
            r matches Some(v) ==> *v == self.spec_map()[k@],
    {
        let key = k.to_owned();
        match self.find(&key) {
            Some(i) => {
                proof {
                    lemma_text_at(self.items@, i as int);
                }
                Some(&self.items[i].1)
            },
            None => None,
        }
    }

    /// Sets the value of `k` to `v`.
    pub fn insert(&mut self, k: String, v: V)
        requires
            old(self).wf(),
        ensures
            final(self).wf(),
            final(self).spec_map() == old(self).spec_map().insert(k@, v),
    {
        let ghost old_items = self.items@;
        let ghost key = k@;
        match self.find(&k) {
            Some(i) => {
                self.items.set(i, (k, v));
                proof {
                    let s = self.items@;
                    assert(s == old_items.update(i as int, s[i as int]));
                    assert forall|a: int, b: int|
                        0 <= a < s.len() && 0 <= b < s.len() && a != b implies #[trigger] s[a].0@
                        != #[trigger] s[b].0@ by {
                        if a != i && b != i {
                            assert(old_items[a].0@ != old_items[b].0@);
                        } else if a == i {
                            assert(old_items[i as int].0@ != old_items[b].0@);
                        } else {
                            assert(old_items[a].0@ != old_items[i as int].0@);
                        }
                    }
                    self.lemma_after_set(old_items, i as int);
                }
            },
            None => {
                self.items.push((k, v));
                proof {
                    let s = self.items@;
                    assert forall|a: int, b: int|
                        0 <= a < s.len() && 0 <= b < s.len() && a != b implies #[trigger] s[a].0@
                        != #[trigger] s[b].0@ by {
                        if a < old_items.len() && b < old_items.len() {
                            assert(old_items[a].0@ != old_items[b].0@);
                        } else if a < old_items.len() {
                            assert(old_items[a].0@ != key);
                        } else {
                            assert(old_items[b].0@ != key);
                        }
                    }
                    assert(s.drop_last() =~= old_items);
                    self.lemma_after_push(old_items);
                }
            },
        }
    }

    proof fn lemma_after_set(&self, old_items: Seq<(String, V)>, i: int)
        requires
            text_keys_distinct(old_items),
            text_keys_distinct(self.items@),
            0 <= i < old_items.len(),
            self.items@ == old_items.update(i, self.items@[i]),
            old_items[i].0@ == self.items@[i].0@,
        ensures
            self.spec_map() == text_map(old_items).insert(self.items@[i].0@, self.items@[i].1),
    {
        let s = self.items@;
        let k = s[i].0@;
        let m = text_map(old_items).insert(k, s[i].1);
        assert forall|q: Seq<char>| #[trigger] self.spec_map().contains_key(q) == m.contains_key(q) by {
            if text_has(s, q) {
                let j = text_index(s, q);
                if j != i {
                    assert(old_items[j].0@ == q);
                }
            }
            if text_has(old_items, q) {
                let j = text_index(old_items, q);
                assert(s[j].0@ == q);
            }
        }
        assert forall|q: Seq<char>| #[trigger] self.spec_map().contains_key(q) implies self.spec_map()[q]
            == m[q] by {
            let j = text_index(s, q);
            lemma_text_at(s, j);
            if j != i {
                assert(old_items[j] == s[j]);
                lemma_text_at(old_items, j);
            } else {
                assert(q == k);
            }
        }
        assert(self.spec_map() =~= m);
    }

    proof fn lemma_after_push(&self, old_items: Seq<(String, V)>)
        requires
            text_keys_distinct(old_items),
            text_keys_distinct(self.items@),
            self.items@.len() == old_items.len() + 1,
            self.items@.drop_last() == old_items,
        ensures
            self.spec_map() == text_map(old_items).insert(
                self.items@.last().0@,
                self.items@.last().1,
            ),
    {
        let s = self.items@;
        let n = old_items.len() as int;
        let k = s[n].0@;
        let m = text_map(old_items).insert(k, s[n].1);
        assert forall|j: int| 0 <= j < n implies #[trigger] s[j] == old_items[j] by {
            assert(s.drop_last()[j] == s[j]);
        }
        assert forall|q: Seq<char>| #[trigger] self.spec_map().contains_key(q) == m.contains_key(q) by {
            if text_has(s, q) {
                let j = text_index(s, q);
                if j != n {
                    assert(old_items[j].0@ == q);
                }
            }
            if text_has(old_items, q) {
                let j = text_index(old_items, q);
                assert(s[j].0@ == q);
            }
        }
        assert forall|q: Seq<char>| #[trigger] self.spec_map().contains_key(q) implies self.spec_map()[q]
            == m[q] by {
            let j = text_index(s, q);
            lemma_text_at(s, j);
            if j != n {
                lemma_text_at(old_items, j);
            }
        }
        assert(self.spec_map() =~= m);
    }

    /// Removes `k`, returning its value if it was a key.
    pub fn remove(&mut self, k: &str) -> (r: Option<V>)
        requires
            old(self).wf(),
        ensures
            final(self).wf(),
            final(self).spec_map() == old(self).spec_map().remove(k@),
            r is Some == old(self).spec_map().contains_key(k@),
            r matches Some(v) ==> v == old(self).spec_map()[k@],
    {
        let ghost old_items = self.items@;
        let key = k.to_owned();
        match self.find(&key) {
            Some(i) => {
                proof {
                    lemma_text_at(old_items, i as int);
                }
                let (_, v) = self.items.remove(i);
                proof {
                    let s = self.items@;
                    assert forall|a: int, b: int|
                        0 <= a < s.len() && 0 <= b < s.len() && a != b implies #[trigger] s[a].0@
                        != #[trigger] s[b].0@ by {
                        let a2 = if a < i { a } else { a + 1 };
                        let b2 = if b < i { b } else { b + 1 };
                        assert(s[a] == old_items[a2]);
                        assert(s[b] == old_items[b2]);
                        assert(old_items[a2].0@ != old_items[b2].0@);
                    }
                    self.lemma_after_remove(old_items, i as int);
                }
                Some(v)
            },
            None => {
                proof {
                    assert(self.spec_map() =~= old(self).spec_map().remove(k@));
                }
                None
            },
        }
    }

    proof fn lemma_after_remove(&self, old_items: Seq<(String, V)>, i: int)
        requires
            text_keys_distinct(old_items),
            text_keys_distinct(self.items@),
            0 <= i < old_items.len(),
            self.items@ == old_items.remove(i),
        ensures
            self.spec_map() == text_map(old_items).remove(old_items[i].0@),
    {
        let s = self.items@;
        let k = old_items[i].0@;
        let m = text_map(old_items).remove(k);
        assert forall|q: Seq<char>| #[trigger] self.spec_map().contains_key(q) == m.contains_key(q) by {
            if text_has(s, q) {
                let j = text_index(s, q);
                let j2 = if j < i { j } else { j + 1 };
                assert(old_items[j2].0@ == q);
                assert(j2 != i);
            }
            if text_has(old_items, q) && q != k {
                let j = text_index(old_items, q);
                assert(j != i);
                let j2 = if j < i { j } else { j - 1 };
                assert(s[j2].0@ == q);
            }
        }
        assert forall|q: Seq<char>| #[trigger] self.spec_map().contains_key(q) implies self.spec_map()[q]
            == m[q] by {
            let j = text_index(s, q);
            lemma_text_at(s, j);
            let j2 = if j < i { j } else { j + 1 };
            assert(old_items[j2] == s[j]);
            lemma_text_at(old_items, j2);
        }
        assert(self.spec_map() =~= m);
    }

    /// The keys, in the table's order.
    pub fn keys(&self) -> (r: Vec<String>)
        ensures
            r@.len() == self.spec_items().len(),
            forall|i: int| 0 <= i < r@.len() ==> #[trigger] r@[i]@ == self.spec_items()[i].0@,
            forall|k: Seq<char>|
                self.spec_map().contains_key(k) <==> exists|i: int|
                    0 <= i < r@.len() && #[trigger] r@[i]@ == k,
    {
        let mut r: Vec<String> = Vec::new();
        let mut i: usize = 0;
        while i < self.items.len()
            invariant
                i <= self.items@.len(),
                r@.len() == i,
                forall|j: int| 0 <= j < i ==> #[trigger] r@[j]@ == self.items@[j].0@,
            decreases self.items@.len() - i,
        {
            r.push(self.items[i].0.clone());
            i = i + 1;
        }
        proof {
            assert forall|k: Seq<char>|
                self.spec_map().contains_key(k) <==> exists|i: int|
                    0 <= i < r@.len() && #[trigger] r@[i]@ == k by {
                if self.spec_map().contains_key(k) {
                    let j = text_index(self.items@, k);
                    assert(r@[j]@ == k);
                }
                if exists|i: int| 0 <= i < r@.len() && #[trigger] r@[i]@ == k {
                    let j = choose|i: int| 0 <= i < r@.len() && #[trigger] r@[i]@ == k;
                    assert(self.items@[j].0@ == k);
                }
            }
        }
        r
    }

    /// Removes every key.
    pub fn clear(&mut self)
        ensures
            final(self).wf(),
            final(self).spec_map() == Map::<Seq<char>, V>::empty(),
    {
        self.items = Vec::new();
        assert(self.spec_map() =~= Map::<Seq<char>, V>::empty());
    }
}

/// A map from inode numbers to values, held in a `HashMap`.
pub struct InoTable<V> {
    map: HashMap<u64, V>,
}

impl<V> InoTable<V> {
    /// Well-formedness: the map is finite.
    pub closed spec fn wf(&self) -> bool {
        self.map@.dom().finite()
    }

    /// The map from keys to values.
    pub closed spec fn spec_map(&self) -> Map<u64, V> {
        self.map@
    }

    /// An empty table.
    pub fn new() -> (t: Self)
        ensures
            t.wf(),
            t.spec_map() == Map::<u64, V>::empty(),
    {
        InoTable { map: HashMap::new() }
    }

    /// The number of keys.
    pub fn len(&self) -> (n: usize)
        requires
            self.wf(),
        ensures
            self.spec_map().dom().len() == n,
            self.spec_map().dom().finite(),
    {
        self.map.len()
    }

    /// Whether `k` is a key.
    pub fn contains(&self, k: u64) -> (b: bool)
        ensures
            b == self.spec_map().contains_key(k),
    {
        self.map.contains_key(&k)
    }

    /// The value of `k`, if it is a key.
    pub fn get(&self, k: u64) -> (r: Option<&V>)
        requires
            self.wf(),
        ensures
            r is Some == self.spec_map().contains_key(k),
            r matches Some(v) ==> *v == self.spec_map()[k],
    {
        self.map.get(&k)
    }

    /// Sets the value of `k` to `v`.
    pub fn insert(&mut self, k: u64, v: V)
        requires
            old(self).wf(),
        ensures
            final(self).wf(),
            final(self).spec_map() == old(self).spec_map().insert(k, v),
    {
        self.map.insert(k, v);
    }

    /// Removes `k`, returning its value if it was a key.
    pub fn remove(&mut self, k: u64) -> (r: Option<V>)
        requires
            old(self).wf(),
        ensures
            final(self).wf(),
            final(self).spec_map() == old(self).spec_map().remove(k),
            r is Some == old(self).spec_map().contains_key(k),
            r matches Some(v) ==> v == old(self).spec_map()[k],
    {
        self.map.remove(&k)
    }

    /// The keys, each once, in the map's iteration order.
    pub fn keys(&self) -> (r: Vec<u64>)
        ensures
            r@.len() == self.spec_map().dom().len(),
            r@.no_duplicates(),
            forall|k: u64|
                self.spec_map().contains_key(k) <==> exists|i: int|
                    0 <= i < r@.len() && #[trigger] r@[i] == k,
    {
        let ghost ks = vstd::std_specs::hash::spec_keys_iter(&self.map).remaining();
        let mut r: Vec<u64> = Vec::new();
        for k in it: self.map.keys()
            invariant
                it.seq() == ks,
                r@.len() == it.index(),
                forall|j: int| 0 <= j < it.index() ==> r@[j] == *ks[j],
        {
            r.push(*k);
        }
        proof {
            assert(r@ =~= ks.unref());
            assert forall|k: u64|
                self.spec_map().contains_key(k) <==> exists|i: int|
                    0 <= i < r@.len() && #[trigger] r@[i] == k by {
                if self.spec_map().contains_key(k) {
                    assert(r@.to_set().contains(k));
                }
                if exists|i: int| 0 <= i < r@.len() && #[trigger] r@[i] == k {
                    let i = choose|i: int| 0 <= i < r@.len() && #[trigger] r@[i] == k;
                    assert(r@.to_set().contains(r@[i]));
                }
            }
        }
        r
    }

    /// Removes every key.
    pub fn clear(&mut self)
        ensures
            final(self).wf(),
            final(self).spec_map() == Map::<u64, V>::empty(),
    {
        self.map.clear();
    }
}

} // verus!
