//! A map keyed by ticker symbols, kept as a list of distinct keys with their
//! values. Its model is a map from the key's characters to the value.

use vstd::prelude::*;

verus! {

/// The map that a list of entries stands for: a later entry for a key
/// replaces an earlier one.
pub open spec fn entries_map<V>(e: Seq<(String, V)>) -> Map<Seq<char>, V>
    decreases e.len(),
{
    if e.len() == 0 {
        Map::empty()
    } else {
        entries_map(e.drop_last()).insert(e.last().0@, e.last().1)
    }
}

/// No key occurs twice.
pub open spec fn keys_distinct<V>(e: Seq<(String, V)>) -> bool {
    forall|i: int, j: int|
        #![trigger e[i], e[j]]
        0 <= i < j < e.len() ==> e[i].0@ != e[j].0@
}

/// With distinct keys, the map holds a key exactly when an entry does, with
/// that entry's value.
pub proof fn lemma_entries_map<V>(e: Seq<(String, V)>)
    requires
        keys_distinct(e),
    ensures
        forall|i: int| 0 <= i < e.len() ==> {
            &&& #[trigger] entries_map(e).contains_key(e[i].0@)
            &&& entries_map(e)[e[i].0@] == e[i].1
        },
        forall|k: Seq<char>| #[trigger] entries_map(e).contains_key(k) ==> exists|i: int| 0 <= i < e.len() && e[i].0@ == k,
        entries_map(e).dom().finite(),
        entries_map(e).dom().len() == e.len(),
    decreases e.len(),
{
    if e.len() > 0 {
        let p = e.drop_last();
        assert(keys_distinct(p)) by {
            assert forall|i: int, j: int| 0 <= i < j < p.len() implies #[trigger] p[i].0@ != #[trigger] p[j].0@ by {
                assert(p[i] == e[i] && p[j] == e[j]);
            }
        }
        lemma_entries_map(p);
        assert forall|i: int| 0 <= i < e.len() implies {
            &&& #[trigger] entries_map(e).contains_key(e[i].0@)
            &&& entries_map(e)[e[i].0@] == e[i].1
        } by {
            if i < e.len() - 1 {
                assert(p[i] == e[i]);
                assert(e[i].0@ != e.last().0@);
            }
        }
        assert forall|k: Seq<char>| #[trigger] entries_map(e).contains_key(k) implies exists|i: int| 0 <= i < e.len() && e[i].0@ == k by {
            if k != e.last().0@ {
                let i = choose|i: int| 0 <= i < p.len() && p[i].0@ == k;
                assert(e[i] == p[i]);
            }
        }
        assert(!entries_map(p).contains_key(e.last().0@)) by {
            if entries_map(p).contains_key(e.last().0@) {
                let i = choose|i: int| 0 <= i < p.len() && p[i].0@ == e.last().0@;
                assert(e[i] == p[i]);
            }
        }
    }
}

/// A map from tickers to values.
pub struct TickerMap<V> {
    entries: Vec<(String, V)>,
}

impl<V> View for TickerMap<V> {
    type V = Map<Seq<char>, V>;

    closed spec fn view(&self) -> Map<Seq<char>, V> {
        entries_map(self.entries@)
    }
}

impl<V> TickerMap<V> {
    #[verifier::type_invariant]
    closed spec fn inv(self) -> bool {
        keys_distinct(self.entries@)
    }

    /// An empty map.
    pub fn new() -> (m: TickerMap<V>)
        ensures
            m@ == Map::<Seq<char>, V>::empty(),
    {
        TickerMap { entries: Vec::new() }
    }

    /// The position of `key`'s entry, if any.
    fn find(&self, key: &String) -> (r: Option<usize>)
        ensures
            match r {
                Some(i) => i < self.entries@.len() && self.entries@[i as int].0@ == key@,
                None => forall|i: int| 0 <= i < self.entries@.len() ==> #[trigger] self.entries@[i].0@ != key@,
            },
    {
        let mut i: usize = 0;
        while i < self.entries.len()
            invariant
                i <= self.entries@.len(),
                forall|j: int| 0 <= j < i ==> #[trigger] self.entries@[j].0@ != key@,
            decreases self.entries@.len() - i,
        {
            if self.entries[i].0 == *key {
                return Some(i);
            }
            i = i + 1;
        }
        None
    }

    /// Whether `key` is in the map.
    pub fn contains_key(&self, key: &String) -> (r: bool)
        ensures
            r == self@.contains_key(key@),
    {
        proof {
            use_type_invariant(self);
            lemma_entries_map(self.entries@);
        }
        self.find(key).is_some()
    }

    /// The value of `key`, if any.
    pub fn get(&self, key: &String) -> (r: Option<&V>)
        ensures
            match r {
                Some(v) => self@.contains_key(key@) && self@[key@] == *v,
                None => !self@.contains_key(key@),
            },
    {
        proof {
            use_type_invariant(self);
            lemma_entries_map(self.entries@);
        }
        match self.find(key) {
            Some(i) => {
                assert(entries_map(self.entries@).contains_key(self.entries@[i as int].0@));
                Some(&self.entries[i].1)
            },
            None => None,
        }
    }

    /// Maps `key` to `value`, replacing any earlier value.
    pub fn insert(&mut self, key: String, value: V)
        ensures
            final(self)@ == old(self)@.insert(key@, value),
    {
        proof {
            use_type_invariant(&*self);
            lemma_entries_map(self.entries@);
        }
        let ghost e0 = self.entries@;
        match self.find(&key) {
            Some(i) => {
                let ghost k = key@;
                let mut entries: Vec<(String, V)> = Vec::new();
                std::mem::swap(&mut entries, &mut self.entries);
                let _ = entries.remove(i);
                entries.insert(i, (key, value));
                proof {
                    let e1 = entries@;
                    assert(e1 =~= e0.update(i as int, e1[i as int]));
                    assert(keys_distinct(e1)) by {
                        assert forall|a: int, b: int| 0 <= a < b < e1.len() implies #[trigger] e1[a].0@ != #[trigger] e1[b].0@ by {
                            if a != i && b != i {
                                assert(e1[a] == e0[a] && e1[b] == e0[b]);
                            } else if a == i {
                                assert(e1[b] == e0[b]);
                            } else {
                                assert(e1[a] == e0[a]);
                            }
                        }
                    }
                    lemma_entries_map(e1);
                    assert(entries_map(e1) =~= entries_map(e0).insert(k, value)) by {
                        assert forall|x: Seq<char>| #[trigger] entries_map(e1).contains_key(x) implies entries_map(e0).insert(k, value).contains_key(x) by {
                            let j = choose|j: int| 0 <= j < e1.len() && e1[j].0@ == x;
                            if j != i {
                                assert(e1[j] == e0[j]);
                            }
                        }
                        assert forall|x: Seq<char>| #[trigger] entries_map(e0).insert(k, value).contains_key(x) implies entries_map(e1).contains_key(x) && entries_map(e1)[x] == entries_map(e0).insert(k, value)[x] by {
                            if x == k {
                                assert(e1[i as int].0@ == k && e1[i as int].1 == value);
                                assert(entries_map(e1).contains_key(e1[i as int].0@));
                            } else {
                                let j = choose|j: int| 0 <= j < e0.len() && e0[j].0@ == x;
                                assert(e1[j] == e0[j]);
                                assert(entries_map(e1).contains_key(e1[j].0@));
                                assert(entries_map(e0).contains_key(e0[j].0@));
                            }
                        }
                    }
                }
                self.entries = entries;
            },
            None => {
                let mut entries: Vec<(String, V)> = Vec::new();
                std::mem::swap(&mut entries, &mut self.entries);
                entries.push((key, value));
                proof {
                    let e1 = entries@;
                    assert(e1.drop_last() =~= e0);
                    assert(keys_distinct(e1)) by {
                        assert forall|a: int, b: int| 0 <= a < b < e1.len() implies #[trigger] e1[a].0@ != #[trigger] e1[b].0@ by {
                            if b < e0.len() {
                                assert(e1[a] == e0[a] && e1[b] == e0[b]);
                            } else {
                                assert(e1[a] == e0[a]);
                            }
                        }
                    }
                }
                self.entries = entries;
            },
        }
    }

    /// Takes `key` and its value out of the map.
    pub fn remove(&mut self, key: &String) -> (r: Option<V>)
        ensures
            final(self)@ == old(self)@.remove(key@),
            match r {
                Some(v) => old(self)@.contains_key(key@) && old(self)@[key@] == v,
                None => !old(self)@.contains_key(key@),
            },
    {
        proof {
            use_type_invariant(&*self);
            lemma_entries_map(self.entries@);
        }
        let ghost e0 = self.entries@;
        match self.find(key) {
            Some(i) => {
                let mut entries: Vec<(String, V)> = Vec::new();
                std::mem::swap(&mut entries, &mut self.entries);
                let (_, v) = entries.remove(i);
                proof {
                    let e1 = entries@;
                    assert(keys_distinct(e1)) by {
                        assert forall|a: int, b: int| 0 <= a < b < e1.len() implies #[trigger] e1[a].0@ != #[trigger] e1[b].0@ by {
                            let a0 = if a < i { a } else { a + 1 };
                            let b0 = if b < i { b } else { b + 1 };
                            assert(e1[a] == e0[a0] && e1[b] == e0[b0]);
                        }
                    }
                    lemma_entries_map(e1);
                    assert(entries_map(e1) =~= entries_map(e0).remove(key@)) by {
                        assert forall|x: Seq<char>| #[trigger] entries_map(e1).contains_key(x) implies entries_map(e0).remove(key@).contains_key(x) && entries_map(e1)[x] == entries_map(e0)[x] by {
                            let j = choose|j: int| 0 <= j < e1.len() && e1[j].0@ == x;
                            let j0 = if j < i { j } else { j + 1 };
                            assert(e1[j] == e0[j0]);
                        }
                        assert forall|x: Seq<char>| #[trigger] entries_map(e0).remove(key@).contains_key(x) implies entries_map(e1).contains_key(x) by {
                            let j = choose|j: int| 0 <= j < e0.len() && e0[j].0@ == x;
                            if j < i {
                                assert(e1[j] == e0[j]);
                            } else {
                                assert(e1[j - 1] == e0[j]);
                            }
                        }
                    }
                }
                self.entries = entries;
                Some(v)
            },
            None => {
                assert(entries_map(e0) =~= entries_map(e0).remove(key@));
                None
            },
        }
    }
}

} // verus!
