use vstd::prelude::*;

verus! {

/// A map from names to values, kept as a list of entries with distinct names.
#[derive(Debug, PartialEq, Eq)]
pub struct NameMap<T> {
    entries: Vec<(String, T)>,
}

impl<T: View> View for NameMap<T> {
    type V = Map<Seq<char>, T::V>;

    closed spec fn view(&self) -> Map<Seq<char>, T::V> {
        Map::new(|k: Seq<char>| self.has_key(k), |k: Seq<char>| self.entries@[self.index_of(k)].1@)
    }
}

impl<T> NameMap<T> {
    /// No name occurs in two entries.
    #[verifier::type_invariant]
    pub closed spec fn wf(&self) -> bool {
        forall|i: int, j: int|
            0 <= i < j < self.entries@.len() ==> #[trigger] self.entries@[i].0@
                != #[trigger] self.entries@[j].0@
    }
}

impl<T: View> NameMap<T> {
    spec fn has_key(&self, k: Seq<char>) -> bool {
        exists|i: int| 0 <= i < self.entries@.len() && #[trigger] self.entries@[i].0@ == k
    }

    spec fn index_of(&self, k: Seq<char>) -> int {
        choose|i: int| 0 <= i < self.entries@.len() && #[trigger] self.entries@[i].0@ == k
    }

    /// The number of entries.
    pub closed spec fn spec_len(&self) -> nat {
        self.entries@.len()
    }

    /// The name of the `i`-th entry.
    pub closed spec fn key_at(&self, i: int) -> Seq<char> {
        self.entries@[i].0@
    }

    /// The value of the `i`-th entry.
    pub closed spec fn value_at(&self, i: int) -> T {
        self.entries@[i].1
    }

    proof fn lemma_index_of(&self, i: int)
        requires
            self.wf(),
            0 <= i < self.entries@.len(),
        ensures
            self.has_key(self.entries@[i].0@),
            self.index_of(self.entries@[i].0@) == i,
    {
        let k = self.entries@[i].0@;
        assert(self.has_key(k));
        let j = self.index_of(k);
        if j != i {
            if j < i {
                assert(self.entries@[j].0@ != self.entries@[i].0@);
            } else {
                assert(self.entries@[i].0@ != self.entries@[j].0@);
            }
        }
    }

    /// The `i`-th entry is in the map, under its own name.
    pub proof fn lemma_entry(&self, i: int)
        requires
            self.wf(),
            0 <= i < self.spec_len(),
        ensures
            self@.contains_key(self.key_at(i)),
            self@[self.key_at(i)] == self.value_at(i)@,
    {
        self.lemma_index_of(i);
    }

    /// Every name in the map is the name of an entry.
    pub proof fn lemma_key(&self, k: Seq<char>)
        requires
            self.wf(),
            self@.contains_key(k),
        ensures
            exists|i: int| 0 <= i < self.spec_len() && self.key_at(i) == k && self.value_at(i)@ == self@[k],
    {
        let i = self.index_of(k);
        assert(self.key_at(i) == k);
    }

    pub fn new() -> (m: Self)
        ensures
            m@ == Map::<Seq<char>, T::V>::empty(),
            m.spec_len() == 0,
    {
        let m = NameMap { entries: Vec::new() };
        assert(m@ =~= Map::<Seq<char>, T::V>::empty());
        m
    }

    /// The position of the entry named `key`.
    fn position(&self, key: &String) -> (pos: Option<usize>)
        ensures
            match pos {
                Some(i) => i < self.entries@.len() && self.entries@[i as int].0@ == key@,
                None => !self.has_key(key@),
            },
    {
        let mut i: usize = 0;
        while i < self.entries.len()
            invariant
                i <= self.entries@.len(),
                forall|j: int| 0 <= j < i ==> #[trigger] self.entries@[j].0@ != key@,
            decreases self.entries@.len() - i,
        {
            if self.entries[i].0 == *key {
                return Some(i);
            }
            i = i + 1;
        }
        None
    }

    /// The value stored under `key`, if any.
    pub fn get(&self, key: &str) -> (v: Option<&T>)
        ensures
            match v {
                Some(v) => self@.contains_key(key@) && v@ == self@[key@],
                None => !self@.contains_key(key@),
            },
    {
        proof {
            use_type_invariant(self);
        }
        let k = key.to_owned();
        match self.position(&k) {
            Some(i) => {
                proof {
                    self.lemma_index_of(i as int);
                }
                Some(&self.entries[i].1)
            },
            None => None,
        }
    }

    /// Stores `value` under `key`, replacing what was stored there.
    pub fn insert(&mut self, key: String, value: T)
        ensures
            final(self)@ == old(self)@.insert(key@, value@),
            old(self)@.contains_key(key@) ==> final(self).spec_len() == old(self).spec_len(),
            !old(self)@.contains_key(key@) ==> final(self).spec_len() == old(self).spec_len() + 1,
    {
        proof {
            use_type_invariant(&*self);
        }
        let ghost old_map = *self;
        let ghost value_view = value@;
        let pos = self.position(&key);
        let mut entries: Vec<(String, T)> = Vec::new();
        std::mem::swap(&mut entries, &mut self.entries);
        match pos {
            Some(i) => {
                proof {
                    old_map.lemma_index_of(i as int);
                }
                entries.set(i, (key, value));
                assert forall|a: int, b: int| 0 <= a < b < entries@.len() implies #[trigger] entries@[a].0@
                    != #[trigger] entries@[b].0@ by {
                    assert(old_map.entries@[a].0@ != old_map.entries@[b].0@);
                }
                self.entries = entries;
                proof {
                    assert forall|k: Seq<char>| k != self.entries@[i as int].0@ implies
                        (self.has_key(k) == old_map.has_key(k)) && (self.has_key(k) ==> self.index_of(k) == old_map.index_of(k)) by {
                        if self.has_key(k) {
                            let j = self.index_of(k);
                            assert(old_map.entries@[j].0@ == k);
                            old_map.lemma_index_of(j);
                        }
                        if old_map.has_key(k) {
                            let j = old_map.index_of(k);
                            assert(self.entries@[j].0@ == k);
                        }
                    }
                    self.lemma_index_of(i as int);
                    assert(self@ =~= old_map@.insert(key@, value_view));
                }
            },
            None => {
                entries.push((key, value));
                assert forall|a: int, b: int| 0 <= a < b < entries@.len() implies #[trigger] entries@[a].0@
                    != #[trigger] entries@[b].0@ by {
                    if b < old_map.entries@.len() {
                        assert(old_map.entries@[a].0@ != old_map.entries@[b].0@);
                    } else {
                        assert(entries@[a].0@ == old_map.entries@[a].0@);
                    }
                }
                self.entries = entries;
                proof {
                    let n = old_map.entries@.len() as int;
                    assert forall|k: Seq<char>| k != self.entries@[n].0@ implies
                        (self.has_key(k) == old_map.has_key(k)) && (self.has_key(k) ==> self.index_of(k) == old_map.index_of(k)) by {
                        if self.has_key(k) {
                            let j = self.index_of(k);
                            assert(old_map.entries@[j].0@ == k);
                            old_map.lemma_index_of(j);
                            self.lemma_index_of(j);
                        }
                        if old_map.has_key(k) {
                            let j = old_map.index_of(k);
                            assert(self.entries@[j].0@ == k);
                        }
                    }
                    self.lemma_index_of(n);
                    assert(self@ =~= old_map@.insert(key@, value_view));
                }
            },
        }
    }

    /// The number of entries.
    pub fn len(&self) -> (n: usize)
        ensures
            n == self.spec_len(),
    {
        self.entries.len()
    }

    /// The value of the `i`-th entry.
    pub fn value(&self, i: usize) -> (v: &T)
        requires
            i < self.spec_len(),
        ensures
            *v == self.value_at(i as int),
    {
        &self.entries[i].1
    }
}

} // verus!
