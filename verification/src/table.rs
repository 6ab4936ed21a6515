//! A table from names to values.

use vstd::prelude::*;

use crate::text::same;

verus! {

#[derive(Debug, Clone)]
struct Entry<V> {
    key: String,
    value: V,
}

/// Values filed under names, one value per name.
#[derive(Debug, Clone)]
pub struct Table<V> {
    entries: Vec<Entry<V>>,
}

impl<V> Table<V> {
    /// The names in the table, in the order in which they came.
    pub closed spec fn keys(self) -> Seq<Seq<char>> {
        Seq::new(self.entries@.len(), |i: int| self.entries@[i].key@)
    }

    closed spec fn place(self, key: Seq<char>) -> int {
        choose|i: int| 0 <= i < self.keys().len() && #[trigger] self.keys()[i] == key
    }

    /// The value under each name.
    pub closed spec fn view(self) -> Map<Seq<char>, V> {
        Map::new(|k: Seq<char>| self.keys().contains(k), |k: Seq<char>| self.entries@[self.place(k)].value)
    }

    /// No name occurs twice.
    pub closed spec fn wf(self) -> bool {
        self.keys().no_duplicates()
    }

    proof fn lemma_place(self, i: int)
        requires
            self.wf(),
            0 <= i < self.entries@.len(),
        ensures
            self@.dom().contains(self.entries@[i].key@),
            self@[self.entries@[i].key@] == self.entries@[i].value,
    {
        let k = self.entries@[i].key@;
        assert(self.keys()[i] == k);
        let j = self.place(k);
        assert(self.keys()[j] == k);
        assert(i == j);
    }

    /// `other` is this table but for the value in place `i`.
    closed spec fn differs_at(self, other: Table<V>, i: int) -> bool {
        other.entries@ == self.entries@.update(
            i,
            Entry { key: self.entries@[i].key, value: other.entries@[i].value },
        )
    }

    proof fn lemma_replaced(self, other: Table<V>, i: int)
        requires
            self.wf(),
            0 <= i < self.entries@.len(),
            self.differs_at(other, i),
        ensures
            other.wf(),
            other@ == self@.insert(self.entries@[i].key@, other.entries@[i].value),
    {
        let k = self.entries@[i].key@;
        assert(other.keys() =~= self.keys());
        self.lemma_place(i);
        other.lemma_place(i);
        assert forall|n: Seq<char>| other@.dom().contains(n) && n != k implies #[trigger] other@[n] == self@[n] by {
            let j = other.place(n);
            assert(other.keys()[j] == n);
            other.lemma_place(j);
            self.lemma_place(j);
        }
        assert(other@ =~= self@.insert(k, other.entries@[i].value));
    }

    /// The names are exactly those that have a value, each listed once.
    pub proof fn lemma_keys(self)
        requires
            self.wf(),
        ensures
            self.keys().no_duplicates(),
            self.keys().to_set() == self@.dom(),
            self@.dom().finite(),
            self@.dom().len() == self.keys().len(),
    {
        assert(self.keys().to_set() =~= self@.dom());
        self.keys().unique_seq_to_set();
    }

    pub fn new() -> (r: Table<V>)
        ensures
            r.wf(),
            r@ == Map::<Seq<char>, V>::empty(),
    {
        let r: Table<V> = Table { entries: Vec::new() };
        assert(r@ =~= Map::<Seq<char>, V>::empty());
        r
    }

    /// How many names have a value.
    pub fn len(&self) -> (r: usize)
        requires
            self.wf(),
        ensures
            r == self@.dom().len(),
            r == self.keys().len(),
    {
        proof {
            self.lemma_keys();
        }
        self.entries.len()
    }

    fn position(&self, key: &str) -> (r: Option<usize>)
        ensures
            match r {
                Some(i) => i < self.entries@.len() && self.entries@[i as int].key@ == key@,
                None => forall|i: int| 0 <= i < self.entries@.len() ==> (#[trigger] self.entries@[i]).key@ != key@,
            },
    {
        let mut i: usize = 0;
        while i < self.entries.len()
            invariant
                i <= self.entries@.len(),
                forall|j: int| 0 <= j < i ==> (#[trigger] self.entries@[j]).key@ != key@,
            decreases self.entries@.len() - i,
        {
            if same(self.entries[i].key.as_str(), key) {
                return Some(i);
            }
            i = i + 1;
        }
        None
    }

    /// The value under a name.
    pub fn get(&self, key: &str) -> (r: Option<&V>)
        requires
            self.wf(),
        ensures
            match r {
                Some(v) => self@.dom().contains(key@) && *v == self@[key@],
                None => !self@.dom().contains(key@),
            },
    {
        match self.position(key) {
            Some(i) => {
                proof {
                    self.lemma_place(i as int);
                }
                Some(&self.entries[i].value)
            },
            None => {
                assert(!self.keys().contains(key@));
                None
            },
        }
    }

    /// The value filed in place `i`.
    pub fn value_at(&self, i: usize) -> (r: &V)
        requires
            self.wf(),
            i < self.keys().len(),
        ensures
            self@.dom().contains(self.keys()[i as int]),
            *r == self@[self.keys()[i as int]],
    {
        proof {
            self.lemma_place(i as int);
        }
        &self.entries[i].value
    }

    /// Files a value under a name, in place of the one that was there.
    pub fn insert(&mut self, key: String, value: V)
        requires
            old(self).wf(),
        ensures
            final(self).wf(),
            final(self)@ == old(self)@.insert(key@, value),
    {
        let ghost before = *self;
        match self.position(key.as_str()) {
            Some(i) => {
                self.entries[i].value = value;
                proof {
                    before.lemma_replaced(*self, i as int);
                }
            },
            None => {
                self.entries.push(Entry { key, value });
                proof {
                    let n = before.entries@.len() as int;
                    assert(!before.keys().contains(key@));
                    assert(self.keys() =~= before.keys().push(key@));
                    assert(self.wf());
                    self.lemma_place(n);
                    assert forall|k: Seq<char>| before@.dom().contains(k) implies #[trigger] self@[k] == before@[k] by {
                        let j = before.place(k);
                        assert(before.keys()[j] == k);
                        before.lemma_place(j);
                        self.lemma_place(j);
                        assert(self.entries@[j] == before.entries@[j]);
                    }
                    assert forall|k: Seq<char>| self@.dom().contains(k) <==> k == key@ || before@.dom().contains(k) by {
                        if self.keys().contains(k) {
                            let j = self.place(k);
                            assert(self.keys()[j] == k);
                            if j < n {
                                assert(before.keys()[j] == k);
                            }
                        }
                        if before.keys().contains(k) {
                            let j = before.place(k);
                            assert(before.keys()[j] == k);
                            assert(self.keys()[j] == k);
                        }
                    }
                    assert(self@ =~= before@.insert(key@, value));
                }
            },
        }
    }

    /// The value under a name, to be changed in place.
    pub fn get_mut(&mut self, key: &str) -> (r: Option<&mut V>)
        requires
            old(self).wf(),
        ensures
            final(self).wf(),
            match r {
                Some(v) => {
                    &&& old(self)@.dom().contains(key@)
                    &&& *v == old(self)@[key@]
                    &&& final(self)@ == old(self)@.insert(key@, *final(v))
                },
                None => !old(self)@.dom().contains(key@) && final(self)@ == old(self)@,
            },
    {
        match self.position(key) {
            Some(i) => {
                let ghost before = *self;
                proof {
                    before.lemma_place(i as int);
                    assert forall|after: Table<V>|
                        #![trigger after.wf()]
                        #![trigger after@]
                        before.differs_at(after, i as int) implies after.wf() && after@ == before@.insert(
                        key@,
                        after.entries@[i as int].value,
                    ) by {
                        before.lemma_replaced(after, i as int);
                    }
                }
                Some(&mut self.entries[i].value)
            },
            None => {
                assert(!self.keys().contains(key@));
                None
            },
        }
    }
}

} // verus!
