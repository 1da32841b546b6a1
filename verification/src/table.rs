//! A small association list: keys told apart by their views, each at most
//! once, in the order in which they first came.

use vstd::prelude::*;

verus! {

/// A key of a [`Table`]: two keys are the same when their views are.
pub trait TableKey: View + Sized {
    /// Whether `self` and `other` are the same key.
    fn same_key(&self, other: &Self) -> (r: bool)
        ensures
            r == (self@ == other@),
    ;

    /// A copy of the key.
    fn copy_key(&self) -> (r: Self)
        ensures
            r@ == self@,
    ;
}

impl TableKey for String {
    fn same_key(&self, other: &Self) -> (r: bool) {
        *self == *other
    }

    fn copy_key(&self) -> (r: Self) {
        self.clone()
    }
}

/// In a sequence without duplicates, as many positions pass a test as
/// members of its set do.
pub proof fn lemma_count_distinct<A>(keys: Seq<A>, test: spec_fn(A) -> bool)
    requires
        keys.no_duplicates(),
    ensures
        keys.to_set().filter(test).finite(),
        keys.filter(test).len() == keys.to_set().filter(test).len(),
    decreases keys.len(),
{
    reveal(Seq::filter);
    if keys.len() == 0 {
        assert(keys.to_set().filter(test) =~= Set::<A>::empty());
    } else {
        let rest = keys.drop_last();
        let last = keys.last();
        lemma_count_distinct(rest, test);
        assert(keys.to_set() =~= rest.to_set().insert(last)) by {
            assert forall|a: A| keys.to_set().contains(a) <==> rest.to_set().insert(last).contains(
                a,
            ) by {
                if keys.to_set().contains(a) {
                    let j = choose|j: int| 0 <= j < keys.len() && keys[j] == a;
                    if j < keys.len() - 1 {
                        assert(rest[j] == a);
                    }
                }
            }
        }
        if test(last) {
            assert(keys.to_set().filter(test) =~= rest.to_set().filter(test).insert(last));
        } else {
            assert(keys.to_set().filter(test) =~= rest.to_set().filter(test));
        }
    }
}

/// What is among the first `i + 1` members of a sequence is among the first
/// `i`, or is the member at `i`.
pub proof fn lemma_take_step<A>(s: Seq<A>, i: int, a: A)
    requires
        0 <= i < s.len(),
    ensures
        s.take(i + 1).contains(a) <==> (s.take(i).contains(a) || a == s[i]),
{
    let done = s.take(i);
    let next = s.take(i + 1);
    if done.contains(a) {
        let j = choose|j: int| 0 <= j < done.len() && done[j] == a;
        assert(next[j] == a);
    }
    if next.contains(a) {
        let j = choose|j: int| 0 <= j < next.len() && next[j] == a;
        if j < i {
            assert(done[j] == a);
        }
    }
    assert(next[i] == s[i]);
}

/// A finite map from keys to values, kept as a list of entries.
#[derive(Debug)]
pub struct Table<K: TableKey, V> {
    entries: Vec<(K, V)>,
}

impl<K: TableKey, V> Table<K, V> {
    /// The keys, in the order in which they were first inserted.
    pub closed spec fn keys(self) -> Seq<K::V> {
        self.entries@.map_values(|e: (K, V)| e.0@)
    }

    /// The values, each at the position of its key.
    pub closed spec fn values(self) -> Seq<V> {
        self.entries@.map_values(|e: (K, V)| e.1)
    }

    /// No key occurs twice.
    #[verifier::type_invariant]
    pub open spec fn wf(self) -> bool {
        &&& self.keys().no_duplicates()
        &&& self.keys().len() == self.values().len()
    }

    /// The table as a map.
    pub open spec fn view(self) -> Map<K::V, V> {
        Map::new(
            |k: K::V| self.keys().contains(k),
            |k: K::V| self.values()[self.keys().index_of(k)],
        )
    }

    /// The empty table.
    pub fn new() -> (r: Self)
        ensures
            r@ == Map::<K::V, V>::empty(),
            r.keys() == Seq::<K::V>::empty(),
            r.values() == Seq::<V>::empty(),
    {
        Table { entries: Vec::new() }
    }

    /// The number of keys.
    pub fn len(&self) -> (r: usize)
        ensures
            r == self.keys().len(),
            r == self.values().len(),
            self@.dom().finite(),
            r == self@.dom().len(),
            self.wf(),
    {
        proof {
            use_type_invariant(self);
            self.keys().unique_seq_to_set();
        }
        self.entries.len()
    }

    /// The key at position `i`.
    pub fn key_at(&self, i: usize) -> (r: &K)
        requires
            i < self.keys().len(),
        ensures
            r@ == self.keys()[i as int],
    {
        &self.entries[i].0
    }

    /// The value at position `i`.
    pub fn value_at(&self, i: usize) -> (r: &V)
        requires
            i < self.keys().len(),
        ensures
            *r == self.values()[i as int],
            self@.contains_key(self.keys()[i as int]),
            *r == self@[self.keys()[i as int]],
    {
        proof {
            use_type_invariant(self);
        }
        &self.entries[i].1
    }

    /// Where `key` stands, if it is there.
    pub fn position(&self, key: &K) -> (r: Option<usize>)
        ensures
            match r {
                Some(i) => i < self.keys().len() && self.keys()[i as int] == key@,
                None => !self.keys().contains(key@),
            },
    {
        let n: usize = self.entries.len();
        let mut i: usize = 0;
        while i < n
            invariant
                n == self.entries.len(),
                i <= n,
                forall|k: int| 0 <= k < i ==> self.keys()[k] != key@,
            decreases n - i,
        {
            if self.entries[i].0.same_key(key) {
                return Some(i);
            }
            i = i + 1;
        }
        None
    }

    /// Whether `key` has a value.
    pub fn contains_key(&self, key: &K) -> (r: bool)
        ensures
            r == self@.contains_key(key@),
    {
        self.position(key).is_some()
    }

    /// The value of `key`, if it has one.
    pub fn get(&self, key: &K) -> (r: Option<&V>)
        ensures
            match r {
                Some(v) => self@.contains_key(key@) && *v == self@[key@],
                None => !self@.contains_key(key@),
            },
    {
        proof {
            use_type_invariant(self);
        }
        match self.position(key) {
            Some(i) => Some(&self.entries[i].1),
            None => None,
        }
    }

    /// Gives `key` the value `value`, in place where the key is there, at the
    /// end where it is new.
    pub fn insert(&mut self, key: K, value: V)
        ensures
            final(self)@ == old(self)@.insert(key@, value),
            old(self)@.contains_key(key@) ==> final(self).keys() == old(self).keys(),
            !old(self)@.contains_key(key@) ==> final(self).keys() == old(self).keys().push(key@),
    {
        proof {
            use_type_invariant(&*self);
        }
        let found = self.position(&key);
        let ghost before = *self;
        let ghost k = key@;
        let mut entries: Vec<(K, V)> = Vec::new();
        std::mem::swap(&mut entries, &mut self.entries);
        match found {
            Some(i) => {
                entries.set(i, (key, value));
                assert(entries@.map_values(|e: (K, V)| e.0@) =~= before.keys());
            },
            None => {
                entries.push((key, value));
                assert(entries@.map_values(|e: (K, V)| e.0@) =~= before.keys().push(k));
            },
        }
        self.entries = entries;
        assert(self@ =~= before@.insert(k, value)) by {
            assert forall|q: K::V| self@.contains_key(q) <==> before@.insert(k, value).contains_key(
                q,
            ) by {
                if before.keys().contains(q) {
                    let j = choose|j: int| 0 <= j < before.keys().len() && before.keys()[j] == q;
                    assert(self.keys()[j] == q);
                }
                if q == k && found.is_none() {
                    assert(self.keys()[before.keys().len() as int] == q);
                }
            }
        }
    }
}

impl<K: TableKey> Clone for Table<K, i64> {
    fn clone(&self) -> (r: Self)
        ensures
            r@ == self@,
            r.keys() == self.keys(),
            r.values() == self.values(),
    {
        proof {
            use_type_invariant(self);
        }
        let n: usize = self.entries.len();
        let mut entries: Vec<(K, i64)> = Vec::new();
        let mut i: usize = 0;
        while i < n
            invariant
                n == self.entries.len(),
                i <= n,
                entries.len() == i,
                forall|k: int|
                    0 <= k < i ==> (#[trigger] entries[k]).0@ == self.entries[k].0@ && entries[k].1
                        == self.entries[k].1,
            decreases n - i,
        {
            entries.push((self.entries[i].0.copy_key(), self.entries[i].1));
            i = i + 1;
        }
        assert(entries@.map_values(|e: (K, i64)| e.0@) =~= self.keys());
        Table { entries }
    }
}

} // verus!
