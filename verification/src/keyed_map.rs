//! A finite map from text-identified keys to values, kept as an association
//! list whose keys are pairwise distinct.

use vstd::prelude::*;

verus! {

/// A key whose identity is its text: two keys are the same key exactly when
/// their views are equal.
pub trait TextKey: View + Sized {
    fn same_key(&self, other: &Self) -> (r: bool)
        ensures
            r == (self@ == other@),
    ;

    fn copy_key(&self) -> (r: Self)
        ensures
            r == *self,
    ;
}

impl TextKey for String {
    fn same_key(&self, other: &Self) -> (r: bool) {
        *self == *other
    }

    fn copy_key(&self) -> (r: Self) {
        self.clone()
    }
}

/// Keys in `s` are pairwise distinct (by view).
pub open spec fn distinct_keys<K: View, V>(s: Seq<(K, V)>) -> bool {
    forall|i: int, j: int|
        0 <= i < s.len() && 0 <= j < s.len() && i != j ==> #[trigger] s[i].0@ != #[trigger] s[j].0@
}

/// A map whose entries are stored in insertion order with distinct keys.
#[verifier::reject_recursive_types(K)]
#[verifier::reject_recursive_types(V)]
#[derive(Debug)]
pub struct KeyedMap<K: TextKey, V> {
    entries: Vec<(K, V)>,
}

impl<K: TextKey, V> View for KeyedMap<K, V> {
    type V = Map<K::V, V>;

    open spec fn view(&self) -> Map<K::V, V> {
        Map::new(|k: K::V| self.has_key(k), |k: K::V| self.entries()[self.index_of(k)].1)
    }
}

impl<K: TextKey, V> KeyedMap<K, V> {
    /// The stored entries, in insertion order.
    pub closed spec fn entries(&self) -> Seq<(K, V)> {
        self.entries@
    }

    #[verifier::type_invariant]
    pub open spec fn wf(&self) -> bool {
        distinct_keys(self.entries())
    }

    /// `k` is the key of some entry.
    pub open spec fn has_key(&self, k: K::V) -> bool {
        exists|i: int| 0 <= i < self.entries().len() && #[trigger] self.entries()[i].0@ == k
    }

    /// The position of the entry whose key is `k`.
    pub open spec fn index_of(&self, k: K::V) -> int {
        choose|i: int| 0 <= i < self.entries().len() && #[trigger] self.entries()[i].0@ == k
    }

    /// Entry `i`'s key is in the map and is bound to entry `i`'s value.
    pub proof fn lemma_entry(&self, i: int)
        requires
            self.wf(),
            0 <= i < self.entries().len(),
        ensures
            self@.contains_key(self.entries()[i].0@),
            self@[self.entries()[i].0@] == self.entries()[i].1,
            self.index_of(self.entries()[i].0@) == i,
    {
        let k = self.entries()[i].0@;
        assert(self.has_key(k));
        let j = self.index_of(k);
        assert(self.entries()[j].0@ == k);
    }

    /// Every key of the map is the key of some entry.
    pub proof fn lemma_key(&self, k: K::V)
        requires
            self.wf(),
            self@.contains_key(k),
        ensures
            0 <= self.index_of(k) < self.entries().len(),
            self.entries()[self.index_of(k)].0@ == k,
            self@[k] == self.entries()[self.index_of(k)].1,
    {
    }

    /// The keys, in insertion order.
    pub open spec fn keys(&self) -> Seq<K::V> {
        self.entries().map_values(|e: (K, V)| e.0@)
    }

    /// The keys are distinct, they are the map's domain, and there are as
    /// many of them as entries.
    pub proof fn lemma_keys(&self)
        requires
            self.wf(),
        ensures
            self.keys().no_duplicates(),
            self.keys().to_set() == self@.dom(),
            self@.dom().finite(),
            self@.dom().len() == self.entries().len(),
    {
        let ks = self.keys();
        assert forall|x: K::V| ks.to_set().contains(x) <==> #[trigger] self@.dom().contains(x) by {
            if ks.contains(x) {
                let j = choose|j: int| 0 <= j < ks.len() && ks[j] == x;
                assert(self.entries()[j].0@ == x);
            }
            if self@.dom().contains(x) {
                let j = self.index_of(x);
                assert(ks[j] == x);
            }
        }
        assert(ks.to_set() =~= self@.dom());
        ks.unique_seq_to_set();
    }

    pub fn new() -> (r: Self)
        ensures
            r.entries() == Seq::<(K, V)>::empty(),
            r@ == Map::<K::V, V>::empty(),
    {
        let r = KeyedMap { entries: Vec::new() };
        assert(r@ =~= Map::<K::V, V>::empty());
        r
    }

    pub fn len(&self) -> (r: usize)
        ensures
            r == self.entries().len(),
            r == self@.len(),
    {
        proof {
            use_type_invariant(self);
            self.lemma_keys();
        }
        self.entries.len()
    }

    pub fn is_empty(&self) -> (r: bool)
        ensures
            r == (self.entries().len() == 0),
            r == (self@ == Map::<K::V, V>::empty()),
    {
        proof {
            if self.entries().len() > 0 {
                use_type_invariant(self);
                self.lemma_entry(0);
                assert(self@.contains_key(self.entries()[0].0@));
            } else {
                assert(self@ =~= Map::<K::V, V>::empty());
            }
        }
        self.entries.len() == 0
    }

    pub fn entry_at(&self, i: usize) -> (r: (&K, &V))
        requires
            i < self.entries().len(),
        ensures
            *r.0 == self.entries()[i as int].0,
            *r.1 == self.entries()[i as int].1,
    {
        (&self.entries[i].0, &self.entries[i].1)
    }

    /// Position of the entry whose key is `k`, if there is one.
    fn find(&self, k: &K) -> (r: Option<usize>)
        ensures
            match r {
                Some(i) => i < self.entries().len() && self.entries()[i as int].0@ == k@,
                None => !self.has_key(k@),
            },
    {
        let mut i: usize = 0;
        while i < self.entries.len()
            invariant
                i <= self.entries().len(),
                forall|j: int| 0 <= j < i ==> self.entries()[j].0@ != k@,
            decreases self.entries().len() - i,
        {
            if self.entries[i].0.same_key(k) {
                return Some(i);
            }
            i = i + 1;
        }
        None
    }

    pub fn contains(&self, k: &K) -> (r: bool)
        ensures
            r == self@.contains_key(k@),
    {
        self.find(k).is_some()
    }

    pub fn lookup(&self, k: &K) -> (r: Option<&V>)
        ensures
            match r {
                Some(v) => self@.contains_key(k@) && *v == self@[k@],
                None => !self@.contains_key(k@),
            },
    {
        proof { use_type_invariant(self); }
        match self.find(k) {
            Some(i) => {
                proof { self.lemma_entry(i as int); }
                Some(&self.entries[i].1)
            },
            None => None,
        }
    }

    /// Replacing entry `i` by an entry with an equal key rebinds that key.
    proof fn lemma_update(a: Self, b: Self, i: int, e: (K, V))
        requires
            a.wf(),
            0 <= i < a.entries().len(),
            e.0@ == a.entries()[i].0@,
            b.entries() == a.entries().update(i, e),
        ensures
            b.wf(),
            b@ == a@.insert(e.0@, e.1),
    {
        let kv = e.0@;
        assert(b.wf());
        assert forall|x: K::V| #[trigger] b@.contains_key(x) <==> a@.insert(kv, e.1).contains_key(x) by {
            if b@.contains_key(x) {
                let j = choose|j: int| 0 <= j < b.entries().len() && #[trigger] b.entries()[j].0@ == x;
                assert(a.entries()[j].0@ == x);
            }
            if a@.contains_key(x) {
                let j = choose|j: int| 0 <= j < a.entries().len() && #[trigger] a.entries()[j].0@ == x;
                assert(b.entries()[j].0@ == x);
            }
            if x == kv {
                assert(b.entries()[i].0@ == x);
            }
        }
        assert forall|x: K::V| #[trigger] b@.contains_key(x) implies b@[x] == a@.insert(kv, e.1)[x] by {
            b.lemma_key(x);
            let j = b.index_of(x);
            if x != kv {
                assert(a.entries()[j].0@ == x);
                a.lemma_entry(j);
            } else {
                b.lemma_entry(i);
            }
        }
        assert(b@ =~= a@.insert(kv, e.1));
    }

    /// Appending an entry with a new key binds that key.
    proof fn lemma_push(a: Self, b: Self, e: (K, V))
        requires
            a.wf(),
            !a@.contains_key(e.0@),
            b.entries() == a.entries().push(e),
        ensures
            b.wf(),
            b@ == a@.insert(e.0@, e.1),
    {
        let kv = e.0@;
        let n = a.entries().len() as int;
        assert forall|i: int, j: int|
            0 <= i < b.entries().len() && 0 <= j < b.entries().len() && i != j
            implies #[trigger] b.entries()[i].0@ != #[trigger] b.entries()[j].0@ by {
            if i == n {
                assert(!a.has_key(kv));
                assert(a.entries()[j].0@ != kv);
            } else if j == n {
                assert(!a.has_key(kv));
                assert(a.entries()[i].0@ != kv);
            }
        }
        assert forall|x: K::V| #[trigger] b@.contains_key(x) <==> a@.insert(kv, e.1).contains_key(x) by {
            if b@.contains_key(x) {
                let j = choose|j: int| 0 <= j < b.entries().len() && #[trigger] b.entries()[j].0@ == x;
                if j < n {
                    assert(a.entries()[j].0@ == x);
                }
            }
            if a@.contains_key(x) {
                let j = choose|j: int| 0 <= j < a.entries().len() && #[trigger] a.entries()[j].0@ == x;
                assert(b.entries()[j].0@ == x);
            }
            if x == kv {
                assert(b.entries()[n].0@ == x);
            }
        }
        assert forall|x: K::V| #[trigger] b@.contains_key(x) implies b@[x] == a@.insert(kv, e.1)[x] by {
            b.lemma_key(x);
            let j = b.index_of(x);
            if x != kv {
                assert(a.entries()[j].0@ == x);
                a.lemma_entry(j);
            } else {
                b.lemma_entry(n);
            }
        }
        assert(b@ =~= a@.insert(kv, e.1));
    }

    /// Binds `k` to `v`, replacing the entry of an equal key in place or
    /// appending a new entry.
    pub fn insert(&mut self, k: K, v: V)
        ensures
            final(self)@ == old(self)@.insert(k@, v),
            old(self)@.contains_key(k@) ==> final(self).entries() == old(self).entries().update(
                old(self).index_of(k@),
                (k, v),
            ),
            !old(self)@.contains_key(k@) ==> final(self).entries() == old(self).entries().push(
                (k, v),
            ),
    {
        proof { use_type_invariant(&*self); }
        let pos = self.find(&k);
        let ghost old_map = *self;
        let mut entries: Vec<(K, V)> = Vec::new();
        std::mem::swap(&mut entries, &mut self.entries);
        let ghost kv = k@;
        let ghost e = (k, v);
        match pos {
            Some(i) => {
                proof { old_map.lemma_entry(i as int); }
                entries.set(i, (k, v));
                proof {
                    let b = KeyedMap { entries };
                    Self::lemma_update(old_map, b, i as int, e);
                }
            },
            None => {
                entries.push((k, v));
                proof {
                    let b = KeyedMap { entries };
                    Self::lemma_push(old_map, b, e);
                }
            },
        }
        self.entries = entries;
    }
}

impl<V> KeyedMap<String, V> {
    /// Looks a value up by the text of its key.
    pub fn get(&self, k: &str) -> (r: Option<&V>)
        ensures
            match r {
                Some(v) => self@.contains_key(k@) && *v == self@[k@],
                None => !self@.contains_key(k@),
            },
    {
        let key = String::from_str(k);
        self.lookup(&key)
    }

    /// Whether some key has the text `k`.
    pub fn contains_key(&self, k: &str) -> (r: bool)
        ensures
            r == self@.contains_key(k@),
    {
        let key = String::from_str(k);
        self.contains(&key)
    }
}

impl<K: TextKey, T> KeyedMap<K, Vec<T>> {
    /// Appends `x` to the list bound to `k`, binding `k` to `[x]` when it
    /// has no list yet.
    pub fn append_value(&mut self, k: K, x: T)
        ensures
            final(self)@.dom() == old(self)@.dom().insert(k@),
            final(self)@[k@]@ == if old(self)@.contains_key(k@) {
                old(self)@[k@]@.push(x)
            } else {
                seq![x]
            },
            forall|j: K::V| j != k@ && #[trigger] old(self)@.contains_key(j) ==> final(self)@[j] == old(self)@[j],
            old(self)@.contains_key(k@) ==> {
                let i = old(self).index_of(k@);
                final(self).entries() == old(self).entries().update(
                    i,
                    (old(self).entries()[i].0, final(self)@[k@]),
                )
            },
            !old(self)@.contains_key(k@) ==> final(self).entries() == old(self).entries().push(
                (k, final(self)@[k@]),
            ),
    {
        proof { use_type_invariant(&*self); }
        match self.find(&k) {
            Some(i) => {
                proof { self.lemma_entry(i as int); }
                let ghost old_map = *self;
                let mut entries: Vec<(K, Vec<T>)> = Vec::new();
                std::mem::swap(&mut entries, &mut self.entries);
                let ghost olde = entries@;
                let (kk, mut list) = entries.remove(i);
                list.push(x);
                let ghost e = (kk, list);
                entries.insert(i, (kk, list));
                proof {
                    assert(entries@ =~= olde.update(i as int, e));
                    let b = KeyedMap { entries };
                    Self::lemma_update(old_map, b, i as int, e);
                    b.lemma_entry(i as int);
                }
                self.entries = entries;
            },
            None => {
                let mut list: Vec<T> = Vec::new();
                list.push(x);
                self.insert(k, list);
            },
        }
    }
}

impl<K: TextKey, V: TextKey> KeyedMap<K, V> {
    /// An entry-by-entry copy.
    pub fn duplicate(&self) -> (r: Self)
        ensures
            r.entries() == self.entries(),
            r@ == self@,
    {
        proof { use_type_invariant(self); }
        let mut entries: Vec<(K, V)> = Vec::new();
        let n = self.entries.len();
        let mut i: usize = 0;
        while i < n
            invariant
                n == self.entries@.len(),
                i <= n,
                entries@ == self.entries@.take(i as int),
            decreases n - i,
        {
            let e = (self.entries[i].0.copy_key(), self.entries[i].1.copy_key());
            entries.push(e);
            i = i + 1;
            assert(entries@ =~= self.entries@.take(i as int));
        }
        assert(entries@ =~= self.entries@);
        KeyedMap { entries }
    }
}

} // verus!
