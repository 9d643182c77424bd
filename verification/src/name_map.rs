//! A map from names to values that remembers the order in which the names
//! came.

use vstd::hash_map::StringHashMap;
use vstd::prelude::*;
use vstd::string::*;

verus! {

/// A map from names to values, in the order of first insertion.
#[verifier::reject_recursive_types(V)]
pub struct NameMap<V> {
    entries: Vec<(String, V)>,
    places: StringHashMap<usize>,
}

impl<V> View for NameMap<V> {
    type V = Map<Seq<char>, V>;

    closed spec fn view(&self) -> Map<Seq<char>, V> {
        Map::new(
            |k: Seq<char>| self.places@.contains_key(k),
            |k: Seq<char>| self.entries@[self.places@[k] as int].1,
        )
    }
}

impl<V> NameMap<V> {
    /// `places` gives each name its one place among the entries.
    #[verifier::type_invariant]
    closed spec fn indexed(&self) -> bool {
        &&& forall|i: int|
            0 <= i < self.entries@.len() ==> self.places@.contains_key(
                (#[trigger] self.entries@[i]).0@,
            ) && self.places@[self.entries@[i].0@] == i
        &&& forall|k: Seq<char>| #[trigger]
            self.places@.contains_key(k) ==> self.places@[k] < self.entries@.len()
                && self.entries@[self.places@[k] as int].0@ == k
    }

    /// The names, in the order in which they came.
    pub closed spec fn names(&self) -> Seq<Seq<char>> {
        Seq::new(self.entries@.len(), |i: int| self.entries@[i].0@)
    }

    /// Makes an empty map.
    pub fn new() -> (r: Self)
        ensures
            r@ == Map::<Seq<char>, V>::empty(),
            r.names() == Seq::<Seq<char>>::empty(),
    {
        let r = NameMap { entries: Vec::new(), places: StringHashMap::new() };
        assert(r@ =~= Map::<Seq<char>, V>::empty());
        assert(r.names() =~= Seq::<Seq<char>>::empty());
        r
    }

    /// Each name stands in the order once, and the names are those of the map.
    pub fn len(&self) -> (r: usize)
        ensures
            r == self.names().len(),
            self.names().no_duplicates(),
            forall|k: Seq<char>| self@.contains_key(k) <==> self.names().contains(k),
    {
        proof {
            use_type_invariant(self);
            self.lemma_names();
        }
        self.entries.len()
    }

    proof fn lemma_names(&self)
        requires
            self.indexed(),
        ensures
            self.names().no_duplicates(),
            forall|k: Seq<char>| self@.contains_key(k) <==> self.names().contains(k),
    {
        assert forall|k: Seq<char>| self@.contains_key(k) <==> self.names().contains(k) by {
            if self@.contains_key(k) {
                assert(self.names()[self.places@[k] as int] == k);
            }
            if self.names().contains(k) {
                let i = self.names().index_of(k);
                assert(self.entries@[i].0@ == k);
            }
        }
        assert forall|i: int, j: int|
            0 <= i < self.names().len() && 0 <= j < self.names().len() && i
                != j implies self.names()[i] != self.names()[j] by {
            assert(self.places@[self.entries@[i].0@] == i);
            assert(self.places@[self.entries@[j].0@] == j);
        }
    }

    /// The value of a name.
    pub fn get(&self, name: &str) -> (r: Option<&V>)
        ensures
            match r {
                Some(v) => self@.contains_key(name@) && *v == self@[name@],
                None => !self@.contains_key(name@),
            },
    {
        proof {
            use_type_invariant(self);
        }
        match self.places.get(name) {
            Some(i) => Some(&self.entries[*i].1),
            None => None,
        }
    }

    /// Is there a value for this name?
    pub fn contains(&self, name: &str) -> (r: bool)
        ensures
            r == self@.contains_key(name@),
    {
        self.places.contains_key(name)
    }

    /// The name at a place of the order.
    pub fn name_at(&self, i: usize) -> (r: &String)
        requires
            i < self.names().len(),
        ensures
            r@ == self.names()[i as int],
    {
        &self.entries[i].0
    }

    /// The value of the name at a place of the order.
    pub fn value_at(&self, i: usize) -> (r: &V)
        requires
            i < self.names().len(),
        ensures
            self@.contains_key(self.names()[i as int]),
            *r == self@[self.names()[i as int]],
    {
        proof {
            use_type_invariant(self);
            assert(self.entries@[i as int].0@ == self.names()[i as int]);
        }
        &self.entries[i].1
    }

    /// Sets the value of a name. A new name comes last in the order; one that is
    /// there keeps its place.
    pub fn insert(&mut self, name: String, value: V)
        ensures
            final(self)@ == old(self)@.insert(name@, value),
            final(self).names() == if old(self)@.contains_key(name@) {
                old(self).names()
            } else {
                old(self).names().push(name@)
            },
    {
        proof {
            use_type_invariant(&*self);
        }
        let ghost was = *self;
        let mut taken: NameMap<V> = NameMap { entries: Vec::new(), places: StringHashMap::new() };
        core::mem::swap(self, &mut taken);
        let NameMap { mut entries, mut places } = taken;
        let ghost key = name@;
        let found: Option<usize> = match places.get(name.as_str()) {
            Some(i) => Some(*i),
            None => None,
        };
        match found {
            Some(i) => {
                entries.set(i, (name, value));
            },
            None => {
                let n: usize = entries.len();
                places.insert(name.clone(), n);
                entries.push((name, value));
            },
        }
        let r = NameMap { entries, places };
        proof {
            assert(r@ =~= was@.insert(key, value));
            if was@.contains_key(key) {
                assert(r.names() =~= was.names());
            } else {
                assert(r.names() =~= was.names().push(key));
            }
        }
        *self = r;
    }
}

impl<V: Clone> Clone for NameMap<V> {
    /// Copies the map: the same names in the same order, with copies of the values.
    fn clone(&self) -> (r: Self)
        ensures
            r.names() == self.names(),
            r@.dom() == self@.dom(),
            forall|k: Seq<char>| #[trigger]
                self@.contains_key(k) ==> cloned::<V>(self@[k], r@[k]),
    {
        proof {
            use_type_invariant(self);
            self.lemma_names();
        }
        let n: usize = self.entries.len();
        let mut r: NameMap<V> = NameMap::new();
        let mut i: usize = 0;
        assert(self.names().take(0) =~= Seq::<Seq<char>>::empty());
        while i < n
            invariant
                n == self.entries@.len(),
                self.indexed(),
                self.names().no_duplicates(),
                i <= n,
                r.names() == self.names().take(i as int),
                forall|k: Seq<char>| r@.contains_key(k) <==> self.names().take(i as int).contains(k),
                forall|k: Seq<char>| #[trigger]
                    r@.contains_key(k) ==> cloned::<V>(self@[k], r@[k]),
            decreases n - i,
        {
            let ghost k = self.entries@[i as int].0@;
            let ghost before = self.names().take(i as int);
            let ghost after = self.names().take(i + 1);
            proof {
                assert(self.names()[i as int] == k);
                if before.contains(k) {
                    let j = before.index_of(k);
                    assert(self.names()[j] == k);
                }
                assert(after =~= before.push(k));
                assert(after[i as int] == k);
                assert forall|x: Seq<char>| after.contains(x) implies before.contains(x) || x == k by {
                    let j = after.index_of(x);
                    if j < i {
                        assert(before[j] == x);
                    }
                }
                assert forall|x: Seq<char>| before.contains(x) implies after.contains(x) by {
                    let j = before.index_of(x);
                    assert(after[j] == x);
                }
            }
            r.insert(self.entries[i].0.clone(), self.entries[i].1.clone());
            i += 1;
        }
        proof {
            assert(self.names().take(n as int) =~= self.names());
            assert(r@.dom() =~= self@.dom());
        }
        r
    }
}

} // verus!
