//! A small ordered map keyed by name: a list of bindings in which no name
//! occurs twice and the order of first binding is kept.
use vstd::prelude::*;

verus! {

/// The views of a list of strings.
pub open spec fn names_view(names: Seq<String>) -> Seq<Seq<char>> {
    Seq::new(names.len(), |i: int| names[i]@)
}

/// The names of a list of bindings.
pub open spec fn entry_names<V>(entries: Seq<(String, V)>) -> Seq<Seq<char>> {
    Seq::new(entries.len(), |i: int| entries[i].0@)
}

/// The values of a list of bindings.
pub open spec fn entry_values<V>(entries: Seq<(String, V)>) -> Seq<V> {
    Seq::new(entries.len(), |i: int| entries[i].1)
}

/// Bindings from names to values, in the order in which the names were first
/// bound.
#[derive(Debug)]
pub struct Table<V> {
    entries: Vec<(String, V)>,
}

impl<V> Table<V> {
    /// The bound names, in binding order.
    pub closed spec fn keys(&self) -> Seq<Seq<char>> {
        entry_names(self.entries@)
    }

    /// The bound values, each at the position of its name.
    pub closed spec fn values(&self) -> Seq<V> {
        entry_values(self.entries@)
    }

    /// Every name has one value, and no name is bound twice.
    #[verifier::type_invariant]
    pub open spec fn wf(&self) -> bool {
        &&& self.keys().len() == self.values().len()
        &&& self.keys().no_duplicates()
    }

    /// The position at which `name` is bound, if it is.
    pub open spec fn index_of(&self, name: Seq<char>) -> Option<int> {
        self.keys().index_of_first(name)
    }

    /// The value bound to `name`, if any.
    pub open spec fn lookup(&self, name: Seq<char>) -> Option<V> {
        match self.index_of(name) {
            Some(i) => Some(self.values()[i]),
            None => None,
        }
    }

    /// The table without bindings.
    pub fn new() -> (r: Self)
        ensures
            r.keys() == Seq::<Seq<char>>::empty(),
            r.values() == Seq::<V>::empty(),
    {
        let r = Table { entries: Vec::new() };
        assert(r.keys() =~= Seq::<Seq<char>>::empty());
        assert(r.values() =~= Seq::<V>::empty());
        r
    }

    /// The number of bindings.
    pub fn len(&self) -> (r: usize)
        ensures
            r == self.keys().len(),
            r == self.values().len(),
    {
        self.entries.len()
    }

    /// The binding at the position `i`, if there is one.
    pub fn entry(&self, i: usize) -> (r: Option<(&String, &V)>)
        ensures
            match r {
                Some((name, value)) => i < self.keys().len() && name@ == self.keys()[i as int]
                    && *value == self.values()[i as int],
                None => i >= self.keys().len(),
            },
    {
        if i < self.entries.len() {
            Some((&self.entries[i].0, &self.entries[i].1))
        } else {
            None
        }
    }

    /// The name at the position `i`.
    pub(crate) fn key(&self, i: usize) -> (r: &String)
        requires
            i < self.keys().len(),
        ensures
            r@ == self.keys()[i as int],
    {
        &self.entries[i].0
    }

    /// The value at the position `i`.
    pub(crate) fn value(&self, i: usize) -> (r: &V)
        requires
            i < self.values().len(),
        ensures
            *r == self.values()[i as int],
    {
        &self.entries[i].1
    }

    /// Where `name` is bound.
    pub fn find(&self, name: &str) -> (r: Option<usize>)
        ensures
            match r {
                Some(i) => self.index_of(name@) == Some(i as int) && i < self.values().len(),
                None => self.index_of(name@) is None,
            },
    {
        let ghost keys = self.keys();
        let mut i: usize = 0;
        while i < self.entries.len()
            invariant
                i <= self.entries.len(),
                keys == self.keys(),
                forall|k: int| 0 <= k < i ==> keys[k] != name@,
            decreases self.entries.len() - i,
        {
            if *self.entries[i].0.as_str() == *name {
                assert(keys[i as int] == name@);
                proof {
                    keys.index_of_first_ensures(name@);
                }
                return Some(i);
            }
            i += 1;
        }
        proof {
            keys.index_of_first_ensures(name@);
        }
        None
    }

    /// The value bound to `name`.
    pub fn get(&self, name: &str) -> (r: Option<&V>)
        ensures
            match r {
                Some(v) => self.lookup(name@) == Some(*v),
                None => self.lookup(name@) is None,
            },
    {
        match self.find(name) {
            Some(i) => Some(&self.entries[i].1),
            None => None,
        }
    }

    /// Binds `name` to `value`: in place where the name is bound already, at the
    /// end otherwise.
    pub fn insert(&mut self, name: String, value: V)
        ensures
            match old(self).index_of(name@) {
                Some(i) => {
                    &&& final(self).keys() == old(self).keys()
                    &&& final(self).values() == old(self).values().update(i, value)
                },
                None => {
                    &&& final(self).keys() == old(self).keys().push(name@)
                    &&& final(self).values() == old(self).values().push(value)
                },
            },
    {
        proof {
            use_type_invariant(&*self);
            self.keys().index_of_first_ensures(name@);
        }
        let found = self.find(name.as_str());
        let mut entries: Vec<(String, V)> = Vec::new();
        let ghost before = self.entries@;
        std::mem::swap(&mut entries, &mut self.entries);
        match found {
            Some(i) => {
                entries.set(i, (name, value));
                assert(entry_names(entries@) =~= entry_names(before));
                assert(entry_values(entries@) =~= entry_values(before).update(i as int, value));
            },
            None => {
                entries.push((name, value));
                assert(entry_names(entries@) =~= entry_names(before).push(name@));
                assert(entry_values(entries@) =~= entry_values(before).push(value));
            },
        }
        self.entries = entries;
    }
}

} // verus!
