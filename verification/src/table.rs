//! A table of values under names.

use vstd::prelude::*;

use crate::text::spells;

verus! {

/// Values under names, each name at most once.
pub struct Table<V> {
    names: Vec<String>,
    values: Vec<V>,
}

/// Where a name stands in a list of names.
pub open spec fn stands_at(names: Seq<String>, name: Seq<char>, i: int) -> bool {
    0 <= i < names.len() && names[i]@ == name
}

/// Whether a name stands in a list of names.
pub open spec fn stands(names: Seq<String>, name: Seq<char>) -> bool {
    exists|i: int| stands_at(names, name, i)
}

impl<V> View for Table<V> {
    type V = Map<Seq<char>, V>;

    closed spec fn view(&self) -> Map<Seq<char>, V> {
        Map::new(
            |name: Seq<char>| stands(self.names@, name),
            |name: Seq<char>| self.values@[choose|i: int| stands_at(self.names@, name, i)],
        )
    }
}

impl<V> Table<V> {
    #[verifier::type_invariant]
    spec fn type_inv(self) -> bool {
        &&& self.names.len() == self.values.len()
        &&& forall|i: int, j: int|
            0 <= i < j < self.names.len() ==> self.names@[i]@ != self.names@[j]@
    }

    proof fn lemma_at(self, i: int)
        requires
            self.type_inv(),
            0 <= i < self.names.len(),
        ensures
            self@.contains_key(self.names@[i]@),
            self@[self.names@[i]@] == self.values@[i],
    {
        let name = self.names@[i]@;
        assert(stands_at(self.names@, name, i));
        let j = choose|j: int| stands_at(self.names@, name, j);
        assert(i == j);
    }

    /// A table without names.
    pub fn new() -> (r: Table<V>)
        ensures
            r@ == Map::<Seq<char>, V>::empty(),
    {
        let table: Table<V> = Table { names: Vec::new(), values: Vec::new() };
        assert(table@ =~= Map::<Seq<char>, V>::empty());
        table
    }

    /// Where a name stands.
    fn find(&self, name: &String) -> (r: Option<usize>)
        ensures
            r is None <==> !self@.contains_key(name@),
            r matches Some(i) ==> {
                &&& i < self.names.len()
                &&& i < self.values.len()
                &&& self.names@[i as int]@ == name@
                &&& self.values@[i as int] == self@[name@]
            },
    {
        proof {
            use_type_invariant(self);
        }
        let mut i: usize = 0;
        while i < self.names.len()
            invariant
                i <= self.names.len(),
                self.type_inv(),
                forall|k: int| 0 <= k < i ==> (#[trigger] self.names@[k])@ != name@,
            decreases self.names.len() - i,
        {
            if spells(&self.names[i], name.as_str()) {
                proof {
                    self.lemma_at(i as int);
                }
                return Some(i);
            }
            i = i + 1;
        }
        None
    }

    /// Whether a name stands in the table.
    pub fn contains(&self, name: &String) -> (r: bool)
        ensures
            r == self@.contains_key(name@),
    {
        self.find(name).is_some()
    }

    /// The value under a name.
    pub fn get(&self, name: &String) -> (r: Option<&V>)
        ensures
            r is None <==> !self@.contains_key(name@),
            r matches Some(value) ==> *value == self@[name@],
    {
        match self.find(name) {
            Some(i) => Some(&self.values[i]),
            None => None,
        }
    }

    /// Takes a name and its value out of the table.
    pub fn take(&mut self, name: &String) -> (r: Option<V>)
        ensures
            r is None <==> !old(self)@.contains_key(name@),
            r matches Some(value) ==> value == old(self)@[name@],
            final(self)@ == old(self)@.remove(name@),
    {
        let i: usize = match self.find(name) {
            Some(i) => i,
            None => {
                assert(self@.remove(name@) =~= self@);
                return None;
            },
        };
        proof {
            use_type_invariant(&*self);
        }
        let ghost before = *self;
        let mut rest: Table<V> = Table::new();
        std::mem::swap(&mut rest, self);
        let Table { names: mut names, values: mut values } = rest;
        names.remove(i);
        let value: V = values.remove(i);
        *self = Table { names, values };
        proof {
            let after = *self;
            assert forall|k: Seq<char>|
                #![trigger after@.contains_key(k)]
                after@.contains_key(k) <==> before@.remove(name@).contains_key(k) by {
                if after@.contains_key(k) {
                    let j = choose|j: int| stands_at(after.names@, k, j);
                    let from = if j < i {
                        j
                    } else {
                        j + 1
                    };
                    assert(stands_at(before.names@, k, from));
                }
                if before@.contains_key(k) && k != name@ {
                    let j = choose|j: int| stands_at(before.names@, k, j);
                    let to = if j < i {
                        j
                    } else {
                        j - 1
                    };
                    assert(stands_at(after.names@, k, to));
                }
            }
            assert forall|k: Seq<char>| #[trigger] after@.contains_key(k) implies after@[k]
                == before@[k] by {
                let j = choose|j: int| stands_at(after.names@, k, j);
                let from = if j < i {
                    j
                } else {
                    j + 1
                };
                after.lemma_at(j);
                before.lemma_at(from);
            }
            assert(after@ =~= before@.remove(name@));
        }
        Some(value)
    }

    /// Puts a value under a name, in place of one that stood there.
    pub fn insert(&mut self, name: &String, value: V)
        ensures
            final(self)@ == old(self)@.insert(name@, value),
    {
        let ghost start = self@;
        let _ = self.take(name);
        proof {
            use_type_invariant(&*self);
        }
        let ghost before = *self;
        let mut rest: Table<V> = Table::new();
        std::mem::swap(&mut rest, self);
        let Table { names: mut names, values: mut values } = rest;
        names.push(name.clone());
        values.push(value);
        proof {
            assert forall|k: int| 0 <= k < before.names.len() implies (#[trigger] before.names@[k])@
                != name@ by {
                before.lemma_at(k);
            }
        }
        *self = Table { names, values };
        proof {
            let after = *self;
            let n = before.names.len() as int;
            assert forall|k: Seq<char>|
                #![trigger after@.contains_key(k)]
                after@.contains_key(k) <==> start.insert(name@, value).contains_key(k) by {
                if after@.contains_key(k) {
                    let j = choose|j: int| stands_at(after.names@, k, j);
                    if j < n {
                        assert(stands_at(before.names@, k, j));
                        assert(before@.contains_key(k));
                    }
                }
                if k == name@ {
                    assert(stands_at(after.names@, k, n));
                } else if start.contains_key(k) {
                    assert(before@.contains_key(k));
                    let j = choose|j: int| stands_at(before.names@, k, j);
                    assert(stands_at(after.names@, k, j));
                }
            }
            assert forall|k: Seq<char>| #[trigger] after@.contains_key(k) implies after@[k]
                == start.insert(name@, value)[k] by {
                let j = choose|j: int| stands_at(after.names@, k, j);
                after.lemma_at(j);
                if j < n {
                    before.lemma_at(j);
                }
            }
            assert(after@ =~= start.insert(name@, value));
        }
    }
}

} // verus!
