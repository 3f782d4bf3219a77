//! A finite map keyed by grammar symbols.

use vstd::prelude::*;
use crate::grammar::Symbol;

verus! {

/// A map from symbols to values, kept as a vector of keys in which nothing
/// occurs twice and a vector of their values. Its view is the mathematical
/// map.
pub struct SymbolMap<V> {
    keys: Vec<Symbol>,
    values: Vec<V>,
    map: Ghost<Map<Symbol, V>>,
}

impl<V> View for SymbolMap<V> {
    type V = Map<Symbol, V>;

    closed spec fn view(&self) -> Map<Symbol, V> {
        self.map@
    }
}

impl<V: Copy> SymbolMap<V> {
    /// The keys in insertion order.
    pub closed spec fn keys(&self) -> Seq<Symbol> {
        self.keys@
    }

    /// The values, each at the place of its key.
    pub closed spec fn values(&self) -> Seq<V> {
        self.values@
    }

    /// No key occurs twice, and the view maps each key to its value and
    /// nothing else.
    pub open spec fn wf(&self) -> bool {
        &&& self.keys().len() == self.values().len()
        &&& self.keys().no_duplicates()
        &&& self@.dom() == self.keys().to_set()
        &&& forall|i: int| 0 <= i < self.keys().len() ==> self@[#[trigger] self.keys()[i]] == self.values()[i]
    }

    pub fn new() -> (m: SymbolMap<V>)
        ensures
            m.wf(),
            m@ == Map::<Symbol, V>::empty(),
            m.keys() == Seq::<Symbol>::empty(),
    {
        let m = SymbolMap { keys: Vec::new(), values: Vec::new(), map: Ghost(Map::empty()) };
        assert(m@.dom() =~= m.keys().to_set());
        m
    }

    pub fn len(&self) -> (n: usize)
        requires
            self.wf(),
        ensures
            n == self.keys().len(),
    {
        self.keys.len()
    }

    /// The `i`-th key in insertion order.
    pub fn key_at(&self, i: usize) -> (key: Symbol)
        requires
            self.wf(),
            i < self.keys().len(),
        ensures
            key == self.keys()[i as int],
            self@.contains_key(key),
    {
        assert(self.keys@.to_set().contains(self.keys@[i as int]));
        self.keys[i]
    }

    /// The value of the `i`-th key.
    pub fn value_at(&self, i: usize) -> (value: V)
        requires
            self.wf(),
            i < self.keys().len(),
        ensures
            value == self.values()[i as int],
            value == self@[self.keys()[i as int]],
    {
        self.values[i]
    }

    /// The value of `key`, if the map has one.
    pub fn get(&self, key: &Symbol) -> (r: Option<V>)
        requires
            self.wf(),
        ensures
            r == if self@.contains_key(*key) {
                Some(self@[*key])
            } else {
                None
            },
    {
        let mut i: usize = 0;
        while i < self.keys.len()
            invariant
                i <= self.keys.len(),
                self.wf(),
                forall|j: int| 0 <= j < i ==> self.keys@[j] != *key,
            decreases self.keys.len() - i,
        {
            if self.keys[i] == *key {
                assert(self.keys@.to_set().contains(self.keys()[i as int]));
                return Some(self.values[i]);
            }
            i += 1;
        }
        None
    }

    /// Gives `key` the value `value`. The key must be new.
    pub fn insert_new(&mut self, key: Symbol, value: V)
        requires
            old(self).wf(),
            !old(self)@.contains_key(key),
        ensures
            final(self).wf(),
            final(self)@ == old(self)@.insert(key, value),
            final(self).keys() == old(self).keys().push(key),
            final(self).values() == old(self).values().push(value),
    {
        self.keys.push(key);
        self.values.push(value);
        self.map = Ghost(self.map@.insert(key, value));
        proof {
            old(self).keys@.lemma_push_to_set_commute(key);
            assert(self@.dom() =~= self.keys().to_set());
            assert forall|i: int| 0 <= i < self.keys().len() implies self@[#[trigger] self.keys()[i]]
                == self.values()[i] by {
                if i < old(self).keys().len() {
                    assert(self.keys()[i] == old(self).keys()[i]);
                    assert(old(self).keys@.to_set().contains(old(self).keys()[i]));
                }
            }
        }
    }
}

} // verus!
