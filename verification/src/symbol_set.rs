//! A finite set of grammar symbols.

use vstd::prelude::*;
use crate::grammar::Symbol;

verus! {

/// A set of symbols, kept as a vector in which nothing occurs twice.
/// Its view is the mathematical set of its elements.
#[derive(Debug)]
pub struct SymbolSet {
    items: Vec<Symbol>,
}

impl View for SymbolSet {
    type V = Set<Symbol>;

    open spec fn view(&self) -> Set<Symbol> {
        self.elements().to_set()
    }
}

impl SymbolSet {
    /// The elements in insertion order.
    pub closed spec fn elements(&self) -> Seq<Symbol> {
        self.items@
    }

    /// Nothing occurs twice.
    pub open spec fn wf(&self) -> bool {
        self.elements().no_duplicates()
    }

    /// A well-formed set is finite and has as many members as elements.
    pub proof fn lemma_finite(&self)
        requires
            self.wf(),
        ensures
            self@.finite(),
            self@.len() == self.elements().len(),
    {
        self.items@.unique_seq_to_set();
        vstd::seq_lib::seq_to_set_is_finite(self.items@);
    }

    pub fn new() -> (s: SymbolSet)
        ensures
            s.wf(),
            s@ == Set::<Symbol>::empty(),
            s.elements() == Seq::<Symbol>::empty(),
    {
        SymbolSet { items: Vec::new() }
    }

    pub fn len(&self) -> (n: usize)
        requires
            self.wf(),
        ensures
            n == self@.len(),
            n == self.elements().len(),
    {
        proof {
            self.items@.unique_seq_to_set();
        }
        self.items.len()
    }

    pub fn contains(&self, symbol: &Symbol) -> (b: bool)
        ensures
            b == self@.contains(*symbol),
    {
        let mut i: usize = 0;
        while i < self.items.len()
            invariant
                i <= self.items.len(),
                forall|j: int| 0 <= j < i ==> self.items@[j] != *symbol,
            decreases self.items.len() - i,
        {
            if self.items[i] == *symbol {
                return true;
            }
            i += 1;
        }
        false
    }

    /// The `i`-th element in insertion order.
    pub fn get(&self, i: usize) -> (symbol: Symbol)
        requires
            i < self.elements().len(),
        ensures
            symbol == self.elements()[i as int],
    {
        self.items[i]
    }

    /// Adds `symbol`; returns whether it was new.
    pub fn insert(&mut self, symbol: Symbol) -> (added: bool)
        requires
            old(self).wf(),
        ensures
            final(self).wf(),
            final(self)@ == old(self)@.insert(symbol),
            added == !old(self)@.contains(symbol),
            added ==> final(self).elements() == old(self).elements().push(symbol),
            !added ==> final(self).elements() == old(self).elements(),
    {
        if self.contains(&symbol) {
            assert(self@ =~= old(self)@.insert(symbol));
            false
        } else {
            self.items.push(symbol);
            proof {
                old(self).items@.lemma_push_to_set_commute(symbol);
            }
            true
        }
    }

    /// Adds every member of `other` but `except`. Returns whether `except`
    /// is in `other`, and whether the set grew.
    pub fn insert_all_except(&mut self, other: &SymbolSet, except: Symbol) -> (r: (bool, bool))
        requires
            old(self).wf(),
            other.wf(),
        ensures
            final(self).wf(),
            final(self)@ == old(self)@.union(other@.remove(except)),
            r.0 == other@.contains(except),
            r.1 == (final(self)@ != old(self)@),
    {
        let mut found = false;
        let mut grew = false;
        let mut i: usize = 0;
        while i < other.items.len()
            invariant
                i <= other.items.len(),
                self.wf(),
                self@ == old(self)@.union(other.items@.take(i as int).to_set().remove(except)),
                found == other.items@.take(i as int).to_set().contains(except),
                grew == (self@ != old(self)@),
            decreases other.items.len() - i,
        {
            let symbol = other.items[i];
            proof {
                let before = other.items@.take(i as int);
                assert(other.items@.take(i + 1) =~= before.push(symbol));
                before.lemma_push_to_set_commute(symbol);
            }
            if symbol == except {
                found = true;
            } else {
                let ghost prev = self@;
                let added = self.insert(symbol);
                proof {
                    if added {
                        assert(self@.contains(symbol) && !prev.contains(symbol));
                        assert(!old(self)@.contains(symbol));
                    }
                }
                grew = grew || added;
            }
            i += 1;
        }
        proof {
            assert(other.items@.take(i as int) =~= other.items@);
        }
        (found, grew)
    }
}

} // verus!
