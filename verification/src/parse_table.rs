//! The parse table: for each state of the automaton, what to do on each
//! symbol.

use vstd::prelude::*;
use crate::grammar::{Symbol, CFG};
use crate::symbol_map::SymbolMap;

verus! {

/// What the parser does in a state on a symbol.
#[derive(PartialEq, Eq, Structural, Hash, Copy, Clone, Debug)]
pub enum TableCell {
    /// Read the terminal and go to the state.
    Shift(usize),
    /// Replace the right-hand side of the production by its nonterminal.
    Reduce(usize),
    /// After a reduction to the nonterminal, go to the state.
    Goto(usize),
    /// The input is a sentence of the grammar.
    Accept(),
}

/// Why no table could be built.
#[derive(PartialEq, Eq, Structural, Hash, Copy, Clone, Debug)]
pub enum TableErr {
    /// The grammar is not LR(1): in `state`, on `symbol`, two different
    /// actions are called for.
    Conflict { state: usize, symbol: Symbol, existing: TableCell, incoming: TableCell },
}

/// The row of one state.
pub struct TableRow {
    pub cells: SymbolMap<TableCell>,
}

/// The table of a grammar, one row for each state of its automaton.
pub struct Table<'a> {
    pub rows: Vec<TableRow>,
    pub cfg: &'a CFG<'a>,
}

impl<'a> Table<'a> {
    /// Every row is a well-formed map.
    pub open spec fn wf(&self) -> bool {
        forall|s: int| 0 <= s < self.rows.len() ==> (#[trigger] self.rows[s]).cells.wf()
    }

    /// The cell of `state` on `symbol`, if the table has one.
    pub open spec fn cell(&self, state: int, symbol: Symbol) -> Option<TableCell> {
        if 0 <= state < self.rows.len() && self.rows[state].cells@.contains_key(symbol) {
            Some(self.rows[state].cells@[symbol])
        } else {
            None
        }
    }

    /// What to do in `state` when `terminal`, a terminal or the end marker,
    /// is the next token: shift, reduce or accept. `None` is a syntax error.
    pub fn action(&self, state: usize, terminal: &Symbol) -> (r: Option<TableCell>)
        requires
            self.wf(),
        ensures
            r == if terminal.is_token() {
                self.cell(state as int, *terminal)
            } else {
                None
            },
    {
        if state >= self.rows.len() {
            return None;
        }
        match terminal {
            Symbol::Terminal(_) | Symbol::EOF() => self.rows[state].cells.get(terminal),
            _ => None,
        }
    }

    /// Where to go from `state` after a reduction to `nonterminal`.
    pub fn goto(&self, state: usize, nonterminal: usize) -> (r: Option<usize>)
        requires
            self.wf(),
        ensures
            r == match self.cell(state as int, Symbol::Nonterminal(nonterminal)) {
                Some(TableCell::Goto(target)) => Some(target),
                _ => None,
            },
    {
        if state >= self.rows.len() {
            return None;
        }
        match self.rows[state].cells.get(&Symbol::Nonterminal(nonterminal)) {
            Some(TableCell::Goto(target)) => Some(target),
            _ => None,
        }
    }
}

} // verus!
