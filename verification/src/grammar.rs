//! The grammar model: symbols, productions and the production table.

use vstd::prelude::*;
use crate::symbol_set::SymbolSet;

verus! {

/// A grammar symbol. Terminals and nonterminals are numbered from 0 without
/// gaps, each kind for itself.
#[derive(PartialEq, Eq, Structural, Hash, Copy, Clone, Debug)]
pub enum Symbol {
    /// A token of the language.
    Terminal(usize),
    /// A symbol that productions rewrite.
    Nonterminal(usize),
    /// The empty string. It stands in a right-hand side where nothing is
    /// derived, and in a FIRST set where the nonterminal can vanish.
    Empty(),
    /// The end of the input.
    EOF(),
}

impl Symbol {
    /// A symbol that can stand at the front of a sentence: a terminal or the
    /// end marker.
    pub open spec fn is_token(self) -> bool {
        self is Terminal || self is EOF
    }

    /// A symbol that can be a member of a FIRST set of the grammar `g`: one
    /// of its terminals, the end marker or the empty marker.
    pub open spec fn is_entry(self, g: Grammar) -> bool {
        match self {
            Symbol::Terminal(t) => t < g.terminals,
            Symbol::Nonterminal(_) => false,
            _ => true,
        }
    }

    /// The symbol names something the grammar `g` knows.
    pub open spec fn valid(self, g: Grammar) -> bool {
        match self {
            Symbol::Terminal(t) => t < g.terminals,
            Symbol::Nonterminal(a) => a < g.rules.len(),
            _ => true,
        }
    }
}

/// FIRST of a string of symbols, as far as its leading symbol decides it.
#[derive(Debug)]
pub enum FirstSet {
    /// The string begins with this terminal or end marker.
    Other(Symbol),
    /// The string begins with a nonterminal; the set is FIRST of the string.
    Nonterminal(SymbolSet),
}

/// One rewrite rule `nonterminal -> rhs`.
#[derive(Debug)]
pub struct CFGProduction {
    pub nonterminal: usize,
    pub rhs: Vec<Symbol>,
}

/// A context-free grammar. `productions[a]` holds the productions whose
/// left-hand side is the nonterminal `a`; nonterminal 0 is the added start
/// symbol with the single production `S' -> S <eof>`.
#[derive(Debug)]
pub struct CFG<'a> {
    pub productions: Vec<Vec<CFGProduction>>,
    pub nonterminal_symbols: Vec<&'a str>,
    pub terminal_symbols: Vec<&'a str>,
}

/// The mathematical content of a grammar: `rules[a][k]` is the right-hand
/// side of the `k`-th production of nonterminal `a`.
pub struct Grammar {
    pub rules: Seq<Seq<Seq<Symbol>>>,
    pub terminals: nat,
}

impl Grammar {
    /// The number of productions of the nonterminals below `a`.
    pub open spec fn offset(self, a: int) -> int
        decreases a,
    {
        if a <= 0 {
            0
        } else {
            self.offset(a - 1) + self.rules[a - 1].len()
        }
    }

    /// The number of all productions.
    pub open spec fn production_count(self) -> int {
        self.offset(self.rules.len() as int)
    }

    /// The id of the `k`-th production of nonterminal `a`: productions are
    /// numbered through, nonterminal by nonterminal.
    pub open spec fn production_id(self, a: int, k: int) -> int {
        self.offset(a) + k
    }

    /// Nonterminal 0 is the added start symbol with the one production
    /// `S' -> S <eof>`, where `S` is nonterminal 1; every nonterminal has a
    /// production; no right-hand side is without symbols (the empty string
    /// is written as the empty marker); every symbol is known; and the
    /// number of productions fits a machine word.
    pub open spec fn wf(self) -> bool {
        &&& self.rules.len() >= 2
        &&& self.rules[0] == seq![seq![Symbol::Nonterminal(1), Symbol::EOF()]]
        &&& forall|a: int| 0 <= a < self.rules.len() ==> #[trigger] self.rules[a].len() >= 1
        &&& forall|a: int, k: int|
            0 <= a < self.rules.len() && 0 <= k < self.rules[a].len() ==> (
            #[trigger] self.rules[a][k]).len() >= 1
        &&& forall|a: int, k: int, j: int|
            0 <= a < self.rules.len() && 0 <= k < self.rules[a].len() && 0 <= j
                < self.rules[a][k].len() ==> (#[trigger] self.rules[a][k][j]).valid(self)
        &&& self.production_count() <= usize::MAX
    }
}

/// The productions below a nonterminal are among those below a later one.
pub proof fn lemma_offset_monotone(g: Grammar, a: int, b: int)
    requires
        0 <= a <= b,
    ensures
        0 <= g.offset(a) <= g.offset(b),
    decreases b,
{
    if a < b {
        lemma_offset_monotone(g, a, b - 1);
    } else if a > 0 {
        lemma_offset_monotone(g, a - 1, a - 1);
        lemma_offset_monotone(g, 0, a - 1);
    }
}

/// No production has the id of another, and each id is below the number of
/// productions.
pub proof fn lemma_production_id(g: Grammar, a: int, k: int, b: int, j: int)
    requires
        0 <= a < g.rules.len(),
        0 <= k < g.rules[a].len(),
        0 <= b < g.rules.len(),
        0 <= j < g.rules[b].len(),
    ensures
        0 <= g.production_id(a, k) < g.production_count(),
        g.production_id(a, k) == g.production_id(b, j) ==> a == b && k == j,
{
    lemma_offset_monotone(g, 0, a);
    lemma_offset_monotone(g, a + 1, g.rules.len() as int);
    lemma_offset_monotone(g, 0, b);
    if a < b {
        lemma_offset_monotone(g, a + 1, b);
    } else if b < a {
        lemma_offset_monotone(g, b + 1, a);
    }
}

/// A well-formed grammar has no more nonterminals than productions, so
/// their number fits a machine word.
pub proof fn lemma_nonterminals_fit(g: Grammar)
    requires
        g.wf(),
    ensures
        g.rules.len() <= g.production_count() <= usize::MAX,
{
    lemma_offset_at_least(g, g.rules.len() as int);
}

proof fn lemma_offset_at_least(g: Grammar, a: int)
    requires
        g.wf(),
        0 <= a <= g.rules.len(),
    ensures
        a <= g.offset(a),
    decreases a,
{
    if a > 0 {
        lemma_offset_at_least(g, a - 1);
        assert(g.rules[a - 1].len() >= 1);
    }
}

impl<'a> View for CFG<'a> {
    type V = Grammar;

    open spec fn view(&self) -> Grammar {
        Grammar {
            rules: Seq::new(
                self.productions.len() as nat,
                |a: int|
                    Seq::new(
                        self.productions[a].len() as nat,
                        |k: int| self.productions[a][k].rhs@,
                    ),
            ),
            terminals: self.terminal_symbols.len() as nat,
        }
    }
}

impl<'a> CFG<'a> {
    /// The grammar is one the analyses accept: every nonterminal has a
    /// production, every right-hand side is non-empty and names only known
    /// symbols, each production is filed under its own left-hand side, and
    /// nonterminal 0 is the added start symbol.
    pub open spec fn wf(&self) -> bool {
        &&& self@.wf()
        &&& self.nonterminal_symbols.len() == self.productions.len()
        &&& forall|a: int, k: int|
            0 <= a < self.productions.len() && 0 <= k < self.productions[a].len() ==> (
            #[trigger] self.productions[a][k]).nonterminal == a
    }

    /// Whether the `k`-th production of nonterminal `a` is filed under `a`,
    /// has a right-hand side that is not empty, and names only known symbols.
    fn production_ok(&self, a: usize, k: usize) -> (r: bool)
        requires
            a < self.productions.len(),
            k < self.productions[a as int].len(),
        ensures
            r == {
                &&& self.productions[a as int][k as int].nonterminal == a
                &&& self@.rules[a as int][k as int].len() >= 1
                &&& forall|j: int|
                    0 <= j < self@.rules[a as int][k as int].len() ==> (
                    #[trigger] self@.rules[a as int][k as int][j]).valid(self@)
            },
    {
        let production = &self.productions[a][k];
        assert(production.rhs@ == self@.rules[a as int][k as int]);
        if production.nonterminal != a || production.rhs.len() == 0 {
            return false;
        }
        let mut j: usize = 0;
        while j < production.rhs.len()
            invariant
                j <= production.rhs.len(),
                a < self.productions.len(),
                k < self.productions[a as int].len(),
                production == &self.productions[a as int][k as int],
                production.rhs@ == self@.rules[a as int][k as int],
                forall|i: int| 0 <= i < j ==> (#[trigger] self@.rules[a as int][k as int][i]).valid(self@),
            decreases production.rhs.len() - j,
        {
            let known = match production.rhs[j] {
                Symbol::Terminal(t) => t < self.terminal_symbols.len(),
                Symbol::Nonterminal(b) => b < self.productions.len(),
                _ => true,
            };
            if !known {
                assert(!self@.rules[a as int][k as int][j as int].valid(self@));
                return false;
            }
            j += 1;
        }
        true
    }

    /// Whether the grammar is well formed. The fields of a grammar are open
    /// to its users, so a grammar that was not read from text may be
    /// checked before it is analysed.
    pub fn is_wf(&self) -> (r: bool)
        ensures
            r == self.wf(),
    {
        let ghost g = self@;
        let n = self.productions.len();
        if n < 2 || self.nonterminal_symbols.len() != n {
            return false;
        }
        let first = &self.productions[0];
        if first.len() != 1 || first[0].rhs.len() != 2 {
            proof {
                let want = seq![seq![Symbol::Nonterminal(1), Symbol::EOF()]];
                assert(want.len() == 1 && want[0].len() == 2);
                assert(g.rules[0].len() == first.len());
                if first.len() == 1 {
                    assert(g.rules[0][0] == first[0].rhs@);
                }
            }
            return false;
        }
        if first[0].rhs[0] != Symbol::Nonterminal(1) || first[0].rhs[1] != Symbol::EOF() {
            proof {
                let want = seq![seq![Symbol::Nonterminal(1), Symbol::EOF()]];
                assert(want[0][0] == Symbol::Nonterminal(1) && want[0][1] == Symbol::EOF());
                assert(g.rules[0][0] == first[0].rhs@);
            }
            return false;
        }
        assert(g.rules[0] =~= seq![seq![Symbol::Nonterminal(1), Symbol::EOF()]]) by {
            assert(g.rules[0][0] =~= seq![Symbol::Nonterminal(1), Symbol::EOF()]);
        }
        let mut total: usize = 0;
        let mut a: usize = 0;
        while a < n
            invariant
                a <= n,
                n == self.productions.len(),
                g == self@,
                total == g.offset(a as int),
                forall|b: int| 0 <= b < a ==> #[trigger] g.rules[b].len() >= 1,
                forall|b: int, k: int|
                    0 <= b < a && 0 <= k < self.productions[b].len() ==> {
                        &&& (#[trigger] self.productions[b][k]).nonterminal == b
                        &&& g.rules[b][k].len() >= 1
                        &&& forall|j: int|
                            0 <= j < g.rules[b][k].len() ==> (#[trigger] g.rules[b][k][j]).valid(g)
                    },
            decreases n - a,
        {
            let count = self.productions[a].len();
            if count == 0 {
                assert(g.rules[a as int].len() == 0);
                return false;
            }
            let mut k: usize = 0;
            while k < count
                invariant
                    k <= count,
                    a < n,
                    n == self.productions.len(),
                    count == self.productions[a as int].len(),
                    g == self@,
                    forall|i: int|
                        0 <= i < k ==> {
                            &&& (#[trigger] self.productions[a as int][i]).nonterminal == a
                            &&& g.rules[a as int][i].len() >= 1
                            &&& forall|j: int|
                                0 <= j < g.rules[a as int][i].len() ==> (
                                #[trigger] g.rules[a as int][i][j]).valid(g)
                        },
                decreases count - k,
            {
                if !self.production_ok(a, k) {
                    return false;
                }
                k += 1;
            }
            proof {
                assert(g.offset(a + 1) == g.offset(a as int) + g.rules[a as int].len());
                lemma_offset_monotone(g, a + 1, n as int);
            }
            total = match total.checked_add(count) {
                Some(sum) => sum,
                None => {
                    return false;
                },
            };
            a += 1;
        }
        assert forall|b: int, k: int, j: int|
            0 <= b < g.rules.len() && 0 <= k < g.rules[b].len() && 0 <= j < g.rules[b][k].len() implies (
        #[trigger] g.rules[b][k][j]).valid(g) by {
            assert(self.productions[b][k].nonterminal == b);
        }
        true
    }

    /// For each nonterminal, the id of its first production.
    pub fn production_offsets(&self) -> (offsets: Vec<usize>)
        requires
            self.wf(),
        ensures
            offsets.len() == self.productions.len(),
            forall|a: int| 0 <= a < offsets.len() ==> #[trigger] offsets[a] == self@.offset(a),
    {
        let ghost g = self@;
        let mut offsets: Vec<usize> = Vec::new();
        let mut total: usize = 0;
        let mut a: usize = 0;
        while a < self.productions.len()
            invariant
                a <= self.productions.len(),
                self.wf(),
                g == self@,
                offsets.len() == a,
                total == g.offset(a as int),
                forall|b: int| 0 <= b < a ==> #[trigger] offsets[b] == g.offset(b),
            decreases self.productions.len() - a,
        {
            proof {
                lemma_offset_monotone(g, a + 1, g.rules.len() as int);
                assert(g.offset(a + 1) == g.offset(a as int) + g.rules[a as int].len());
            }
            offsets.push(total);
            total = total + self.productions[a].len();
            a += 1;
        }
        offsets
    }

    /// The symbol has a name in this grammar.
    pub open spec fn named(&self, symbol: Symbol) -> bool {
        match symbol {
            Symbol::Terminal(x) => x < self.terminal_symbols.len(),
            Symbol::Nonterminal(x) => x < self.nonterminal_symbols.len(),
            _ => true,
        }
    }

    /// The name of a symbol.
    pub fn symbol_str(&self, symbol: &Symbol) -> (name: &str)
        requires
            self.named(*symbol),
        ensures
            name@ == self.spec_symbol_str(*symbol),
    {
        match symbol {
            Symbol::Terminal(x) => self.terminal_symbols[*x],
            Symbol::Nonterminal(x) => self.nonterminal_symbols[*x],
            Symbol::Empty() => "<empty>",
            Symbol::EOF() => "<eof>",
        }
    }

    /// The name of a symbol, as a sequence of characters.
    pub open spec fn spec_symbol_str(&self, symbol: Symbol) -> Seq<char> {
        match symbol {
            Symbol::Terminal(x) => self.terminal_symbols[x as int]@,
            Symbol::Nonterminal(x) => self.nonterminal_symbols[x as int]@,
            Symbol::Empty() => "<empty>"@,
            Symbol::EOF() => "<eof>"@,
        }
    }
}

} // verus!
