//! The canonical LR(1) automaton and the table derived from it.

use vstd::prelude::*;
use vstd::slice::slice_subrange;
use crate::first::{entries, lemma_first_of_string_leading, set_views, sets_wf, sets_within};
use crate::first::first_sets;
use crate::grammar::{lemma_production_id, FirstSet, Grammar, Symbol, CFG};
use crate::item::accept_item;
use crate::parse_table::{Table, TableCell, TableErr, TableRow};
use crate::item::{
    all_item_sets, all_items, closed, closure_set, goto_set, items_valid, kernel,
    lemma_all_item_sets_finite, lemma_all_items_finite, lemma_closure_closed,
    lemma_closure_contains, lemma_closure_least, lemma_closure_valid, lemma_first_of_string_push,
    lemma_kernel_valid, lemma_skip_empty_bounds, next_symbols, skip_empty, start_item, Item,
    ItemSet,
};
use crate::symbol_map::SymbolMap;
use crate::symbol_set::SymbolSet;

verus! {

/// The item that a closure step makes of the `k`-th production of
/// nonterminal `x` with lookahead `la`: the dot is at the front.
pub open spec fn fresh_item(g: Grammar, x: usize, k: int, la: Symbol) -> Item {
    Item {
        reading: skip_empty(g.rules[x as int][k], 0) as usize,
        nonterminal: x,
        production: k as usize,
        lookahead: la,
    }
}

/// The items that `item` brings into a closure.
pub open spec fn children(g: Grammar, firsts: Seq<Set<Symbol>>, item: Item) -> Set<Item> {
    Set::new(|child: Item| item.yields(g, firsts, child))
}

/// `new` holds the elements of `old` at their places, and maybe more behind.
pub open spec fn extends(old: Seq<Item>, new: Seq<Item>) -> bool {
    &&& old.len() <= new.len()
    &&& forall|j: int| 0 <= j < old.len() ==> new[j] == old[j]
}

/// The grammar and FIRST sets that the automaton is built from fit
/// together: one well-formed set of entries for each nonterminal.
pub open spec fn firsts_fit(cfg: &CFG, firsts: Seq<SymbolSet>) -> bool {
    &&& cfg.wf()
    &&& firsts.len() == cfg.productions.len()
    &&& sets_wf(firsts)
    &&& sets_within(set_views(firsts), entries(cfg@))
}

/// The position of the first symbol at or behind `from` that is not the
/// empty marker.
fn first_position(rhs: &[Symbol], from: usize) -> (pos: usize)
    requires
        from <= rhs.len(),
    ensures
        pos == skip_empty(rhs@, from as int),
        from <= pos <= rhs.len(),
{
    let mut pos = from;
    proof {
        lemma_skip_empty_bounds(rhs@, from as int);
    }
    while pos < rhs.len() && rhs[pos] == Symbol::Empty()
        invariant
            from <= pos <= rhs.len(),
            skip_empty(rhs@, pos as int) == skip_empty(rhs@, from as int),
        decreases rhs.len() - pos,
    {
        pos += 1;
    }
    pos
}

/// The lookaheads of the items that `item` brings into a closure.
fn item_lookaheads(cfg: &CFG, firsts: &Vec<SymbolSet>, item: &Item) -> (las: SymbolSet)
    requires
        firsts_fit(cfg, firsts@),
        item.valid(cfg@),
        item.reading < item.rhs(cfg@).len(),
    ensures
        las.wf(),
        las@ == item.lookaheads(cfg@, set_views(firsts@)),
{
    let ghost g = cfg@;
    let ghost f = set_views(firsts@);
    let rhs = cfg.productions[item.nonterminal][item.production].rhs.as_slice();
    assert(rhs@ == item.rhs(g));
    let len = rhs.len();
    let beta = slice_subrange(rhs, item.reading + 1, len);
    proof {
        assert(beta@ =~= item.rhs(g).skip(item.reading + 1));
        assert forall|j: int| 0 <= j < beta@.len() implies (#[trigger] beta@[j] matches Symbol::Nonterminal(
            b,
        ) ==> b < firsts.len()) by {
            assert(g.rules[item.nonterminal as int][item.production as int][item.reading + 1
                + j].valid(g));
        }
        lemma_first_of_string_leading(f, beta@);
        lemma_first_of_string_push(f, beta@, item.lookahead);
    }
    let mut las = SymbolSet::new();
    match cfg.get_first(beta, firsts) {
        Some(FirstSet::Nonterminal(set)) => {
            let r = las.insert_all_except(&set, Symbol::Empty());
            if r.0 {
                las.insert(item.lookahead);
            }
        },
        Some(FirstSet::Other(symbol)) => {
            las.insert(symbol);
        },
        None => {
            las.insert(item.lookahead);
        },
    }
    assert(las@ =~= item.lookaheads(g, f));
    las
}

/// Adds to `dest` an item for each production of nonterminal `x`, with the
/// dot at the front and `la` as lookahead.
fn add_fresh_items(cfg: &CFG, x: usize, la: Symbol, dest: &mut ItemSet)
    requires
        cfg.wf(),
        x < cfg.productions.len(),
        old(dest).wf(),
    ensures
        final(dest).wf(),
        extends(old(dest).elements(), final(dest).elements()),
        forall|c: Item|
            final(dest)@.contains(c) <==> old(dest)@.contains(c) || exists|k: int|
                0 <= k < cfg@.rules[x as int].len() && c == #[trigger] fresh_item(cfg@, x, k, la),
{
    let ghost g = cfg@;
    let prods = &cfg.productions[x];
    let mut k: usize = 0;
    while k < prods.len()
        invariant
            k <= prods.len(),
            cfg.wf(),
            g == cfg@,
            x < cfg.productions.len(),
            prods == &cfg.productions[x as int],
            dest.wf(),
            extends(old(dest).elements(), dest.elements()),
            forall|c: Item|
                dest@.contains(c) <==> old(dest)@.contains(c) || exists|j: int|
                    0 <= j < k && c == #[trigger] fresh_item(g, x, j, la),
        decreases prods.len() - k,
    {
        let ghost before = dest@;
        let reading = first_position(prods[k].rhs.as_slice(), 0);
        let item = Item { reading, nonterminal: x, production: k, lookahead: la };
        assert(item == fresh_item(g, x, k as int, la));
        dest.insert(item);
        proof {
            assert forall|c: Item| dest@.contains(c) implies old(dest)@.contains(c) || exists|j: int|
                0 <= j < k + 1 && c == #[trigger] fresh_item(g, x, j, la) by {
                if before.contains(c) && !old(dest)@.contains(c) {
                    let j = choose|j: int| 0 <= j < k && c == #[trigger] fresh_item(g, x, j, la);
                    assert(0 <= j < k + 1);
                }
            }
        }
        k += 1;
    }
}

/// Adds to `dest` the items that `item` brings into a closure: where the
/// dot of `item` is before a nonterminal, one item for each production of
/// that nonterminal and each lookahead in FIRST of what follows, with the
/// lookahead of `item` behind it. What `dest` holds keeps its place.
pub fn closure_item(cfg: &CFG, firsts: &Vec<SymbolSet>, item: &Item, dest: &mut ItemSet)
    requires
        firsts_fit(cfg, firsts@),
        item.valid(cfg@),
        old(dest).wf(),
    ensures
        final(dest).wf(),
        final(dest)@ == old(dest)@.union(children(cfg@, set_views(firsts@), *item)),
        extends(old(dest).elements(), final(dest).elements()),
{
    let ghost g = cfg@;
    let ghost f = set_views(firsts@);
    let rhs = &cfg.productions[item.nonterminal][item.production].rhs;
    assert(rhs@ == item.rhs(g));
    if item.reading >= rhs.len() {
        assert(dest@ =~= dest@.union(children(g, f, *item)));
        return ;
    }
    let x = match rhs[item.reading] {
        Symbol::Nonterminal(x) => x,
        _ => {
            assert(dest@ =~= dest@.union(children(g, f, *item)));
            return ;
        },
    };
    assert(g.rules[item.nonterminal as int][item.production as int][item.reading as int].valid(g));
    let las = item_lookaheads(cfg, firsts, item);
    let count = las.len();
    let mut i: usize = 0;
    while i < count
        invariant
            i <= count,
            count == las.elements().len(),
            las.wf(),
            cfg.wf(),
            g == cfg@,
            x < cfg.productions.len(),
            dest.wf(),
            extends(old(dest).elements(), dest.elements()),
            forall|c: Item|
                dest@.contains(c) <==> old(dest)@.contains(c) || exists|j: int, k: int|
                    0 <= j < i && 0 <= k < g.rules[x as int].len() && c == #[trigger] fresh_item(
                        g,
                        x,
                        k,
                        las.elements()[j],
                    ),
        decreases count - i,
    {
        let ghost before = dest@;
        let la = las.get(i);
        add_fresh_items(cfg, x, la, dest);
        proof {
            assert forall|c: Item| dest@.contains(c) implies old(dest)@.contains(c) || exists|
                j: int,
                k: int,
            |
                0 <= j < i + 1 && 0 <= k < g.rules[x as int].len() && c == #[trigger] fresh_item(
                    g,
                    x,
                    k,
                    las.elements()[j],
                ) by {
                if before.contains(c) {
                    if !old(dest)@.contains(c) {
                        let (j, k) = choose|j: int, k: int|
                            0 <= j < i && 0 <= k < g.rules[x as int].len() && c
                                == #[trigger] fresh_item(g, x, k, las.elements()[j]);
                        assert(0 <= j < i + 1);
                    }
                } else {
                    let k = choose|k: int|
                        0 <= k < g.rules[x as int].len() && c == #[trigger] fresh_item(g, x, k, la);
                    assert(c == fresh_item(g, x, k, las.elements()[i as int]));
                }
            }
            assert forall|c: Item|
                old(dest)@.contains(c) || (exists|j: int, k: int|
                    0 <= j < i + 1 && 0 <= k < g.rules[x as int].len() && c
                        == #[trigger] fresh_item(g, x, k, las.elements()[j])) implies dest@.contains(
                c,
            ) by {
                if !before.contains(c) {
                    let (j, k) = choose|j: int, k: int|
                        0 <= j < i + 1 && 0 <= k < g.rules[x as int].len() && c
                            == #[trigger] fresh_item(g, x, k, las.elements()[j]);
                    if j < i {
                        assert(before.contains(c));
                    } else {
                        assert(c == fresh_item(g, x, k, la));
                    }
                }
            }
        }
        i += 1;
    }
    proof {
        let goal = old(dest)@.union(children(g, f, *item));
        assert forall|c: Item| dest@.contains(c) implies goal.contains(c) by {
            if !old(dest)@.contains(c) {
                let (j, k) = choose|j: int, k: int|
                    0 <= j < count && 0 <= k < g.rules[x as int].len() && c
                        == #[trigger] fresh_item(g, x, k, las.elements()[j]);
                assert(las@.contains(las.elements()[j]));
                assert(g.rules[x as int][k].len() == cfg.productions[x as int][k].rhs.len());
                lemma_skip_empty_bounds(g.rules[x as int][k], 0);
                assert(item.yields(g, f, c));
            }
        }
        assert forall|c: Item| goal.contains(c) implies dest@.contains(c) by {
            if !old(dest)@.contains(c) {
                assert(item.yields(g, f, c));
                let j = choose|j: int|
                    0 <= j < las.elements().len() && las.elements()[j] == c.lookahead;
                assert(c == fresh_item(g, x, c.production as int, las.elements()[j]));
            }
        }
        assert(dest@ =~= goal);
    }
}

/// The closure of an item set: the least set that holds the items given
/// and whatever its items bring. The items given keep their places.
pub fn closure(itemset: ItemSet, cfg: &CFG, firsts: &Vec<SymbolSet>) -> (r: ItemSet)
    requires
        firsts_fit(cfg, firsts@),
        itemset.wf(),
        items_valid(itemset@, cfg@),
    ensures
        r.wf(),
        r@ == closure_set(cfg@, set_views(firsts@), itemset@),
        items_valid(r@, cfg@),
        extends(itemset.elements(), r.elements()),
{
    let ghost g = cfg@;
    let ghost f = set_views(firsts@);
    let ghost start = itemset@;
    let ghost goal = closure_set(g, f, start);
    let mut set = itemset;
    let mut i: usize = 0;
    proof {
        lemma_closure_contains(g, f, start);
        lemma_closure_closed(g, f, start);
        lemma_closure_valid(g, f, start);
        lemma_all_items_finite(g);
    }
    while i < set.len()
        invariant
            i <= set.elements().len(),
            firsts_fit(cfg, firsts@),
            g == cfg@,
            f == set_views(firsts@),
            goal == closure_set(g, f, start),
            closed(g, f, goal),
            items_valid(goal, g),
            all_items(g).finite(),
            set.wf(),
            start.subset_of(set@),
            set@.subset_of(goal),
            extends(itemset.elements(), set.elements()),
            forall|j: int| 0 <= j < i ==> (#[trigger] children(g, f, set.elements()[j])).subset_of(set@),
        decreases all_items(g).len() - i,
    {
        proof {
            // the set holds items of the grammar only, and there are finitely many
            set.lemma_finite();
            assert(set@.subset_of(all_items(g)));
            vstd::set_lib::lemma_len_subset(set@, all_items(g));
        }
        let ghost before = set.elements();
        let item = set.get(i);
        assert(goal.contains(item));
        closure_item(cfg, firsts, &item, &mut set);
        proof {
            assert forall|c: Item| children(g, f, item).contains(c) implies goal.contains(c) by {
                assert(item.yields(g, f, c));
            }
            assert forall|j: int| 0 <= j < i + 1 implies (#[trigger] children(
                g,
                f,
                set.elements()[j],
            )).subset_of(set@) by {
                assert(set.elements()[j] == before[j]);
                if j < i {
                    assert(children(g, f, before[j]).subset_of(before.to_set()));
                }
            }
        }
        i += 1;
    }
    proof {
        assert forall|parent: Item, child: Item|
            set@.contains(parent) && #[trigger] parent.yields(g, f, child) implies set@.contains(
            child,
        ) by {
            let j = choose|j: int| 0 <= j < set.elements().len() && set.elements()[j] == parent;
            assert(children(g, f, set.elements()[j]).subset_of(set@));
            assert(children(g, f, parent).contains(child));
        }
        lemma_closure_least(g, f, start, set@);
        assert(set@ =~= goal);
    }
    set
}

/// Where the automaton goes from `items` on `symbol`: the items with the
/// dot before `symbol`, the dot moved over it, and their closure.
pub fn goto(cfg: &CFG, firsts: &Vec<SymbolSet>, items: &ItemSet, symbol: Symbol) -> (r: ItemSet)
    requires
        firsts_fit(cfg, firsts@),
        items.wf(),
        items_valid(items@, cfg@),
    ensures
        r.wf(),
        r@ == goto_set(cfg@, set_views(firsts@), items@, symbol),
        items_valid(r@, cfg@),
{
    let ghost g = cfg@;
    let mut moved = ItemSet::new();
    let count = items.len();
    let mut i: usize = 0;
    assert(moved@ =~= kernel(g, items.elements().take(0).to_set(), symbol));
    while i < count
        invariant
            i <= count,
            count == items.elements().len(),
            cfg.wf(),
            g == cfg@,
            items.wf(),
            items_valid(items@, g),
            moved.wf(),
            moved@ == kernel(g, items.elements().take(i as int).to_set(), symbol),
        decreases count - i,
    {
        let ghost before = items.elements().take(i as int).to_set();
        let ghost had = moved@;
        let item = items.get(i);
        assert(item.valid(g));
        let rhs = &cfg.productions[item.nonterminal][item.production].rhs;
        assert(rhs@ == item.rhs(g));
        proof {
            assert(items.elements().take(i + 1) =~= items.elements().take(i as int).push(item));
            items.elements().take(i as int).lemma_push_to_set_commute(item);
        }
        if item.reading < rhs.len() && rhs[item.reading] == symbol {
            let reading = first_position(rhs.as_slice(), item.reading + 1);
            let next = Item {
                reading,
                nonterminal: item.nonterminal,
                production: item.production,
                lookahead: item.lookahead,
            };
            assert(next == item.advance(g));
            moved.insert(next);
        }
        proof {
            let after = before.insert(item);
            assert forall|k: Item| moved@.contains(k) implies kernel(g, after, symbol).contains(k) by {
                if had.contains(k) {
                    let w = choose|w: Item|
                        before.contains(w) && w.next_symbol(g) == Some(symbol) && k
                            == #[trigger] w.advance(g);
                    assert(after.contains(w));
                } else {
                    assert(after.contains(item) && k == item.advance(g));
                }
            }
            assert forall|k: Item| kernel(g, after, symbol).contains(k) implies moved@.contains(k) by {
                let w = choose|w: Item|
                    after.contains(w) && w.next_symbol(g) == Some(symbol) && k
                        == #[trigger] w.advance(g);
                if w != item {
                    assert(before.contains(w));
                    assert(had.contains(k));
                }
            }
            assert(moved@ =~= kernel(g, after, symbol));
        }
        i += 1;
    }
    proof {
        assert(items.elements().take(count as int) =~= items.elements());
        lemma_kernel_valid(g, items@, symbol);
    }
    closure(moved, cfg, firsts)
}

/// The symbols that stand behind the dot of some item.
fn next_symbols_of(cfg: &CFG, items: &ItemSet) -> (r: SymbolSet)
    requires
        cfg.wf(),
        items.wf(),
        items_valid(items@, cfg@),
    ensures
        r.wf(),
        r@ == next_symbols(cfg@, items@),
{
    let ghost g = cfg@;
    let mut symbols = SymbolSet::new();
    let count = items.len();
    let mut i: usize = 0;
    assert(symbols@ =~= next_symbols(g, items.elements().take(0).to_set()));
    while i < count
        invariant
            i <= count,
            count == items.elements().len(),
            cfg.wf(),
            g == cfg@,
            items.wf(),
            items_valid(items@, g),
            symbols.wf(),
            symbols@ == next_symbols(g, items.elements().take(i as int).to_set()),
        decreases count - i,
    {
        let ghost before = items.elements().take(i as int).to_set();
        let ghost had = symbols@;
        let item = items.get(i);
        assert(item.valid(g));
        let rhs = &cfg.productions[item.nonterminal][item.production].rhs;
        assert(rhs@ == item.rhs(g));
        proof {
            assert(items.elements().take(i + 1) =~= items.elements().take(i as int).push(item));
            items.elements().take(i as int).lemma_push_to_set_commute(item);
        }
        if item.reading < rhs.len() {
            symbols.insert(rhs[item.reading]);
        }
        proof {
            let after = before.insert(item);
            assert forall|x: Symbol| symbols@.contains(x) implies next_symbols(g, after).contains(
                x,
            ) by {
                if had.contains(x) {
                    let w = choose|w: Item| before.contains(w) && #[trigger] w.next_symbol(g) == Some(x);
                    assert(after.contains(w));
                } else {
                    assert(after.contains(item) && item.next_symbol(g) == Some(x));
                }
            }
            assert forall|x: Symbol| next_symbols(g, after).contains(x) implies symbols@.contains(
                x,
            ) by {
                let w = choose|w: Item| after.contains(w) && #[trigger] w.next_symbol(g) == Some(x);
                if w != item {
                    assert(before.contains(w));
                    assert(had.contains(x));
                }
            }
            assert(symbols@ =~= next_symbols(g, after));
        }
        i += 1;
    }
    proof {
        assert(items.elements().take(count as int) =~= items.elements());
    }
    symbols
}

/// Whether two item sets hold the same items, in whatever order.
pub fn itemsets_equal(a: &ItemSet, b: &ItemSet) -> (r: bool)
    requires
        a.wf(),
        b.wf(),
    ensures
        r == (a@ == b@),
{
    proof {
        a.lemma_finite();
        b.lemma_finite();
    }
    if a.len() != b.len() {
        return false;
    }
    let count = a.len();
    let mut i: usize = 0;
    while i < count
        invariant
            i <= count,
            count == a.elements().len(),
            forall|j: int| 0 <= j < i ==> b@.contains(#[trigger] a.elements()[j]),
        decreases count - i,
    {
        let item = a.get(i);
        if !b.contains(&item) {
            return false;
        }
        i += 1;
    }
    proof {
        assert(a@.subset_of(b@));
        vstd::set_lib::lemma_subset_equality(a@, b@);
    }
    true
}

/// One state of the automaton: its item set and where it goes on each
/// symbol.
pub struct DFAState {
    pub id: usize,
    pub itemset: ItemSet,
    pub transitions: SymbolMap<usize>,
}

/// The automaton. State 0 is the start state.
pub struct DFA {
    pub states: Vec<DFAState>,
}

/// The symbols of a list of transitions.
pub open spec fn adjacent_symbols(adj: Seq<(Symbol, ItemSet)>) -> Seq<Symbol> {
    Seq::new(adj.len(), |p: int| adj[p].0)
}

/// State `s` carries its own number, and its parts are well formed.
pub open spec fn state_shape(states: Seq<DFAState>, g: Grammar, s: int) -> bool {
    &&& states[s].id == s
    &&& states[s].itemset.wf()
    &&& items_valid(states[s].itemset@, g)
    &&& states[s].transitions.wf()
}

/// The transitions `transitions` out of state `s` lead where goto says.
pub open spec fn transitions_sound(
    states: Seq<DFAState>,
    g: Grammar,
    firsts: Seq<Set<Symbol>>,
    s: int,
    transitions: Map<Symbol, usize>,
) -> bool {
    forall|x: Symbol| #[trigger]
        transitions.contains_key(x) ==> transitions[x] < states.len() && states[transitions[x] as int].itemset@
            == goto_set(g, firsts, states[s].itemset@, x)
}

/// State `t` is the target of a transition out of a state with a smaller
/// number.
pub open spec fn has_predecessor(states: Seq<DFAState>, t: int) -> bool {
    exists|s: int, x: Symbol|
        0 <= s < t && #[trigger] states[s].transitions@.contains_key(x) && states[s].transitions@[x]
            == t
}

/// No two states hold the same items.
pub open spec fn states_distinct(states: Seq<DFAState>) -> bool {
    forall|s: int, t: int|
        0 <= s < t < states.len() ==> (#[trigger] states[s]).itemset@ != (#[trigger] states[t]).itemset@
}

impl DFA {
    /// The automaton is the canonical LR(1) automaton of `g` under the FIRST
    /// sets `firsts`: state 0 is the closure of the start item; each state
    /// has a transition on exactly the symbols behind the dots of its
    /// items, and it leads to the state that holds the goto set; no two
    /// states hold the same items; and each state but the first is entered
    /// from a state with a smaller number.
    pub open spec fn wf(&self, g: Grammar, firsts: Seq<Set<Symbol>>) -> bool {
        &&& self.states.len() >= 1
        &&& self.states[0].itemset@ == closure_set(g, firsts, set![start_item()])
        &&& forall|s: int| 0 <= s < self.states.len() ==> #[trigger] state_shape(self.states@, g, s)
        &&& forall|s: int|
            0 <= s < self.states.len() ==> #[trigger] transitions_sound(
                self.states@,
                g,
                firsts,
                s,
                self.states[s].transitions@,
            )
        &&& forall|s: int|
            0 <= s < self.states.len() ==> (#[trigger] self.states[s]).transitions@.dom()
                == next_symbols(g, self.states[s].itemset@)
        &&& states_distinct(self.states@)
        &&& forall|t: int| 1 <= t < self.states.len() ==> #[trigger] has_predecessor(self.states@, t)
    }

    /// State `t` is reached from state 0 by at most `n` transitions.
    pub open spec fn reachable_in(&self, t: int, n: nat) -> bool
        decreases n,
    {
        if n == 0 {
            t == 0
        } else {
            self.reachable_in(t, (n - 1) as nat) || exists|s: int, x: Symbol|
                0 <= s < self.states.len() && self.reachable_in(s, (n - 1) as nat)
                    && #[trigger] self.states[s].transitions@.contains_key(x)
                    && self.states[s].transitions@[x] == t
        }
    }

    /// State `t` is reached from state 0 by transitions.
    pub open spec fn reachable(&self, t: int) -> bool {
        exists|n: nat| self.reachable_in(t, n)
    }

    /// Every state of the automaton is reached from state 0 by transitions.
    pub proof fn lemma_reachable(&self, g: Grammar, firsts: Seq<Set<Symbol>>, t: int)
        requires
            self.wf(g, firsts),
            0 <= t < self.states.len(),
        ensures
            self.reachable(t),
        decreases t,
    {
        if t == 0 {
            assert(self.reachable_in(0, 0));
        } else {
            assert(has_predecessor(self.states@, t));
            let (s, x) = choose|s: int, x: Symbol|
                0 <= s < t && #[trigger] self.states@[s].transitions@.contains_key(x)
                    && self.states@[s].transitions@[x] == t;
            self.lemma_reachable(g, firsts, s);
            let n = choose|n: nat| self.reachable_in(s, n);
            assert(self.reachable_in(t, n + 1));
        }
    }
}

/// For each symbol behind the dot of some item of the state, the symbol and
/// where the automaton goes on it. No symbol is listed twice.
pub fn get_dfa_transitions(state: &DFAState, cfg: &CFG, firsts: &Vec<SymbolSet>) -> (adj: Vec<
    (Symbol, ItemSet),
>)
    requires
        firsts_fit(cfg, firsts@),
        state.itemset.wf(),
        items_valid(state.itemset@, cfg@),
    ensures
        adjacent_symbols(adj@).no_duplicates(),
        adjacent_symbols(adj@).to_set() == next_symbols(cfg@, state.itemset@),
        forall|p: int|
            0 <= p < adj.len() ==> {
                &&& (#[trigger] adj[p]).1.wf()
                &&& items_valid(adj[p].1@, cfg@)
                &&& adj[p].1@ == goto_set(cfg@, set_views(firsts@), state.itemset@, adj[p].0)
            },
{
    let ghost g = cfg@;
    let symbols = next_symbols_of(cfg, &state.itemset);
    let count = symbols.len();
    let mut adj: Vec<(Symbol, ItemSet)> = Vec::new();
    let mut i: usize = 0;
    while i < count
        invariant
            i <= count,
            count == symbols.elements().len(),
            symbols.wf(),
            firsts_fit(cfg, firsts@),
            g == cfg@,
            state.itemset.wf(),
            items_valid(state.itemset@, g),
            adj.len() == i,
            forall|p: int| 0 <= p < i ==> (#[trigger] adj[p]).0 == symbols.elements()[p],
            forall|p: int|
                0 <= p < i ==> {
                    &&& (#[trigger] adj[p]).1.wf()
                    &&& items_valid(adj[p].1@, g)
                    &&& adj[p].1@ == goto_set(g, set_views(firsts@), state.itemset@, adj[p].0)
                },
        decreases count - i,
    {
        let symbol = symbols.get(i);
        let target = goto(cfg, firsts, &state.itemset, symbol);
        adj.push((symbol, target));
        i += 1;
    }
    proof {
        assert(adjacent_symbols(adj@) =~= symbols.elements());
    }
    adj
}

/// The number of the state that holds the items of `set`, if there is one.
fn find_state(states: &Vec<DFAState>, set: &ItemSet) -> (r: Option<usize>)
    requires
        set.wf(),
        forall|s: int| 0 <= s < states.len() ==> (#[trigger] states[s]).itemset.wf(),
    ensures
        match r {
            Some(j) => j < states.len() && states[j as int].itemset@ == set@,
            None => forall|s: int| 0 <= s < states.len() ==> (#[trigger] states[s]).itemset@ != set@,
        },
{
    let mut j: usize = 0;
    while j < states.len()
        invariant
            j <= states.len(),
            set.wf(),
            forall|s: int| 0 <= s < states.len() ==> (#[trigger] states[s]).itemset.wf(),
            forall|s: int| 0 <= s < j ==> (#[trigger] states[s]).itemset@ != set@,
        decreases states.len() - j,
    {
        if itemsets_equal(set, &states[j].itemset) {
            return Some(j);
        }
        j += 1;
    }
    None
}

/// The states found so far form part of the automaton: the first `done`
/// states have all their transitions, the others have none yet.
pub open spec fn building(
    states: Seq<DFAState>,
    g: Grammar,
    firsts: Seq<Set<Symbol>>,
    done: int,
) -> bool {
    &&& states.len() >= 1
    &&& 0 <= done <= states.len()
    &&& states[0].itemset@ == closure_set(g, firsts, set![start_item()])
    &&& forall|s: int| 0 <= s < states.len() ==> #[trigger] state_shape(states, g, s)
    &&& forall|s: int|
        0 <= s < states.len() ==> #[trigger] transitions_sound(
            states,
            g,
            firsts,
            s,
            states[s].transitions@,
        )
    &&& forall|s: int|
        0 <= s < done ==> (#[trigger] states[s]).transitions@.dom() == next_symbols(
            g,
            states[s].itemset@,
        )
    &&& forall|s: int|
        done <= s < states.len() ==> (#[trigger] states[s]).transitions@.dom() == Set::<Symbol>::empty()
    &&& states_distinct(states)
    &&& forall|t: int| 1 <= t < states.len() ==> #[trigger] has_predecessor(states, t)
}

/// State `t` is the target of one of the transitions `transitions`.
pub open spec fn entered_by(transitions: Map<Symbol, usize>, t: int) -> bool {
    exists|x: Symbol| #[trigger] transitions.contains_key(x) && transitions[x] == t
}

/// The states found so far, while state `i` is given its transitions:
/// `transitions` are those it has got already.
pub open spec fn expanding(
    states: Seq<DFAState>,
    g: Grammar,
    firsts: Seq<Set<Symbol>>,
    i: int,
    transitions: Map<Symbol, usize>,
) -> bool {
    &&& states.len() >= 1
    &&& 0 <= i < states.len()
    &&& states[0].itemset@ == closure_set(g, firsts, set![start_item()])
    &&& forall|s: int| 0 <= s < states.len() ==> #[trigger] state_shape(states, g, s)
    &&& forall|s: int|
        0 <= s < states.len() ==> #[trigger] transitions_sound(
            states,
            g,
            firsts,
            s,
            states[s].transitions@,
        )
    &&& transitions_sound(states, g, firsts, i, transitions)
    &&& forall|s: int|
        0 <= s < i ==> (#[trigger] states[s]).transitions@.dom() == next_symbols(
            g,
            states[s].itemset@,
        )
    &&& forall|s: int|
        i <= s < states.len() ==> (#[trigger] states[s]).transitions@.dom() == Set::<Symbol>::empty()
    &&& states_distinct(states)
    &&& forall|t: int|
        1 <= t < states.len() ==> #[trigger] has_predecessor(states, t) || (i < t && entered_by(
            transitions,
            t,
        ))
}

/// The item sets of the states, state by state.
pub open spec fn state_items(states: Seq<DFAState>) -> Seq<Set<Item>> {
    Seq::new(states.len(), |s: int| states[s].itemset@)
}

/// There are no more states than sets of items, where no two states hold
/// the same items.
proof fn lemma_states_bounded(states: Seq<DFAState>, g: Grammar)
    requires
        all_item_sets(g).finite(),
        states_distinct(states),
        forall|s: int| 0 <= s < states.len() ==> #[trigger] state_shape(states, g, s),
    ensures
        states.len() <= all_item_sets(g).len(),
{
    let views = state_items(states);
    assert(views.no_duplicates()) by {
        assert forall|s: int, t: int| 0 <= s < views.len() && 0 <= t < views.len() && s != t implies views[s]
            != views[t] by {
            if s < t {
                assert(states[s].itemset@ != states[t].itemset@);
            } else {
                assert(states[t].itemset@ != states[s].itemset@);
            }
        }
    }
    views.unique_seq_to_set();
    assert(views.to_set().subset_of(all_item_sets(g))) by {
        assert forall|x: Set<Item>| views.to_set().contains(x) implies all_item_sets(g).contains(x) by {
            let s = choose|s: int| 0 <= s < views.len() && views[s] == x;
            assert(state_shape(states, g, s));
        }
    }
    vstd::set_lib::lemma_len_subset(views.to_set(), all_item_sets(g));
}

/// The canonical LR(1) automaton of the grammar under the FIRST sets given.
pub fn generate_dfa(cfg: &CFG, firsts: &Vec<SymbolSet>) -> (dfa: DFA)
    requires
        firsts_fit(cfg, firsts@),
    ensures
        dfa.wf(cfg@, set_views(firsts@)),
{
    let ghost g = cfg@;
    let ghost f = set_views(firsts@);
    let mut start_set = ItemSet::new();
    start_set.insert(Item { reading: 0, nonterminal: 0, production: 0, lookahead: Symbol::EOF() });
    proof {
        assert(start_set@ =~= set![start_item()]);
        assert(start_item().valid(g));
    }
    let start_set = closure(start_set, cfg, firsts);
    let mut states: Vec<DFAState> = Vec::new();
    states.push(DFAState { id: 0, itemset: start_set, transitions: SymbolMap::new() });
    let mut i: usize = 0;
    proof {
        assert(transitions_sound(states@, g, f, 0, states@[0].transitions@));
        assert(state_shape(states@, g, 0));
        lemma_all_item_sets_finite(g);
    }
    while i < states.len()
        invariant
            firsts_fit(cfg, firsts@),
            g == cfg@,
            f == set_views(firsts@),
            building(states@, g, f, i as int),
            all_item_sets(g).finite(),
        decreases all_item_sets(g).len() - i,
    {
        proof {
            // the states hold different sets of items, and there are finitely many
            lemma_states_bounded(states@, g);
        }
        assert(state_shape(states@, g, i as int));
        let mut adj = get_dfa_transitions(&states[i], cfg, firsts);
        let ghost all = adj@;
        let ghost symbols = adjacent_symbols(all);
        let ghost items = states@[i as int].itemset@;
        let mut transitions: SymbolMap<usize> = SymbolMap::new();
        proof {
            assert(symbols.skip(all.len() as int) =~= Seq::<Symbol>::empty());
            assert(all.take(all.len() as int) =~= all);
        }
        while adj.len() > 0
            invariant
                firsts_fit(cfg, firsts@),
                g == cfg@,
                f == set_views(firsts@),
                i < states.len(),
                items == states@[i as int].itemset@,
                expanding(states@, g, f, i as int, transitions@),
                transitions.wf(),
                adj.len() <= all.len(),
                adj@ == all.take(adj.len() as int),
                symbols == adjacent_symbols(all),
                symbols.no_duplicates(),
                symbols.to_set() == next_symbols(g, items),
                transitions@.dom() == symbols.skip(adj.len() as int).to_set(),
                forall|p: int|
                    0 <= p < all.len() ==> {
                        &&& (#[trigger] all[p]).1.wf()
                        &&& items_valid(all[p].1@, g)
                        &&& all[p].1@ == goto_set(g, f, items, all[p].0)
                    },
            decreases adj.len(),
        {
            let ghost before = states@;
            let ghost had = transitions@;
            let ghost p = adj.len() - 1;
            let (symbol, target) = adj.pop().unwrap();
            proof {
                assert(all[p] == (symbol, target));
                assert(symbols[p] == symbol);
                assert(adj@ =~= all.take(p));
                assert forall|s: int| 0 <= s < states.len() implies (#[trigger] states@[s]).itemset.wf() by {
                    assert(state_shape(states@, g, s));
                }
                if had.contains_key(symbol) {
                    let rest = symbols.skip(p + 1);
                    let q = choose|q: int| 0 <= q < rest.len() && rest[q] == symbol;
                    assert(symbols[p + 1 + q] == symbol);
                }
            }
            let j = match find_state(&states, &target) {
                Some(j) => j,
                None => {
                    let id = states.len();
                    states.push(DFAState { id, itemset: target, transitions: SymbolMap::new() });
                    id
                },
            };
            transitions.insert_new(symbol, j);
            proof {
                let now = states@;
                let t = transitions@;
                assert(now.len() >= before.len());
                assert forall|s: int| 0 <= s < before.len() implies now[s] == before[s] by {}
                assert(now[j as int].itemset@ == target@);
                assert forall|s: int| 0 <= s < now.len() implies #[trigger] state_shape(now, g, s) by {
                    if s < before.len() {
                        assert(state_shape(before, g, s));
                    }
                }
                assert forall|s: int| 0 <= s < now.len() implies #[trigger] transitions_sound(
                    now,
                    g,
                    f,
                    s,
                    now[s].transitions@,
                ) by {
                    if s < before.len() {
                        assert(transitions_sound(before, g, f, s, before[s].transitions@));
                    }
                }
                assert(transitions_sound(now, g, f, i as int, t)) by {
                    assert forall|x: Symbol| #[trigger] t.contains_key(x) implies t[x] < now.len()
                        && now[t[x] as int].itemset@ == goto_set(g, f, now[i as int].itemset@, x) by {
                        if x != symbol {
                            assert(had.contains_key(x));
                        }
                    }
                }
                assert forall|s: int| 0 <= s < i implies (#[trigger] now[s]).transitions@.dom()
                    == next_symbols(g, now[s].itemset@) by {
                    assert(now[s] == before[s]);
                }
                assert forall|s: int| i <= s < now.len() implies (#[trigger] now[s]).transitions@.dom()
                    == Set::<Symbol>::empty() by {
                    if s < before.len() {
                        assert(now[s] == before[s]);
                    }
                }
                assert(states_distinct(now)) by {
                    assert forall|s: int, u: int| 0 <= s < u < now.len() implies (#[trigger] now[s]).itemset@
                        != (#[trigger] now[u]).itemset@ by {
                        if u < before.len() {
                            assert(before[s].itemset@ != before[u].itemset@);
                        } else {
                            assert(before[s].itemset@ != target@);
                        }
                    }
                }
                assert forall|u: int| 1 <= u < now.len() implies #[trigger] has_predecessor(now, u) || (i
                    < u && entered_by(t, u)) by {
                    if u < before.len() {
                        if has_predecessor(before, u) {
                            let (s, x) = choose|s: int, x: Symbol|
                                0 <= s < u && #[trigger] before[s].transitions@.contains_key(x)
                                    && before[s].transitions@[x] == u;
                            assert(now[s].transitions@.contains_key(x));
                        } else {
                            let x = choose|x: Symbol| #[trigger] had.contains_key(x) && had[x] == u;
                            assert(t.contains_key(x) && t[x] == u);
                        }
                    } else {
                        assert(t.contains_key(symbol) && t[symbol] == u);
                    }
                }
                let rest = symbols.skip(p + 1);
                let more = symbols.skip(p);
                assert(t.dom() =~= more.to_set()) by {
                    assert forall|x: Symbol| more.to_set().contains(x) implies t.dom().contains(x) by {
                        let q = choose|q: int| 0 <= q < more.len() && more[q] == x;
                        if q > 0 {
                            assert(rest[q - 1] == x);
                        }
                    }
                    assert forall|x: Symbol| t.dom().contains(x) implies more.to_set().contains(x) by {
                        if x == symbol {
                            assert(more[0] == x);
                        } else {
                            let q = choose|q: int| 0 <= q < rest.len() && rest[q] == x;
                            assert(more[q + 1] == x);
                        }
                    }
                }
            }
        }
        let ghost before = states@;
        proof {
            assert(symbols.skip(0) =~= symbols);
        }
        states[i].transitions = transitions;
        proof {
            let now = states@;
            assert(now.len() == before.len());
            assert forall|s: int| 0 <= s < now.len() && s != i implies now[s] == before[s] by {}
            assert(now[i as int].itemset == before[i as int].itemset);
            assert(now[i as int].id == before[i as int].id);
            assert forall|s: int| 0 <= s < now.len() implies #[trigger] state_shape(now, g, s) by {
                assert(state_shape(before, g, s));
            }
            assert forall|s: int| 0 <= s < now.len() implies #[trigger] transitions_sound(
                now,
                g,
                f,
                s,
                now[s].transitions@,
            ) by {
                assert(transitions_sound(before, g, f, s, before[s].transitions@));
                assert forall|x: Symbol| #[trigger] now[s].transitions@.contains_key(x) implies now[s].transitions@[x]
                    < now.len() && now[now[s].transitions@[x] as int].itemset@ == goto_set(
                    g,
                    f,
                    now[s].itemset@,
                    x,
                ) by {
                    let u = now[s].transitions@[x] as int;
                    if s != i {
                        assert(before[s].transitions@.contains_key(x));
                    }
                    assert(now[u].itemset == before[u].itemset);
                }
            }
            assert forall|s: int| 0 <= s < i + 1 implies (#[trigger] now[s]).transitions@.dom()
                == next_symbols(g, now[s].itemset@) by {
                if s < i {
                    assert(now[s] == before[s]);
                }
            }
            assert forall|s: int| i + 1 <= s < now.len() implies (#[trigger] now[s]).transitions@.dom()
                == Set::<Symbol>::empty() by {
                assert(now[s] == before[s]);
            }
            assert(states_distinct(now)) by {
                assert forall|s: int, u: int| 0 <= s < u < now.len() implies (#[trigger] now[s]).itemset@
                    != (#[trigger] now[u]).itemset@ by {
                    assert(before[s].itemset@ != before[u].itemset@);
                    assert(now[s].itemset == before[s].itemset);
                    assert(now[u].itemset == before[u].itemset);
                }
            }
            assert forall|u: int| 1 <= u < now.len() implies #[trigger] has_predecessor(now, u) by {
                if has_predecessor(before, u) {
                    let (s, x) = choose|s: int, x: Symbol|
                        0 <= s < u && #[trigger] before[s].transitions@.contains_key(x)
                            && before[s].transitions@[x] == u;
                    assert(s != i) by {
                        assert(before[i as int].transitions@.dom() == Set::<Symbol>::empty());
                    }
                    assert(now[s].transitions@.contains_key(x));
                } else {
                    let x = choose|x: Symbol| #[trigger]
                        transitions@.contains_key(x) && transitions@[x] == u;
                    assert(now[i as int].transitions@.contains_key(x));
                }
            }
        }
        i += 1;
    }
    DFA { states }
}

/// What an item calls for: the item that accepts calls for accepting on
/// the end marker; an item with the dot at the end, of another nonterminal
/// than the added start symbol, calls for reducing by its production on its
/// lookahead.
pub open spec fn item_cell(g: Grammar, item: Item) -> Option<(Symbol, TableCell)> {
    if item == accept_item() {
        Some((Symbol::EOF(), TableCell::Accept()))
    } else if item.complete(g) && item.nonterminal != 0 {
        Some(
            (
                item.lookahead,
                TableCell::Reduce(
                    g.production_id(item.nonterminal as int, item.production as int) as usize,
                ),
            ),
        )
    } else {
        None
    }
}

/// What a transition calls for: shifting on a terminal, going on a
/// nonterminal.
pub open spec fn transition_cell(symbol: Symbol, target: usize) -> Option<(Symbol, TableCell)> {
    match symbol {
        Symbol::Terminal(_) => Some((symbol, TableCell::Shift(target))),
        Symbol::Nonterminal(_) => Some((symbol, TableCell::Goto(target))),
        _ => None,
    }
}

/// An item of `items` calls for `cell` on `symbol`.
pub open spec fn item_justified(g: Grammar, items: Set<Item>, symbol: Symbol, cell: TableCell) -> bool {
    exists|item: Item| items.contains(item) && #[trigger] item_cell(g, item) == Some((symbol, cell))
}

/// A state with the items `items` and the transitions `transitions` calls
/// for `cell` on `symbol`.
pub open spec fn justified(
    g: Grammar,
    items: Set<Item>,
    transitions: Map<Symbol, usize>,
    symbol: Symbol,
    cell: TableCell,
) -> bool {
    ||| item_justified(g, items, symbol, cell)
    ||| transitions.contains_key(symbol) && transition_cell(symbol, transitions[symbol]) == Some(
        (symbol, cell),
    )
}

/// A state calls for two different cells on one symbol.
pub open spec fn conflict(
    g: Grammar,
    items: Set<Item>,
    transitions: Map<Symbol, usize>,
    symbol: Symbol,
    first: TableCell,
    second: TableCell,
) -> bool {
    &&& first != second
    &&& justified(g, items, transitions, symbol, first)
    &&& justified(g, items, transitions, symbol, second)
}

/// A state calls for at most one cell on each symbol.
pub open spec fn conflict_free(g: Grammar, items: Set<Item>, transitions: Map<Symbol, usize>) -> bool {
    forall|symbol: Symbol, first: TableCell, second: TableCell|
        !#[trigger] conflict(g, items, transitions, symbol, first, second)
}

/// The row holds exactly the cells that the state calls for.
pub open spec fn row_matches(g: Grammar, state: DFAState, row: TableRow) -> bool {
    &&& row.cells.wf()
    &&& forall|symbol: Symbol, cell: TableCell| #[trigger]
        row.cells@.contains_pair(symbol, cell) <==> justified(
            g,
            state.itemset@,
            state.transitions@,
            symbol,
            cell,
        )
}

/// Puts `cell` at `symbol`. Fails where another cell is there already.
fn set_cell(cells: &mut SymbolMap<TableCell>, state: usize, symbol: Symbol, cell: TableCell) -> (r:
    Result<(), TableErr>)
    requires
        old(cells).wf(),
    ensures
        final(cells).wf(),
        match r {
            Ok(_) => {
                &&& final(cells)@ == old(cells)@.insert(symbol, cell)
                &&& old(cells)@.contains_key(symbol) ==> old(cells)@[symbol] == cell
            },
            Err(e) => {
                &&& final(cells)@ == old(cells)@
                &&& old(cells)@.contains_key(symbol)
                &&& old(cells)@[symbol] != cell
                &&& e == (TableErr::Conflict {
                    state,
                    symbol,
                    existing: old(cells)@[symbol],
                    incoming: cell,
                })
            },
        },
{
    match cells.get(&symbol) {
        None => {
            cells.insert_new(symbol, cell);
            Ok(())
        },
        Some(existing) => {
            if existing == cell {
                assert(cells@ =~= cells@.insert(symbol, cell));
                Ok(())
            } else {
                Err(TableErr::Conflict { state, symbol, existing, incoming: cell })
            }
        },
    }
}

/// The row of a state: a reduction for each item with the dot at the end,
/// on its lookahead; accepting for the item that accepts, on the end
/// marker; a shift for each transition on a terminal and a goto for each on
/// a nonterminal. Where two different cells are called for on one symbol,
/// the result is that conflict. `offsets` holds, for each nonterminal, the
/// id of its first production.
pub fn generate_table_row(state: &DFAState, cfg: &CFG, offsets: &Vec<usize>) -> (r: Result<
    TableRow,
    TableErr,
>)
    requires
        cfg.wf(),
        state.itemset.wf(),
        items_valid(state.itemset@, cfg@),
        state.transitions.wf(),
        offsets.len() == cfg.productions.len(),
        forall|a: int| 0 <= a < offsets.len() ==> #[trigger] offsets[a] == cfg@.offset(a),
    ensures
        match r {
            Ok(row) => row_matches(cfg@, *state, row),
            Err(TableErr::Conflict { state: s, symbol, existing, incoming }) => {
                &&& s == state.id
                &&& conflict(cfg@, state.itemset@, state.transitions@, symbol, existing, incoming)
            },
        },
{
    let ghost g = cfg@;
    let ghost items = state.itemset@;
    let ghost transitions = state.transitions@;
    let mut cells: SymbolMap<TableCell> = SymbolMap::new();
    let count = state.itemset.len();
    let mut i: usize = 0;
    while i < count
        invariant
            i <= count,
            count == state.itemset.elements().len(),
            cfg.wf(),
            g == cfg@,
            items == state.itemset@,
            state.itemset.wf(),
            items_valid(items, g),
            offsets.len() == cfg.productions.len(),
            forall|a: int| 0 <= a < offsets.len() ==> #[trigger] offsets[a] == g.offset(a),
            cells.wf(),
            forall|symbol: Symbol, cell: TableCell| #[trigger]
                cells@.contains_pair(symbol, cell) <==> item_justified(
                    g,
                    state.itemset.elements().take(i as int).to_set(),
                    symbol,
                    cell,
                ),
        decreases count - i,
    {
        let ghost before = state.itemset.elements().take(i as int).to_set();
        let ghost had = cells@;
        let item = state.itemset.get(i);
        assert(item.valid(g));
        proof {
            assert(state.itemset.elements().take(i + 1) =~= state.itemset.elements().take(
                i as int,
            ).push(item));
            state.itemset.elements().take(i as int).lemma_push_to_set_commute(item);
            lemma_production_id(
                g,
                item.nonterminal as int,
                item.production as int,
                item.nonterminal as int,
                item.production as int,
            );
        }
        let rhs = &cfg.productions[item.nonterminal][item.production].rhs;
        assert(rhs@ == item.rhs(g));
        let wanted: Option<(Symbol, TableCell)> = if item.nonterminal == 0 && item.production == 0
            && item.reading == 1 && item.lookahead == Symbol::EOF() {
            Some((Symbol::EOF(), TableCell::Accept()))
        } else if item.reading == rhs.len() && item.nonterminal != 0 {
            Some((item.lookahead, TableCell::Reduce(offsets[item.nonterminal] + item.production)))
        } else {
            None
        };
        assert(wanted == item_cell(g, item));
        match wanted {
            Some((symbol, cell)) => {
                match set_cell(&mut cells, state.id, symbol, cell) {
                    Ok(_) => {},
                    Err(e) => {
                        proof {
                            let existing = had[symbol];
                            assert(had.contains_pair(symbol, existing));
                            let w = choose|w: Item|
                                before.contains(w) && #[trigger] item_cell(g, w) == Some(
                                    (symbol, existing),
                                );
                            assert(items.contains(w));
                            assert(items.contains(item));
                            assert(item_justified(g, items, symbol, existing));
                            assert(item_justified(g, items, symbol, cell));
                        }
                        return Err(e);
                    },
                }
            },
            None => {},
        }
        proof {
            let after = before.insert(item);
            assert forall|symbol: Symbol, cell: TableCell| #[trigger]
                cells@.contains_pair(symbol, cell) implies item_justified(g, after, symbol, cell) by {
                if had.contains_pair(symbol, cell) {
                    let w = choose|w: Item|
                        before.contains(w) && #[trigger] item_cell(g, w) == Some((symbol, cell));
                    assert(after.contains(w));
                } else {
                    assert(after.contains(item) && item_cell(g, item) == Some((symbol, cell)));
                }
            }
            assert forall|symbol: Symbol, cell: TableCell|
                item_justified(g, after, symbol, cell) implies #[trigger] cells@.contains_pair(
                symbol,
                cell,
            ) by {
                let w = choose|w: Item|
                    after.contains(w) && #[trigger] item_cell(g, w) == Some((symbol, cell));
                if w != item {
                    assert(before.contains(w));
                    assert(item_justified(g, before, symbol, cell));
                    assert(had.contains_pair(symbol, cell));
                }
            }
        }
        i += 1;
    }
    proof {
        assert(state.itemset.elements().take(count as int) =~= state.itemset.elements());
    }
    let total = state.transitions.len();
    let ghost keys = state.transitions.keys();
    let mut k: usize = 0;
    while k < total
        invariant
            k <= total,
            total == keys.len(),
            keys == state.transitions.keys(),
            state.transitions.wf(),
            transitions == state.transitions@,
            items == state.itemset@,
            g == cfg@,
            cells.wf(),
            forall|symbol: Symbol, cell: TableCell| #[trigger]
                cells@.contains_pair(symbol, cell) <==> item_justified(g, items, symbol, cell) || (
                keys.take(k as int).contains(symbol) && transition_cell(symbol, transitions[symbol])
                    == Some((symbol, cell))),
        decreases total - k,
    {
        let ghost had = cells@;
        let ghost seen = keys.take(k as int);
        let x = state.transitions.key_at(k);
        let target = state.transitions.value_at(k);
        let wanted: Option<(Symbol, TableCell)> = match x {
            Symbol::Terminal(_) => Some((x, TableCell::Shift(target))),
            Symbol::Nonterminal(_) => Some((x, TableCell::Goto(target))),
            _ => None,
        };
        assert(wanted == transition_cell(x, transitions[x]));
        proof {
            assert(keys.take(k + 1) =~= seen.push(x));
            assert(!seen.contains(x)) by {
                if seen.contains(x) {
                    let q = choose|q: int| 0 <= q < seen.len() && seen[q] == x;
                    assert(keys[q] == x && keys[k as int] == x);
                }
            }
        }
        match wanted {
            Some((symbol, cell)) => {
                match set_cell(&mut cells, state.id, symbol, cell) {
                    Ok(_) => {},
                    Err(e) => {
                        proof {
                            let existing = had[symbol];
                            assert(had.contains_pair(symbol, existing));
                        }
                        return Err(e);
                    },
                }
            },
            None => {},
        }
        proof {
            let now = seen.push(x);
            assert forall|symbol: Symbol, cell: TableCell| #[trigger]
                cells@.contains_pair(symbol, cell) implies item_justified(g, items, symbol, cell) || (
                now.contains(symbol) && transition_cell(symbol, transitions[symbol]) == Some(
                    (symbol, cell),
                )) by {
                if had.contains_pair(symbol, cell) {
                    if seen.contains(symbol) {
                        let q = choose|q: int| 0 <= q < seen.len() && seen[q] == symbol;
                        assert(now[q] == symbol);
                    }
                } else {
                    assert(now[k as int] == x);
                }
            }
            assert forall|symbol: Symbol, cell: TableCell|
                item_justified(g, items, symbol, cell) || (now.contains(symbol) && transition_cell(
                    symbol,
                    transitions[symbol],
                ) == Some((symbol, cell))) implies #[trigger] cells@.contains_pair(symbol, cell) by {
                if item_justified(g, items, symbol, cell) {
                    assert(had.contains_pair(symbol, cell));
                } else {
                    let q = choose|q: int| 0 <= q < now.len() && now[q] == symbol;
                    if q < k {
                        assert(seen[q] == symbol);
                        assert(had.contains_pair(symbol, cell));
                    }
                }
            }
        }
        k += 1;
    }
    proof {
        assert(keys.take(total as int) =~= keys);
        assert forall|symbol: Symbol| keys.contains(symbol) <==> transitions.contains_key(symbol) by {
            assert(transitions.dom() == keys.to_set());
        }
    }
    Ok(TableRow { cells })
}

/// What building the table of the automaton `states` gives: the table whose
/// rows hold exactly the cells that the states call for, or the conflict of
/// the first state that has one.
pub open spec fn table_result(g: Grammar, states: Seq<DFAState>, r: Result<Table, TableErr>) -> bool {
    match r {
        Ok(table) => {
            &&& table.rows.len() == states.len()
            &&& forall|s: int|
                0 <= s < states.len() ==> #[trigger] row_matches(g, states[s], table.rows[s])
        },
        Err(TableErr::Conflict { state, symbol, existing, incoming }) => {
            &&& state < states.len()
            &&& conflict(
                g,
                states[state as int].itemset@,
                states[state as int].transitions@,
                symbol,
                existing,
                incoming,
            )
            &&& forall|s: int|
                0 <= s < state ==> #[trigger] conflict_free(
                    g,
                    states[s].itemset@,
                    states[s].transitions@,
                )
        },
    }
}

/// A row that holds exactly what its state calls for shows that the state
/// has no conflict.
pub proof fn lemma_row_conflict_free(g: Grammar, state: DFAState, row: TableRow)
    requires
        row_matches(g, state, row),
    ensures
        conflict_free(g, state.itemset@, state.transitions@),
{
    assert forall|symbol: Symbol, first: TableCell, second: TableCell|
        !#[trigger] conflict(g, state.itemset@, state.transitions@, symbol, first, second) by {
        if justified(g, state.itemset@, state.transitions@, symbol, first) && justified(
            g,
            state.itemset@,
            state.transitions@,
            symbol,
            second,
        ) {
            assert(row.cells@.contains_pair(symbol, first));
            assert(row.cells@.contains_pair(symbol, second));
        }
    }
}

/// A table is built if and only if no state calls for two different cells
/// on one symbol.
pub proof fn lemma_table_iff_conflict_free(g: Grammar, states: Seq<DFAState>, r: Result<Table, TableErr>)
    requires
        table_result(g, states, r),
    ensures
        r is Ok <==> forall|s: int|
            0 <= s < states.len() ==> #[trigger] conflict_free(
                g,
                states[s].itemset@,
                states[s].transitions@,
            ),
{
    match r {
        Ok(table) => {
            assert forall|s: int| 0 <= s < states.len() implies #[trigger] conflict_free(
                g,
                states[s].itemset@,
                states[s].transitions@,
            ) by {
                assert(row_matches(g, states[s], table.rows[s]));
                lemma_row_conflict_free(g, states[s], table.rows[s]);
            }
        },
        Err(TableErr::Conflict { state, symbol, existing, incoming }) => {
            let s = state as int;
            assert(conflict(g, states[s].itemset@, states[s].transitions@, symbol, existing, incoming));
            assert(!conflict_free(g, states[s].itemset@, states[s].transitions@));
        },
    }
}

/// The table of an automaton, or the first conflict: that of the state with
/// the smallest number that calls for two different cells on one symbol.
pub fn generate_table<'a>(dfa: &DFA, cfg: &'a CFG<'a>) -> (r: Result<Table<'a>, TableErr>)
    requires
        cfg.wf(),
        forall|s: int| 0 <= s < dfa.states.len() ==> #[trigger] state_shape(dfa.states@, cfg@, s),
    ensures
        table_result(cfg@, dfa.states@, r),
        r matches Ok(table) ==> table.wf() && table.cfg == cfg,
{
    let ghost g = cfg@;
    let offsets = cfg.production_offsets();
    let mut rows: Vec<TableRow> = Vec::new();
    let mut s: usize = 0;
    while s < dfa.states.len()
        invariant
            s <= dfa.states.len(),
            cfg.wf(),
            g == cfg@,
            forall|t: int| 0 <= t < dfa.states.len() ==> #[trigger] state_shape(dfa.states@, g, t),
            offsets.len() == cfg.productions.len(),
            forall|a: int| 0 <= a < offsets.len() ==> #[trigger] offsets[a] == g.offset(a),
            rows.len() == s,
            forall|t: int| 0 <= t < s ==> #[trigger] row_matches(g, dfa.states@[t], rows@[t]),
        decreases dfa.states.len() - s,
    {
        assert(state_shape(dfa.states@, g, s as int));
        match generate_table_row(&dfa.states[s], cfg, &offsets) {
            Ok(row) => {
                rows.push(row);
            },
            Err(e) => {
                proof {
                    assert forall|t: int| 0 <= t < s implies #[trigger] conflict_free(
                        g,
                        dfa.states@[t].itemset@,
                        dfa.states@[t].transitions@,
                    ) by {
                        assert(row_matches(g, dfa.states@[t], rows@[t]));
                        lemma_row_conflict_free(g, dfa.states@[t], rows@[t]);
                    }
                }
                return Err(e);
            },
        }
        s += 1;
    }
    let table = Table { rows, cfg };
    proof {
        assert forall|t: int| 0 <= t < table.rows.len() implies (#[trigger] table.rows[t]).cells.wf() by {
            assert(row_matches(g, dfa.states@[t], table.rows@[t]));
        }
    }
    Ok(table)
}

/// The LR(1) table of the grammar: the table of its canonical automaton
/// under its FIRST sets, or the first conflict, which shows that the
/// grammar is not LR(1).
pub fn generate<'a>(cfg: &'a CFG<'a>) -> (r: Result<Table<'a>, TableErr>)
    requires
        cfg.wf(),
    ensures
        exists|dfa: DFA| #[trigger] dfa.wf(cfg@, first_sets(cfg@)) && table_result(cfg@, dfa.states@, r),
        r matches Ok(table) ==> table.wf() && table.cfg == cfg,
{
    let firsts = cfg.generate_firsts();
    let dfa = generate_dfa(cfg, &firsts);
    let r = generate_table(&dfa, cfg);
    assert(dfa.wf(cfg@, first_sets(cfg@)) && table_result(cfg@, dfa.states@, r));
    r
}

} // verus!
