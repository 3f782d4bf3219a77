//! LR(1) items, item sets, and what closure and goto mean.

use vstd::prelude::*;
use crate::first::{
    entries, first_of_string, lemma_entries_finite, lemma_first_of_string_entries, sets_within,
    string_valid,
};
use crate::grammar::{Grammar, Symbol};

verus! {

/// A production with a dot in its right-hand side and a lookahead token.
/// The production is named by its nonterminal and its place among that
/// nonterminal's productions; `reading` is the position of the dot.
#[derive(PartialEq, Eq, Structural, Hash, Copy, Clone, Debug)]
pub struct Item {
    pub reading: usize,
    pub nonterminal: usize,
    pub production: usize,
    pub lookahead: Symbol,
}

/// The position of the first symbol of `s` at or behind `from` that is not
/// the empty marker, or the length of `s` if there is none. The dot of an
/// item passes over empty markers, which stand for nothing to read.
pub open spec fn skip_empty(s: Seq<Symbol>, from: int) -> int
    decreases s.len() - from,
{
    if 0 <= from < s.len() && s[from] == Symbol::Empty() {
        skip_empty(s, from + 1)
    } else {
        from
    }
}

impl Item {
    /// The right-hand side of the item's production.
    pub open spec fn rhs(self, g: Grammar) -> Seq<Symbol> {
        g.rules[self.nonterminal as int][self.production as int]
    }

    /// The item names a production of `g`, its dot is within the right-hand
    /// side, and its lookahead is a token that `g` knows.
    pub open spec fn valid(self, g: Grammar) -> bool {
        &&& self.nonterminal < g.rules.len()
        &&& self.production < g.rules[self.nonterminal as int].len()
        &&& self.reading <= self.rhs(g).len()
        &&& self.lookahead.is_token()
        &&& self.lookahead.valid(g)
    }

    /// The symbol behind the dot, if the dot is not at the end.
    pub open spec fn next_symbol(self, g: Grammar) -> Option<Symbol> {
        if self.reading < self.rhs(g).len() {
            Some(self.rhs(g)[self.reading as int])
        } else {
            None
        }
    }

    /// The dot is at the end: the whole right-hand side has been read.
    pub open spec fn complete(self, g: Grammar) -> bool {
        self.reading == self.rhs(g).len()
    }

    /// The item with the dot moved over the symbol behind it.
    pub open spec fn advance(self, g: Grammar) -> Item {
        Item {
            reading: skip_empty(self.rhs(g), self.reading + 1) as usize,
            nonterminal: self.nonterminal,
            production: self.production,
            lookahead: self.lookahead,
        }
    }

    /// The lookaheads of the items that this item brings into a closure:
    /// FIRST of what stands behind the symbol after the dot, followed by the
    /// item's own lookahead.
    pub open spec fn lookaheads(self, g: Grammar, firsts: Seq<Set<Symbol>>) -> Set<Symbol> {
        first_of_string(firsts, self.rhs(g).skip(self.reading + 1).push(self.lookahead))
    }

    /// `child` is one of the items that `self` brings into a closure: the dot
    /// of `self` is before a nonterminal, `child` is a production of that
    /// nonterminal with the dot at the front, and its lookahead is one of
    /// `self.lookaheads`.
    pub open spec fn yields(self, g: Grammar, firsts: Seq<Set<Symbol>>, child: Item) -> bool {
        &&& self.next_symbol(g) == Some(Symbol::Nonterminal(child.nonterminal))
        &&& child.nonterminal < g.rules.len()
        &&& child.production < g.rules[child.nonterminal as int].len()
        &&& child.reading == skip_empty(child.rhs(g), 0)
        &&& self.lookaheads(g, firsts).contains(child.lookahead)
    }
}

/// The item that every automaton starts from: `S' -> . S <eof>` with the
/// end marker as lookahead.
pub open spec fn start_item() -> Item {
    Item { reading: 0, nonterminal: 0, production: 0, lookahead: Symbol::EOF() }
}

/// The item that accepts: `S' -> S . <eof>` with the end marker as
/// lookahead.
pub open spec fn accept_item() -> Item {
    Item { reading: 1, nonterminal: 0, production: 0, lookahead: Symbol::EOF() }
}

/// Every item of `items` is valid.
pub open spec fn items_valid(items: Set<Item>, g: Grammar) -> bool {
    forall|item: Item| items.contains(item) ==> #[trigger] item.valid(g)
}

/// `items` is closed: it holds whatever its items bring.
pub open spec fn closed(g: Grammar, firsts: Seq<Set<Symbol>>, items: Set<Item>) -> bool {
    forall|parent: Item, child: Item|
        items.contains(parent) && #[trigger] parent.yields(g, firsts, child) ==> items.contains(
            child,
        )
}

/// `x` is reached from `items` in at most `n` steps of bringing in.
pub open spec fn in_closure(
    g: Grammar,
    firsts: Seq<Set<Symbol>>,
    items: Set<Item>,
    x: Item,
    n: nat,
) -> bool
    decreases n,
{
    if n == 0 {
        items.contains(x)
    } else {
        in_closure(g, firsts, items, x, (n - 1) as nat) || exists|parent: Item|
            in_closure(g, firsts, items, parent, (n - 1) as nat) && #[trigger] parent.yields(
                g,
                firsts,
                x,
            )
    }
}

/// The closure of `items`: the least closed set that contains them.
pub open spec fn closure_set(g: Grammar, firsts: Seq<Set<Symbol>>, items: Set<Item>) -> Set<Item> {
    Set::new(|x: Item| exists|n: nat| in_closure(g, firsts, items, x, n))
}

/// The items of `items` with the dot before `symbol`, the dot moved over it.
pub open spec fn kernel(g: Grammar, items: Set<Item>, symbol: Symbol) -> Set<Item> {
    Set::new(
        |k: Item|
            exists|item: Item|
                items.contains(item) && item.next_symbol(g) == Some(symbol) && k
                    == #[trigger] item.advance(g),
    )
}

/// Where the automaton goes from `items` on `symbol`.
pub open spec fn goto_set(
    g: Grammar,
    firsts: Seq<Set<Symbol>>,
    items: Set<Item>,
    symbol: Symbol,
) -> Set<Item> {
    closure_set(g, firsts, kernel(g, items, symbol))
}

/// The symbols that stand behind the dot of some item of `items`.
pub open spec fn next_symbols(g: Grammar, items: Set<Item>) -> Set<Symbol> {
    Set::new(
        |symbol: Symbol|
            exists|item: Item| items.contains(item) && #[trigger] item.next_symbol(g) == Some(symbol),
    )
}

/// The closure contains the items it is taken of.
pub proof fn lemma_closure_contains(g: Grammar, firsts: Seq<Set<Symbol>>, items: Set<Item>)
    ensures
        items.subset_of(closure_set(g, firsts, items)),
{
    assert forall|x: Item| items.contains(x) implies closure_set(g, firsts, items).contains(x) by {
        assert(in_closure(g, firsts, items, x, 0));
    }
}

/// The closure is closed.
pub proof fn lemma_closure_closed(g: Grammar, firsts: Seq<Set<Symbol>>, items: Set<Item>)
    ensures
        closed(g, firsts, closure_set(g, firsts, items)),
{
    let c = closure_set(g, firsts, items);
    assert forall|parent: Item, child: Item|
        c.contains(parent) && #[trigger] parent.yields(g, firsts, child) implies c.contains(
        child,
    ) by {
        let n = choose|n: nat| in_closure(g, firsts, items, parent, n);
        assert(in_closure(g, firsts, items, child, n + 1));
    }
}

/// The closure is the least closed set that contains the items.
pub proof fn lemma_closure_least(
    g: Grammar,
    firsts: Seq<Set<Symbol>>,
    items: Set<Item>,
    other: Set<Item>,
)
    requires
        items.subset_of(other),
        closed(g, firsts, other),
    ensures
        closure_set(g, firsts, items).subset_of(other),
{
    assert forall|x: Item| closure_set(g, firsts, items).contains(x) implies other.contains(x) by {
        let n = choose|n: nat| in_closure(g, firsts, items, x, n);
        lemma_in_closure_within(g, firsts, items, other, x, n);
    }
}

proof fn lemma_in_closure_within(
    g: Grammar,
    firsts: Seq<Set<Symbol>>,
    items: Set<Item>,
    other: Set<Item>,
    x: Item,
    n: nat,
)
    requires
        items.subset_of(other),
        closed(g, firsts, other),
        in_closure(g, firsts, items, x, n),
    ensures
        other.contains(x),
    decreases n,
{
    if n > 0 {
        if in_closure(g, firsts, items, x, (n - 1) as nat) {
            lemma_in_closure_within(g, firsts, items, other, x, (n - 1) as nat);
        } else {
            let parent = choose|parent: Item|
                in_closure(g, firsts, items, parent, (n - 1) as nat) && #[trigger] parent.yields(
                    g,
                    firsts,
                    x,
                );
            lemma_in_closure_within(g, firsts, items, other, parent, (n - 1) as nat);
        }
    }
}

/// A closed set is its own closure.
pub proof fn lemma_closure_of_closed(g: Grammar, firsts: Seq<Set<Symbol>>, items: Set<Item>)
    requires
        closed(g, firsts, items),
    ensures
        closure_set(g, firsts, items) == items,
{
    lemma_closure_least(g, firsts, items, items);
    lemma_closure_contains(g, firsts, items);
    assert(closure_set(g, firsts, items) =~= items);
}

/// Taking the closure of a closure adds nothing.
pub proof fn lemma_closure_idempotent(g: Grammar, firsts: Seq<Set<Symbol>>, items: Set<Item>)
    ensures
        closure_set(g, firsts, closure_set(g, firsts, items)) == closure_set(g, firsts, items),
{
    lemma_closure_closed(g, firsts, items);
    lemma_closure_of_closed(g, firsts, closure_set(g, firsts, items));
}

/// Skipping empty markers stays within the string.
pub proof fn lemma_skip_empty_bounds(s: Seq<Symbol>, from: int)
    requires
        0 <= from <= s.len(),
    ensures
        from <= skip_empty(s, from) <= s.len(),
        skip_empty(s, from) < s.len() ==> s[skip_empty(s, from)] != Symbol::Empty(),
        forall|j: int| from <= j < skip_empty(s, from) ==> s[j] == Symbol::Empty(),
    decreases s.len() - from,
{
    if from < s.len() && s[from] == Symbol::Empty() {
        lemma_skip_empty_bounds(s, from + 1);
    }
}

/// FIRST of a string followed by a token: FIRST of the string, with the
/// token in place of the empty marker.
pub proof fn lemma_first_of_string_push(firsts: Seq<Set<Symbol>>, beta: Seq<Symbol>, a: Symbol)
    requires
        a.is_token(),
    ensures
        first_of_string(firsts, beta.push(a)) == if first_of_string(firsts, beta).contains(
            Symbol::Empty(),
        ) {
            first_of_string(firsts, beta).remove(Symbol::Empty()).insert(a)
        } else {
            first_of_string(firsts, beta)
        },
    decreases beta.len(),
{
    let full = beta.push(a);
    if beta.len() == 0 {
        assert(full.drop_first() =~= Seq::<Symbol>::empty());
        assert(first_of_string(firsts, full) =~= set![a]);
        assert(set![Symbol::Empty()].remove(Symbol::Empty()).insert(a) =~= set![a]);
    } else {
        assert(full.drop_first() =~= beta.drop_first().push(a));
        assert(full[0] == beta[0]);
        lemma_first_of_string_push(firsts, beta.drop_first(), a);
        let f = first_of_string(firsts, beta);
        let goal = if f.contains(Symbol::Empty()) {
            f.remove(Symbol::Empty()).insert(a)
        } else {
            f
        };
        assert(first_of_string(firsts, full) =~= goal);
    }
}

/// What a valid item brings into a closure is valid.
pub proof fn lemma_yields_valid(g: Grammar, firsts: Seq<Set<Symbol>>, parent: Item, child: Item)
    requires
        g.wf(),
        sets_within(firsts, entries(g)),
        parent.valid(g),
        parent.yields(g, firsts, child),
    ensures
        child.valid(g),
{
    let beta = parent.rhs(g).skip(parent.reading + 1);
    lemma_first_of_string_push(firsts, beta, parent.lookahead);
    assert(string_valid(beta, g)) by {
        assert forall|j: int| 0 <= j < beta.len() implies (#[trigger] beta[j]).valid(g) by {
            assert(beta[j] == g.rules[parent.nonterminal as int][parent.production as int][
                parent.reading + 1 + j
            ]);
        }
    }
    lemma_first_of_string_entries(g, firsts, beta);
    lemma_skip_empty_bounds(child.rhs(g), 0);
}

/// The closure of valid items holds valid items only.
pub proof fn lemma_closure_valid(g: Grammar, firsts: Seq<Set<Symbol>>, items: Set<Item>)
    requires
        g.wf(),
        sets_within(firsts, entries(g)),
        items_valid(items, g),
    ensures
        items_valid(closure_set(g, firsts, items), g),
{
    assert forall|x: Item| closure_set(g, firsts, items).contains(x) implies #[trigger] x.valid(g) by {
        let n = choose|n: nat| in_closure(g, firsts, items, x, n);
        lemma_in_closure_valid(g, firsts, items, x, n);
    }
}

proof fn lemma_in_closure_valid(
    g: Grammar,
    firsts: Seq<Set<Symbol>>,
    items: Set<Item>,
    x: Item,
    n: nat,
)
    requires
        g.wf(),
        sets_within(firsts, entries(g)),
        items_valid(items, g),
        in_closure(g, firsts, items, x, n),
    ensures
        x.valid(g),
    decreases n,
{
    if n > 0 {
        if in_closure(g, firsts, items, x, (n - 1) as nat) {
            lemma_in_closure_valid(g, firsts, items, x, (n - 1) as nat);
        } else {
            let parent = choose|parent: Item|
                in_closure(g, firsts, items, parent, (n - 1) as nat) && #[trigger] parent.yields(
                    g,
                    firsts,
                    x,
                );
            lemma_in_closure_valid(g, firsts, items, parent, (n - 1) as nat);
            lemma_yields_valid(g, firsts, parent, x);
        }
    }
}

/// Moving the dot of valid items gives valid items.
pub proof fn lemma_kernel_valid(g: Grammar, items: Set<Item>, symbol: Symbol)
    requires
        items_valid(items, g),
    ensures
        items_valid(kernel(g, items, symbol), g),
{
    assert forall|k: Item| kernel(g, items, symbol).contains(k) implies #[trigger] k.valid(g) by {
        let item = choose|item: Item|
            items.contains(item) && item.next_symbol(g) == Some(symbol) && k
                == #[trigger] item.advance(g);
        assert(item.valid(g));
        lemma_skip_empty_bounds(item.rhs(g), item.reading + 1);
    }
}

/// All the items of a grammar.
pub open spec fn all_items(g: Grammar) -> Set<Item> {
    Set::new(|item: Item| item.valid(g))
}

/// All the sets of items of a grammar: what a state of its automaton can
/// hold.
pub open spec fn all_item_sets(g: Grammar) -> Set<Set<Item>> {
    Set::new(|items: Set<Item>| items.subset_of(all_items(g)))
}

/// The union of the first `n` sets of a family.
spec fn union_below(family: spec_fn(int) -> Set<Item>, n: int) -> Set<Item> {
    Set::new(|item: Item| exists|i: int| 0 <= i < n && #[trigger] family(i).contains(item))
}

/// A union of finitely many finite sets is finite.
proof fn lemma_union_below_finite(family: spec_fn(int) -> Set<Item>, n: int)
    requires
        forall|i: int| 0 <= i < n ==> #[trigger] family(i).finite(),
    ensures
        union_below(family, n).finite(),
    decreases n,
{
    if n <= 0 {
        assert(union_below(family, n) =~= Set::<Item>::empty());
    } else {
        lemma_union_below_finite(family, n - 1);
        assert(family(n - 1).finite());
        assert(union_below(family, n) =~= union_below(family, n - 1).union(family(n - 1)));
        vstd::set_lib::lemma_set_union_finite_iff(union_below(family, n - 1), family(n - 1));
    }
}

/// The items of the `k`-th production of nonterminal `a` with the dot at
/// `r`: one for each lookahead.
spec fn items_at(g: Grammar, a: int, k: int, r: int) -> Set<Item> {
    entries(g).map(
        |la: Symbol|
            Item { reading: r as usize, nonterminal: a as usize, production: k as usize, lookahead: la },
    )
}

spec fn items_of_production(g: Grammar, a: int, k: int) -> Set<Item> {
    union_below(|r: int| items_at(g, a, k, r), g.rules[a][k].len() as int + 1)
}

spec fn items_of_nonterminal(g: Grammar, a: int) -> Set<Item> {
    union_below(|k: int| items_of_production(g, a, k), g.rules[a].len() as int)
}

/// A grammar has finitely many items.
pub proof fn lemma_all_items_finite(g: Grammar)
    ensures
        all_items(g).finite(),
{
    lemma_entries_finite(g);
    let by_nonterminal = |a: int| items_of_nonterminal(g, a);
    assert forall|a: int| 0 <= a < g.rules.len() implies #[trigger] by_nonterminal(a).finite() by {
        let by_production = |k: int| items_of_production(g, a, k);
        assert forall|k: int| 0 <= k < g.rules[a].len() implies #[trigger] by_production(k).finite() by {
            let by_dot = |r: int| items_at(g, a, k, r);
            assert forall|r: int| 0 <= r < g.rules[a][k].len() + 1 implies #[trigger] by_dot(
                r,
            ).finite() by {
                entries(g).lemma_map_finite(
                    |la: Symbol|
                        Item {
                            reading: r as usize,
                            nonterminal: a as usize,
                            production: k as usize,
                            lookahead: la,
                        },
                );
            }
            lemma_union_below_finite(by_dot, g.rules[a][k].len() as int + 1);
        }
        lemma_union_below_finite(by_production, g.rules[a].len() as int);
    }
    lemma_union_below_finite(by_nonterminal, g.rules.len() as int);
    let all = union_below(by_nonterminal, g.rules.len() as int);
    assert forall|item: Item| all_items(g).contains(item) implies all.contains(item) by {
        let a = item.nonterminal as int;
        let k = item.production as int;
        let r = item.reading as int;
        assert(entries(g).contains(item.lookahead));
        assert(items_at(g, a, k, r).contains(item));
        let by_dot = |r: int| items_at(g, a, k, r);
        assert(by_dot(r).contains(item));
        assert(items_of_production(g, a, k).contains(item));
        let by_production = |k: int| items_of_production(g, a, k);
        assert(by_production(k).contains(item));
        assert(items_of_nonterminal(g, a).contains(item));
        assert(by_nonterminal(a).contains(item));
    }
    vstd::set_lib::lemma_set_subset_finite(all, all_items(g));
}

/// A finite set has finitely many subsets.
proof fn lemma_subsets_finite(u: Set<Item>)
    requires
        u.finite(),
    ensures
        Set::new(|s: Set<Item>| s.subset_of(u)).finite(),
    decreases u.len(),
{
    let subsets = Set::new(|s: Set<Item>| s.subset_of(u));
    if u.len() == 0 {
        assert(u =~= Set::<Item>::empty());
        assert forall|s: Set<Item>| subsets.contains(s) implies s == Set::<Item>::empty() by {
            assert(s =~= Set::<Item>::empty());
        }
        assert(subsets =~= set![Set::<Item>::empty()]);
    } else {
        let e = u.choose();
        let rest = u.remove(e);
        let without = Set::new(|s: Set<Item>| s.subset_of(rest));
        lemma_subsets_finite(rest);
        let with = without.map(|s: Set<Item>| s.insert(e));
        without.lemma_map_finite(|s: Set<Item>| s.insert(e));
        vstd::set_lib::lemma_set_union_finite_iff(without, with);
        assert forall|s: Set<Item>| subsets.contains(s) implies without.union(with).contains(s) by {
            if s.contains(e) {
                let t = s.remove(e);
                assert(t.subset_of(rest));
                assert(t.insert(e) =~= s);
                assert(without.contains(t));
            } else {
                assert(s.subset_of(rest));
            }
        }
        vstd::set_lib::lemma_set_subset_finite(without.union(with), subsets);
    }
}

/// A grammar has finitely many sets of items.
pub proof fn lemma_all_item_sets_finite(g: Grammar)
    ensures
        all_item_sets(g).finite(),
{
    lemma_all_items_finite(g);
    lemma_subsets_finite(all_items(g));
}

/// A set of items, kept as a vector in which nothing occurs twice. Its view
/// is the mathematical set of its items; two item sets are the same state
/// of the automaton when their views are equal.
#[derive(Debug)]
pub struct ItemSet {
    set: Vec<Item>,
}

impl View for ItemSet {
    type V = Set<Item>;

    open spec fn view(&self) -> Set<Item> {
        self.elements().to_set()
    }
}

impl ItemSet {
    /// The items in insertion order.
    pub closed spec fn elements(&self) -> Seq<Item> {
        self.set@
    }

    /// Nothing occurs twice.
    pub open spec fn wf(&self) -> bool {
        self.elements().no_duplicates()
    }

    /// A well-formed set is finite and has as many members as elements.
    pub proof fn lemma_finite(&self)
        requires
            self.wf(),
        ensures
            self@.finite(),
            self@.len() == self.elements().len(),
    {
        self.set@.unique_seq_to_set();
        vstd::seq_lib::seq_to_set_is_finite(self.set@);
    }

    pub fn new() -> (s: ItemSet)
        ensures
            s.wf(),
            s@ == Set::<Item>::empty(),
            s.elements() == Seq::<Item>::empty(),
    {
        ItemSet { set: Vec::new() }
    }

    pub fn len(&self) -> (n: usize)
        requires
            self.wf(),
        ensures
            n == self@.len(),
            n == self.elements().len(),
    {
        proof {
            self.set@.unique_seq_to_set();
        }
        self.set.len()
    }

    /// The `i`-th item in insertion order.
    pub fn get(&self, i: usize) -> (item: Item)
        requires
            i < self.elements().len(),
        ensures
            item == self.elements()[i as int],
            self@.contains(item),
    {
        self.set[i]
    }

    pub fn contains(&self, item: &Item) -> (b: bool)
        ensures
            b == self@.contains(*item),
    {
        let mut i: usize = 0;
        while i < self.set.len()
            invariant
                i <= self.set.len(),
                forall|j: int| 0 <= j < i ==> self.set@[j] != *item,
            decreases self.set.len() - i,
        {
            if self.set[i] == *item {
                return true;
            }
            i += 1;
        }
        false
    }

    /// Adds `item` behind the items that are there; returns whether it was
    /// new.
    pub fn insert(&mut self, item: Item) -> (added: bool)
        requires
            old(self).wf(),
        ensures
            final(self).wf(),
            final(self)@ == old(self)@.insert(item),
            added == !old(self)@.contains(item),
            added ==> final(self).elements() == old(self).elements().push(item),
            !added ==> final(self).elements() == old(self).elements(),
    {
        if self.contains(&item) {
            assert(self@ =~= old(self)@.insert(item));
            false
        } else {
            self.set.push(item);
            proof {
                old(self).set@.lemma_push_to_set_commute(item);
            }
            true
        }
    }
}

} // verus!
