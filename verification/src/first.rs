//! FIRST sets: which symbols can begin what a nonterminal derives.

use vstd::prelude::*;
use crate::grammar::{FirstSet, Grammar, Symbol, CFG};
use crate::symbol_set::SymbolSet;

verus! {

/// The views of a sequence of sets.
pub open spec fn set_views(sets: Seq<SymbolSet>) -> Seq<Set<Symbol>> {
    Seq::new(sets.len(), |i: int| sets[i]@)
}

/// Every set of the sequence is well formed.
pub open spec fn sets_wf(sets: Seq<SymbolSet>) -> bool {
    forall|i: int| 0 <= i < sets.len() ==> (#[trigger] sets[i]).wf()
}

/// Every nonterminal that occurs in `s` is below `n`.
pub open spec fn nonterminals_below(s: Seq<Symbol>, n: nat) -> bool {
    forall|j: int| 0 <= j < s.len() ==> (#[trigger] s[j] matches Symbol::Nonterminal(b) ==> b < n)
}

/// The first symbol of `s` that is not the empty marker, if there is one.
pub open spec fn leading(s: Seq<Symbol>) -> Option<Symbol>
    decreases s.len(),
{
    if s.len() == 0 {
        None
    } else if s[0] == Symbol::Empty() {
        leading(s.drop_first())
    } else {
        Some(s[0])
    }
}

/// The set that `firsts` gives to nonterminal `b`.
pub open spec fn first_at(firsts: Seq<Set<Symbol>>, b: int) -> Set<Symbol> {
    if 0 <= b < firsts.len() {
        firsts[b]
    } else {
        Set::empty()
    }
}

/// FIRST of a string of symbols, given a FIRST set for each nonterminal:
/// the tokens that can begin what the string derives, and the empty marker
/// if the whole string can vanish.
pub open spec fn first_of_string(firsts: Seq<Set<Symbol>>, s: Seq<Symbol>) -> Set<Symbol>
    decreases s.len(),
{
    if s.len() == 0 {
        set![Symbol::Empty()]
    } else {
        let rest = first_of_string(firsts, s.drop_first());
        match s[0] {
            Symbol::Empty() => rest,
            Symbol::Terminal(_) | Symbol::EOF() => set![s[0]],
            Symbol::Nonterminal(b) => {
                let fb = first_at(firsts, b as int);
                if fb.contains(Symbol::Empty()) {
                    fb.remove(Symbol::Empty()).union(rest)
                } else {
                    fb
                }
            },
        }
    }
}

/// One round of the FIRST equations: each nonterminal gets the union of
/// FIRST of its right-hand sides under the sets `prev`.
pub open spec fn first_round(g: Grammar, prev: Seq<Set<Symbol>>) -> Seq<Set<Symbol>> {
    Seq::new(
        g.rules.len(),
        |a: int|
            Set::new(
                |x: Symbol|
                    exists|k: int|
                        0 <= k < g.rules[a].len() && first_of_string(
                            prev,
                            #[trigger] g.rules[a][k],
                        ).contains(x),
            ),
    )
}

/// The sets after `n` rounds, starting from empty sets.
pub open spec fn first_approx(g: Grammar, n: nat) -> Seq<Set<Symbol>>
    decreases n,
{
    if n == 0 {
        Seq::new(g.rules.len(), |a: int| Set::empty())
    } else {
        first_round(g, first_approx(g, (n - 1) as nat))
    }
}

/// FIRST of nonterminal `a`: what some number of rounds puts into its set.
/// This is the least solution of the FIRST equations. It holds the tokens
/// that begin the strings derived from `a`, and the empty marker if `a`
/// derives the empty string.
pub open spec fn first_set(g: Grammar, a: int) -> Set<Symbol> {
    Set::new(|x: Symbol| exists|n: nat| (#[trigger] first_approx(g, n))[a].contains(x))
}

/// The FIRST sets of all nonterminals.
pub open spec fn first_sets(g: Grammar) -> Seq<Set<Symbol>> {
    Seq::new(g.rules.len(), |a: int| first_set(g, a))
}

/// `f1` is contained in `f2`, set by set.
pub open spec fn sets_le(f1: Seq<Set<Symbol>>, f2: Seq<Set<Symbol>>) -> bool {
    &&& f1.len() == f2.len()
    &&& forall|a: int| 0 <= a < f1.len() ==> (#[trigger] f1[a]).subset_of(f2[a])
}

/// FIRST of a string grows with the sets it is computed from.
pub proof fn lemma_first_of_string_monotone(
    f1: Seq<Set<Symbol>>,
    f2: Seq<Set<Symbol>>,
    s: Seq<Symbol>,
)
    requires
        sets_le(f1, f2),
    ensures
        first_of_string(f1, s).subset_of(first_of_string(f2, s)),
    decreases s.len(),
{
    if s.len() > 0 {
        lemma_first_of_string_monotone(f1, f2, s.drop_first());
        match s[0] {
            Symbol::Nonterminal(b) => {
                if 0 <= b < f1.len() {
                    assert(f1[b as int].subset_of(f2[b as int]));
                }
            },
            _ => {},
        }
    }
}

/// A round grows with the sets it starts from.
pub proof fn lemma_first_round_monotone(g: Grammar, f1: Seq<Set<Symbol>>, f2: Seq<Set<Symbol>>)
    requires
        sets_le(f1, f2),
    ensures
        sets_le(first_round(g, f1), first_round(g, f2)),
{
    assert forall|a: int| 0 <= a < g.rules.len() implies (#[trigger] first_round(g, f1)[a]).subset_of(
        first_round(g, f2)[a],
    ) by {
        assert forall|x: Symbol| first_round(g, f1)[a].contains(x) implies first_round(
            g,
            f2,
        )[a].contains(x) by {
            let k = choose|k: int|
                0 <= k < g.rules[a].len() && first_of_string(f1, #[trigger] g.rules[a][k]).contains(
                    x,
                );
            lemma_first_of_string_monotone(f1, f2, g.rules[a][k]);
        }
    }
}

/// The rounds form a chain: each contains the one before.
pub proof fn lemma_first_approx_step(g: Grammar, n: nat)
    ensures
        first_approx(g, n).len() == g.rules.len(),
        sets_le(first_approx(g, n), first_approx(g, n + 1)),
    decreases n,
{
    if n > 0 {
        lemma_first_approx_step(g, (n - 1) as nat);
        lemma_first_round_monotone(g, first_approx(g, (n - 1) as nat), first_approx(g, n));
    }
}

/// The rounds form a chain: a later round contains every earlier one.
pub proof fn lemma_first_approx_chain(g: Grammar, n: nat, m: nat)
    requires
        n <= m,
    ensures
        sets_le(first_approx(g, n), first_approx(g, m)),
    decreases m - n,
{
    lemma_first_approx_step(g, n);
    if n < m {
        lemma_first_approx_chain(g, n + 1, m);
        assert forall|a: int| 0 <= a < g.rules.len() implies (#[trigger] first_approx(g, n)[a]).subset_of(
            first_approx(g, m)[a],
        ) by {
            assert(first_approx(g, n)[a].subset_of(first_approx(g, n + 1)[a]));
            assert(first_approx(g, n + 1)[a].subset_of(first_approx(g, m)[a]));
        }
    }
}

/// Once a round changes nothing, no later round does, and the sets reached
/// are the FIRST sets.
pub proof fn lemma_first_approx_stable(g: Grammar, n: nat)
    requires
        first_approx(g, n + 1) == first_approx(g, n),
    ensures
        first_sets(g) == first_approx(g, n),
{
    lemma_first_approx_step(g, n);
    assert forall|a: int| 0 <= a < g.rules.len() implies first_set(g, a) == first_approx(g, n)[a] by {
        assert forall|x: Symbol| first_set(g, a).contains(x) implies first_approx(g, n)[a].contains(
            x,
        ) by {
            let m = choose|m: nat| (#[trigger] first_approx(g, m))[a].contains(x);
            lemma_first_approx_fixed(g, n, m);
            if m <= n {
                lemma_first_approx_chain(g, m, n);
                assert(first_approx(g, m)[a].subset_of(first_approx(g, n)[a]));
            }
        }
        assert(first_set(g, a) =~= first_approx(g, n)[a]);
    }
    assert(first_sets(g) =~= first_approx(g, n));
}

proof fn lemma_first_approx_fixed(g: Grammar, n: nat, m: nat)
    requires
        first_approx(g, n + 1) == first_approx(g, n),
    ensures
        m >= n ==> first_approx(g, m) == first_approx(g, n),
    decreases m,
{
    if m > n {
        lemma_first_approx_fixed(g, n, (m - 1) as nat);
    }
}

/// The FIRST sets solve the FIRST equations: another round over them
/// changes nothing.
pub proof fn lemma_first_sets_fixed_point(g: Grammar)
    ensures
        first_round(g, first_sets(g)) == first_sets(g),
{
    let fs = first_sets(g);
    assert forall|a: int| 0 <= a < g.rules.len() implies first_round(g, fs)[a] == fs[a] by {
        assert forall|x: Symbol| first_round(g, fs)[a].contains(x) implies fs[a].contains(x) by {
            let k = choose|k: int|
                0 <= k < g.rules[a].len() && first_of_string(fs, #[trigger] g.rules[a][k]).contains(
                    x,
                );
            let n = lemma_first_of_string_reached(g, g.rules[a][k], x);
            assert(first_round(g, first_approx(g, n))[a].contains(x));
            assert(first_approx(g, n + 1)[a].contains(x));
        }
        assert forall|x: Symbol| fs[a].contains(x) implies first_round(g, fs)[a].contains(x) by {
            let n = choose|n: nat| (#[trigger] first_approx(g, n))[a].contains(x);
            lemma_first_approx_step(g, n);
            assert(first_approx(g, n)[a].subset_of(first_approx(g, n + 1)[a]));
            assert(first_approx(g, n + 1)[a].contains(x));
            lemma_first_approx_below(g, n);
            lemma_first_round_monotone(g, first_approx(g, n), fs);
            assert(first_round(g, first_approx(g, n))[a].subset_of(first_round(g, fs)[a]));
        }
        assert(first_round(g, fs)[a] =~= fs[a]);
    }
    assert(first_round(g, fs) =~= fs);
}

/// The FIRST sets are the least solution of the FIRST equations: whatever
/// sets a round does not take beyond themselves contain them.
pub proof fn lemma_first_sets_least(g: Grammar, f: Seq<Set<Symbol>>)
    requires
        sets_le(first_round(g, f), f),
    ensures
        sets_le(first_sets(g), f),
{
    assert forall|a: int| 0 <= a < g.rules.len() implies (#[trigger] first_sets(g)[a]).subset_of(f[a]) by {
        assert forall|x: Symbol| first_set(g, a).contains(x) implies f[a].contains(x) by {
            let n = choose|n: nat| (#[trigger] first_approx(g, n))[a].contains(x);
            lemma_first_approx_within(g, f, n);
            assert(first_approx(g, n)[a].subset_of(f[a]));
        }
    }
}

proof fn lemma_first_approx_within(g: Grammar, f: Seq<Set<Symbol>>, n: nat)
    requires
        sets_le(first_round(g, f), f),
    ensures
        sets_le(first_approx(g, n), f),
    decreases n,
{
    if n > 0 {
        let prev = first_approx(g, (n - 1) as nat);
        lemma_first_approx_within(g, f, (n - 1) as nat);
        lemma_first_round_monotone(g, prev, f);
        assert forall|a: int| 0 <= a < g.rules.len() implies (#[trigger] first_approx(g, n)[a]).subset_of(
            f[a],
        ) by {
            assert(first_round(g, prev)[a].subset_of(first_round(g, f)[a]));
            assert(first_round(g, f)[a].subset_of(f[a]));
        }
    } else {
        assert forall|a: int| 0 <= a < g.rules.len() implies (#[trigger] first_approx(g, 0)[a]).subset_of(
            f[a],
        ) by {}
    }
}

/// Every round stays within the FIRST sets.
pub proof fn lemma_first_approx_below(g: Grammar, n: nat)
    ensures
        sets_le(first_approx(g, n), first_sets(g)),
{
    lemma_first_approx_step(g, n);
}

/// What FIRST of a string holds under the FIRST sets, it holds under the
/// sets of some round.
pub proof fn lemma_first_of_string_reached(g: Grammar, s: Seq<Symbol>, x: Symbol) -> (n: nat)
    requires
        first_of_string(first_sets(g), s).contains(x),
    ensures
        first_of_string(first_approx(g, n), s).contains(x),
    decreases s.len(),
{
    let fs = first_sets(g);
    if s.len() == 0 {
        0
    } else {
        match s[0] {
            Symbol::Empty() => lemma_first_of_string_reached(g, s.drop_first(), x),
            Symbol::Terminal(_) | Symbol::EOF() => 0,
            Symbol::Nonterminal(b) => {
                let fb = first_at(fs, b as int);
                if x != Symbol::Empty() && fb.contains(x) {
                    let n = choose|n: nat| (#[trigger] first_approx(g, n))[b as int].contains(x);
                    lemma_first_approx_step(g, n);
                    n
                } else {
                    let n1 = choose|n: nat|
                        (#[trigger] first_approx(g, n))[b as int].contains(Symbol::Empty());
                    let n2 = lemma_first_of_string_reached(g, s.drop_first(), x);
                    let n = if n1 <= n2 {
                        n2
                    } else {
                        n1
                    };
                    lemma_first_approx_chain(g, n1, n);
                    lemma_first_approx_chain(g, n2, n);
                    lemma_first_approx_step(g, n);
                    lemma_first_of_string_monotone(
                        first_approx(g, n2),
                        first_approx(g, n),
                        s.drop_first(),
                    );
                    assert(first_approx(g, n1)[b as int].subset_of(first_approx(g, n)[b as int]));
                    n
                }
            },
        }
    }
}

/// FIRST of a string whose leading symbol is no nonterminal.
pub proof fn lemma_first_of_string_leading(firsts: Seq<Set<Symbol>>, s: Seq<Symbol>)
    ensures
        leading(s) is None ==> first_of_string(firsts, s) == set![Symbol::Empty()],
        leading(s) matches Some(t) ==> (t.is_token() ==> first_of_string(firsts, s) == set![t]),
        leading(s) matches Some(t) ==> t != Symbol::Empty(),
    decreases s.len(),
{
    if s.len() > 0 {
        lemma_first_of_string_leading(firsts, s.drop_first());
    }
}

/// The symbols that can be members of a FIRST set of `g`.
pub open spec fn entries(g: Grammar) -> Set<Symbol> {
    Set::new(|x: Symbol| x.is_entry(g))
}

/// Every set of `sets` is within `bound`.
pub open spec fn sets_within(sets: Seq<Set<Symbol>>, bound: Set<Symbol>) -> bool {
    forall|a: int| 0 <= a < sets.len() ==> (#[trigger] sets[a]).subset_of(bound)
}

/// Every symbol of `s` is known to `g`.
pub open spec fn string_valid(s: Seq<Symbol>, g: Grammar) -> bool {
    forall|j: int| 0 <= j < s.len() ==> (#[trigger] s[j]).valid(g)
}

/// There are finitely many symbols that a FIRST set can hold.
pub proof fn lemma_entries_finite(g: Grammar)
    ensures
        entries(g).finite(),
{
    let t = g.terminals as int;
    let f = |i: int|
        if i < t {
            Symbol::Terminal(i as usize)
        } else if i == t {
            Symbol::Empty()
        } else {
            Symbol::EOF()
        };
    let range = vstd::set_lib::set_int_range(0, t + 2);
    vstd::set_lib::lemma_int_range(0, t + 2);
    range.lemma_map_finite(f);
    assert forall|x: Symbol| entries(g).contains(x) implies range.map(f).contains(x) by {
        match x {
            Symbol::Terminal(i) => {
                assert(range.contains(i as int) && f(i as int) == x);
            },
            Symbol::Empty() => {
                assert(range.contains(t) && f(t) == x);
            },
            _ => {
                assert(range.contains(t + 1) && f(t + 1) == x);
            },
        }
    }
    vstd::set_lib::lemma_set_subset_finite(range.map(f), entries(g));
}

/// FIRST of a string of known symbols holds only what a FIRST set can hold.
pub proof fn lemma_first_of_string_entries(g: Grammar, firsts: Seq<Set<Symbol>>, s: Seq<Symbol>)
    requires
        sets_within(firsts, entries(g)),
        string_valid(s, g),
    ensures
        first_of_string(firsts, s).subset_of(entries(g)),
    decreases s.len(),
{
    if s.len() > 0 {
        assert(s[0].valid(g));
        assert(string_valid(s.drop_first(), g)) by {
            assert forall|j: int| 0 <= j < s.drop_first().len() implies (#[trigger] s.drop_first()[j]).valid(
                g,
            ) by {
                assert(s.drop_first()[j] == s[j + 1]);
            }
        }
        lemma_first_of_string_entries(g, firsts, s.drop_first());
        match s[0] {
            Symbol::Nonterminal(b) => {
                if 0 <= b < firsts.len() {
                    assert(firsts[b as int].subset_of(entries(g)));
                }
            },
            _ => {},
        }
    }
}

/// A round over sets of entries gives sets of entries.
pub proof fn lemma_first_round_entries(g: Grammar, prev: Seq<Set<Symbol>>)
    requires
        g.wf(),
        sets_within(prev, entries(g)),
    ensures
        sets_within(first_round(g, prev), entries(g)),
{
    assert forall|a: int| 0 <= a < g.rules.len() implies (#[trigger] first_round(g, prev)[a]).subset_of(
        entries(g),
    ) by {
        assert forall|x: Symbol| first_round(g, prev)[a].contains(x) implies entries(g).contains(
            x,
        ) by {
            let k = choose|k: int|
                0 <= k < g.rules[a].len() && first_of_string(prev, #[trigger] g.rules[a][k]).contains(
                    x,
                );
            lemma_first_of_string_entries(g, prev, g.rules[a][k]);
        }
    }
}

/// No FIRST set holds a nonterminal, or a terminal that the grammar lacks.
pub proof fn lemma_first_sets_entries(g: Grammar)
    requires
        g.wf(),
    ensures
        sets_within(first_sets(g), entries(g)),
{
    assert forall|a: int| 0 <= a < g.rules.len() implies (#[trigger] first_sets(g)[a]).subset_of(
        entries(g),
    ) by {
        assert forall|x: Symbol| first_set(g, a).contains(x) implies entries(g).contains(x) by {
            let n = choose|n: nat| (#[trigger] first_approx(g, n))[a].contains(x);
            lemma_first_approx_entries(g, n);
        }
    }
}

proof fn lemma_first_approx_entries(g: Grammar, n: nat)
    requires
        g.wf(),
    ensures
        sets_within(first_approx(g, n), entries(g)),
    decreases n,
{
    if n > 0 {
        lemma_first_approx_entries(g, (n - 1) as nat);
        lemma_first_round_entries(g, first_approx(g, (n - 1) as nat));
    }
}

/// How far the sets are from holding every entry: the sum, over the sets,
/// of the number of members of `u` that the set lacks.
pub open spec fn deficit(sets: Seq<Set<Symbol>>, u: Set<Symbol>) -> int
    decreases sets.len(),
{
    if sets.len() == 0 {
        0
    } else {
        deficit(sets.drop_last(), u) + (u.len() - sets.last().len())
    }
}

/// Growing sets come closer to the bound, and strictly so if one of them
/// really grew.
pub proof fn lemma_deficit_decreases(old: Seq<Set<Symbol>>, new: Seq<Set<Symbol>>, u: Set<Symbol>)
    requires
        u.finite(),
        sets_le(old, new),
        sets_within(new, u),
    ensures
        0 <= deficit(new, u) <= deficit(old, u),
        old != new ==> deficit(new, u) < deficit(old, u),
    decreases old.len(),
{
    if old.len() > 0 {
        let o = old.drop_last();
        let n = new.drop_last();
        assert(sets_le(o, n)) by {
            assert forall|a: int| 0 <= a < o.len() implies (#[trigger] o[a]).subset_of(n[a]) by {
                assert(old[a].subset_of(new[a]));
            }
        }
        assert(sets_within(n, u)) by {
            assert forall|a: int| 0 <= a < n.len() implies (#[trigger] n[a]).subset_of(u) by {
                assert(new[a].subset_of(u));
            }
        }
        lemma_deficit_decreases(o, n, u);
        let last = old.len() - 1;
        assert(old[last].subset_of(new[last]));
        assert(new[last].subset_of(u));
        vstd::set_lib::lemma_set_subset_finite(u, new[last]);
        vstd::set_lib::lemma_set_subset_finite(new[last], old[last]);
        vstd::set_lib::lemma_len_subset(old[last], new[last]);
        vstd::set_lib::lemma_len_subset(new[last], u);
        if old[last].len() == new[last].len() {
            vstd::set_lib::lemma_subset_equality(old[last], new[last]);
            if o == n {
                assert forall|a: int| 0 <= a < old.len() implies old[a] == new[a] by {
                    if a < last {
                        assert(old[a] == o[a] && new[a] == n[a]);
                    }
                }
                assert(old =~= new);
            }
        }
    } else {
        assert(old =~= new);
    }
}

/// Adds FIRST of `string` to `dest`.
pub fn add_first_of_string(string: &[Symbol], firsts: &Vec<SymbolSet>, dest: &mut SymbolSet)
    requires
        old(dest).wf(),
        sets_wf(firsts@),
        nonterminals_below(string@, firsts.len() as nat),
    ensures
        final(dest).wf(),
        final(dest)@ == old(dest)@.union(first_of_string(set_views(firsts@), string@)),
{
    let ghost f = set_views(firsts@);
    let ghost goal = old(dest)@.union(first_of_string(f, string@));
    let mut i: usize = 0;
    assert(string@.skip(0) =~= string@);
    while i < string.len()
        invariant
            i <= string.len(),
            dest.wf(),
            sets_wf(firsts@),
            nonterminals_below(string@, firsts.len() as nat),
            f == set_views(firsts@),
            goal == old(dest)@.union(first_of_string(f, string@)),
            dest@.union(first_of_string(f, string@.skip(i as int))) == goal,
        decreases string.len() - i,
    {
        let symbol = string[i];
        proof {
            let rest = string@.skip(i as int);
            assert(rest[0] == symbol);
            assert(rest.drop_first() =~= string@.skip(i + 1));
        }
        match symbol {
            Symbol::Empty() => {},
            Symbol::Terminal(_) | Symbol::EOF() => {
                dest.insert(symbol);
                assert(dest@ =~= goal);
                return ;
            },
            Symbol::Nonterminal(b) => {
                assert(f[b as int] == firsts@[b as int]@);
                let r = dest.insert_all_except(&firsts[b], Symbol::Empty());
                if !r.0 {
                    assert(dest@ =~= goal);
                    return ;
                }
                assert(dest@.union(first_of_string(f, string@.skip(i + 1))) =~= goal);
            },
        }
        i += 1;
    }
    assert(string@.skip(i as int) =~= Seq::<Symbol>::empty());
    dest.insert(Symbol::Empty());
    assert(dest@ =~= goal);
}

/// Whether some set holds a nonterminal. The FIRST and FOLLOW sets of a
/// grammar hold none.
pub fn set_has_nonterm(sets: &Vec<SymbolSet>) -> (r: bool)
    requires
        sets_wf(sets@),
    ensures
        r == exists|a: int, x: Symbol|
            0 <= a < sets.len() && x is Nonterminal && #[trigger] sets[a]@.contains(x),
{
    let mut a: usize = 0;
    while a < sets.len()
        invariant
            a <= sets.len(),
            sets_wf(sets@),
            forall|b: int, x: Symbol|
                0 <= b < a && x is Nonterminal ==> !#[trigger] sets[b]@.contains(x),
        decreases sets.len() - a,
    {
        let set = &sets[a];
        let count = set.len();
        let mut i: usize = 0;
        while i < count
            invariant
                i <= count,
                a < sets.len(),
                set == &sets[a as int],
                count == set.elements().len(),
                forall|j: int| 0 <= j < i ==> !(#[trigger] set.elements()[j] is Nonterminal),
            decreases count - i,
        {
            match set.get(i) {
                Symbol::Nonterminal(_) => {
                    assert(sets[a as int]@.contains(set.elements()[i as int]));
                    return true;
                },
                _ => {},
            }
            i += 1;
        }
        a += 1;
    }
    false
}

impl<'a> CFG<'a> {
    /// FIRST of a string of symbols under the sets `firsts`, told by what
    /// leads the string: nothing but empty markers (`None`), a terminal or
    /// the end marker, or a nonterminal. In the last case the set is FIRST
    /// of the whole string: it goes on past each nonterminal that can vanish,
    /// and holds the empty marker if the whole string can vanish.
    pub fn get_first(&self, string: &[Symbol], firsts: &Vec<SymbolSet>) -> (r: Option<FirstSet>)
        requires
            sets_wf(firsts@),
            nonterminals_below(string@, firsts.len() as nat),
        ensures
            match r {
                None => leading(string@) is None,
                Some(FirstSet::Other(t)) => t.is_token() && leading(string@) == Some(t),
                Some(FirstSet::Nonterminal(set)) => {
                    &&& leading(string@) matches Some(Symbol::Nonterminal(_))
                    &&& set.wf()
                    &&& set@ == first_of_string(set_views(firsts@), string@)
                },
            },
    {
        let mut i: usize = 0;
        assert(string@.skip(0) =~= string@);
        while i < string.len()
            invariant
                i <= string.len(),
                leading(string@) == leading(string@.skip(i as int)),
                sets_wf(firsts@),
                nonterminals_below(string@, firsts.len() as nat),
            decreases string.len() - i,
        {
            let symbol = string[i];
            proof {
                let rest = string@.skip(i as int);
                assert(rest[0] == symbol);
                assert(rest.drop_first() =~= string@.skip(i + 1));
            }
            match symbol {
                Symbol::Empty() => {},
                Symbol::Terminal(_) | Symbol::EOF() => {
                    return Some(FirstSet::Other(symbol));
                },
                Symbol::Nonterminal(_) => {
                    let mut set = SymbolSet::new();
                    add_first_of_string(string, firsts, &mut set);
                    assert(set@ =~= first_of_string(set_views(firsts@), string@));
                    return Some(FirstSet::Nonterminal(set));
                },
            }
            i += 1;
        }
        assert(string@.skip(i as int) =~= Seq::<Symbol>::empty());
        None
    }

    /// One round for one nonterminal: the union, over its productions, of
    /// FIRST of the right-hand side under the sets `firsts`.
    pub fn generate_first_from_prods(&self, nonterminal: usize, firsts: &Vec<SymbolSet>) -> (set:
        SymbolSet)
        requires
            self.wf(),
            nonterminal < self.productions.len(),
            firsts.len() == self.productions.len(),
            sets_wf(firsts@),
        ensures
            set.wf(),
            set@ == first_round(self@, set_views(firsts@))[nonterminal as int],
    {
        let ghost g = self@;
        let ghost f = set_views(firsts@);
        let prods = &self.productions[nonterminal];
        let mut set = SymbolSet::new();
        let mut k: usize = 0;
        while k < prods.len()
            invariant
                k <= prods.len(),
                self.wf(),
                g == self@,
                f == set_views(firsts@),
                nonterminal < self.productions.len(),
                prods == &self.productions[nonterminal as int],
                firsts.len() == self.productions.len(),
                sets_wf(firsts@),
                set.wf(),
                forall|x: Symbol|
                    set@.contains(x) <==> exists|j: int|
                        0 <= j < k && first_of_string(f, #[trigger] g.rules[nonterminal as int][j]).contains(
                            x,
                        ),
            decreases prods.len() - k,
        {
            let ghost before = set@;
            let rhs = prods[k].rhs.as_slice();
            proof {
                assert(rhs@ == g.rules[nonterminal as int][k as int]);
                assert forall|j: int| 0 <= j < rhs@.len() implies (#[trigger] rhs@[j] matches Symbol::Nonterminal(
                    b,
                ) ==> b < firsts.len()) by {
                    assert(g.rules[nonterminal as int][k as int][j].valid(g));
                }
            }
            add_first_of_string(rhs, firsts, &mut set);
            proof {
                assert forall|x: Symbol| set@.contains(x) implies exists|j: int|
                    0 <= j < k + 1 && first_of_string(
                        f,
                        #[trigger] g.rules[nonterminal as int][j],
                    ).contains(x) by {
                    if before.contains(x) {
                        let j = choose|j: int|
                            0 <= j < k && first_of_string(
                                f,
                                #[trigger] g.rules[nonterminal as int][j],
                            ).contains(x);
                        assert(0 <= j < k + 1);
                    } else {
                        assert(first_of_string(f, g.rules[nonterminal as int][k as int]).contains(x));
                    }
                }
            }
            k += 1;
        }
        assert(set@ =~= first_round(g, f)[nonterminal as int]);
        set
    }

    /// The FIRST set of every nonterminal: the tokens that can begin what it
    /// derives, and the empty marker if it can derive the empty string.
    pub fn generate_firsts(&self) -> (firsts: Vec<SymbolSet>)
        requires
            self.wf(),
        ensures
            firsts.len() == self.productions.len(),
            sets_wf(firsts@),
            set_views(firsts@) == first_sets(self@),
            sets_within(set_views(firsts@), entries(self@)),
    {
        let ghost g = self@;
        let n = self.productions.len();
        let mut firsts: Vec<SymbolSet> = Vec::new();
        while firsts.len() < n
            invariant
                firsts.len() <= n,
                sets_wf(firsts@),
                forall|a: int| 0 <= a < firsts.len() ==> (#[trigger] firsts@[a])@ == Set::<Symbol>::empty(),
            decreases n - firsts.len(),
        {
            firsts.push(SymbolSet::new());
        }
        let ghost mut round: nat = 0;
        proof {
            assert(set_views(firsts@) =~= first_approx(g, 0));
            lemma_entries_finite(g);
        }
        loop
            invariant
                self.wf(),
                g == self@,
                n == self.productions.len(),
                firsts.len() == n,
                sets_wf(firsts@),
                set_views(firsts@) == first_approx(g, round),
                entries(g).finite(),
            decreases deficit(set_views(firsts@), entries(g)),
        {
            let mut next: Vec<SymbolSet> = Vec::new();
            let mut changed = false;
            let mut a: usize = 0;
            proof {
                lemma_first_approx_step(g, round);
                lemma_first_approx_entries(g, round);
                lemma_first_approx_entries(g, round + 1);
            }
            while a < n
                invariant
                    a <= n,
                    self.wf(),
                    g == self@,
                    n == self.productions.len(),
                    firsts.len() == n,
                    sets_wf(firsts@),
                    set_views(firsts@) == first_approx(g, round),
                    sets_le(first_approx(g, round), first_approx(g, round + 1)),
                    sets_within(first_approx(g, round + 1), entries(g)),
                    entries(g).finite(),
                    next.len() == a,
                    sets_wf(next@),
                    forall|i: int| 0 <= i < a ==> (#[trigger] next@[i])@ == first_approx(g, round + 1)[i],
                    changed <==> exists|i: int| 0 <= i < a && (#[trigger] next@[i])@ != firsts@[i]@,
                decreases n - a,
            {
                let set = self.generate_first_from_prods(a, &firsts);
                proof {
                    let old_set = firsts@[a as int]@;
                    assert(old_set == first_approx(g, round)[a as int]);
                    assert(set@ == first_approx(g, round + 1)[a as int]);
                    assert(first_approx(g, round)[a as int].subset_of(first_approx(g, round + 1)[a as int]));
                    assert(first_approx(g, round + 1)[a as int].subset_of(entries(g)));
                    vstd::set_lib::lemma_set_subset_finite(entries(g), set@);
                    vstd::set_lib::lemma_set_subset_finite(set@, old_set);
                    if set@.len() == old_set.len() {
                        vstd::set_lib::lemma_subset_equality(old_set, set@);
                    }
                    firsts@[a as int].lemma_finite();
                    set.lemma_finite();
                }
                if set.len() != firsts[a].len() {
                    changed = true;
                }
                let ghost prev_next = next@;
                next.push(set);
                proof {
                    assert forall|i: int| 0 <= i < a + 1 implies (#[trigger] next@[i])@ == first_approx(
                        g,
                        round + 1,
                    )[i] by {
                        if i < a {
                            assert(next@[i] == prev_next[i]);
                        }
                    }
                    assert(sets_wf(next@)) by {
                        assert forall|i: int| 0 <= i < next@.len() implies (#[trigger] next@[i]).wf() by {
                            if i < a {
                                assert(next@[i] == prev_next[i]);
                            }
                        }
                    }
                    if changed {
                        if set@ == firsts@[a as int]@ {
                            let i = choose|i: int| 0 <= i < a && (#[trigger] prev_next[i])@ != firsts@[i]@;
                            assert(next@[i] == prev_next[i]);
                        } else {
                            assert(next@[a as int]@ != firsts@[a as int]@);
                        }
                    } else {
                        assert forall|i: int| 0 <= i < a + 1 implies (#[trigger] next@[i])@ == firsts@[i]@ by {
                            if i < a {
                                assert(next@[i] == prev_next[i]);
                            }
                        }
                    }
                }
                a += 1;
            }
            proof {
                assert(set_views(next@) =~= first_approx(g, round + 1));
            }
            if !changed {
                proof {
                    assert(set_views(next@) =~= set_views(firsts@));
                    lemma_first_approx_stable(g, round);
                    lemma_first_sets_entries(g);
                }
                return firsts;
            }
            proof {
                let i = choose|i: int| 0 <= i < n && (#[trigger] next@[i])@ != firsts@[i]@;
                assert(set_views(next@)[i] != set_views(firsts@)[i]);
                lemma_deficit_decreases(set_views(firsts@), set_views(next@), entries(g));
                round = round + 1;
            }
            firsts = next;
        }
    }
}

} // verus!
