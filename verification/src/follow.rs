//! FOLLOW sets: which tokens can come directly after a nonterminal.

use vstd::prelude::*;
use vstd::slice::slice_subrange;
use crate::first::{
    deficit, entries, first_of_string, lemma_deficit_decreases, lemma_entries_finite,
    lemma_first_of_string_entries, lemma_first_of_string_leading, nonterminals_below, set_views,
    sets_le, sets_wf, sets_within, string_valid,
};
use crate::grammar::{CFGProduction, FirstSet, Grammar, Symbol, CFG};
use crate::symbol_set::SymbolSet;

verus! {

/// What an occurrence of a nonterminal gives to its FOLLOW set, where
/// `beta` is the rest of the right-hand side behind the occurrence and
/// `lhs_follow` the FOLLOW set of the production's left-hand side: the
/// tokens of FIRST of `beta`, and, if `beta` can vanish, `lhs_follow`.
/// The empty marker is never passed on.
pub open spec fn follow_contribution(
    firsts: Seq<Set<Symbol>>,
    lhs_follow: Set<Symbol>,
    beta: Seq<Symbol>,
) -> Set<Symbol> {
    let f = first_of_string(firsts, beta);
    if f.contains(Symbol::Empty()) {
        f.remove(Symbol::Empty()).union(lhs_follow.remove(Symbol::Empty()))
    } else {
        f
    }
}

/// Nonterminal `x` stands at position `j` of the `k`-th production of `a`.
pub open spec fn occurs(g: Grammar, x: int, a: int, k: int, j: int) -> bool {
    &&& 0 <= a < g.rules.len()
    &&& 0 <= k < g.rules[a].len()
    &&& 0 <= j < g.rules[a][k].len()
    &&& g.rules[a][k][j] matches Symbol::Nonterminal(b) && b == x
}

/// One round of the FOLLOW equations: each set keeps what it has and gains
/// what every occurrence of its nonterminal contributes under `prev`.
pub open spec fn follow_round(g: Grammar, firsts: Seq<Set<Symbol>>, prev: Seq<Set<Symbol>>) -> Seq<
    Set<Symbol>,
> {
    Seq::new(
        g.rules.len(),
        |x: int|
            Set::new(
                |s: Symbol|
                    prev[x].contains(s) || exists|a: int, k: int, j: int|
                        #[trigger] occurs(g, x, a, k, j) && follow_contribution(
                            firsts,
                            prev[a],
                            g.rules[a][k].skip(j + 1),
                        ).contains(s),
            ),
    )
}

/// The sets after `n` rounds. At first only the start symbol has a member,
/// the end marker.
pub open spec fn follow_approx(g: Grammar, firsts: Seq<Set<Symbol>>, n: nat) -> Seq<Set<Symbol>>
    decreases n,
{
    if n == 0 {
        Seq::new(
            g.rules.len(),
            |x: int|
                if x == 0 {
                    set![Symbol::EOF()]
                } else {
                    Set::empty()
                },
        )
    } else {
        follow_round(g, firsts, follow_approx(g, firsts, (n - 1) as nat))
    }
}

/// FOLLOW of nonterminal `x`: what some number of rounds puts into its set.
/// This is the least solution of the FOLLOW equations.
pub open spec fn follow_set(g: Grammar, firsts: Seq<Set<Symbol>>, x: int) -> Set<Symbol> {
    Set::new(|s: Symbol| exists|n: nat| (#[trigger] follow_approx(g, firsts, n))[x].contains(s))
}

/// The FOLLOW sets of all nonterminals.
pub open spec fn follow_sets(g: Grammar, firsts: Seq<Set<Symbol>>) -> Seq<Set<Symbol>> {
    Seq::new(g.rules.len(), |x: int| follow_set(g, firsts, x))
}

/// The sets `f` solve the FOLLOW equations at one occurrence: what the
/// symbol at position `j` of the `k`-th production of `a` contributes is
/// already there.
pub open spec fn occurrence_closed(
    g: Grammar,
    firsts: Seq<Set<Symbol>>,
    f: Seq<Set<Symbol>>,
    a: int,
    k: int,
    j: int,
) -> bool {
    g.rules[a][k][j] matches Symbol::Nonterminal(x) ==> follow_contribution(
        firsts,
        f[a],
        g.rules[a][k].skip(j + 1),
    ).subset_of(f[x as int])
}

/// The sets `f` solve the FOLLOW equations at the first `upto` positions of
/// the `k`-th production of `a`.
pub open spec fn production_closed(
    g: Grammar,
    firsts: Seq<Set<Symbol>>,
    f: Seq<Set<Symbol>>,
    a: int,
    k: int,
    upto: int,
) -> bool {
    forall|j: int| 0 <= j < upto ==> #[trigger] occurrence_closed(g, firsts, f, a, k, j)
}

/// The sets `f` solve the FOLLOW equations at the first `upto` productions
/// of `a`.
pub open spec fn nonterminal_closed(
    g: Grammar,
    firsts: Seq<Set<Symbol>>,
    f: Seq<Set<Symbol>>,
    a: int,
    upto: int,
) -> bool {
    forall|k: int|
        0 <= k < upto ==> #[trigger] production_closed(g, firsts, f, a, k, g.rules[a][k].len() as int)
}

/// The sets `f` solve the FOLLOW equations at the productions of the first
/// `upto` nonterminals.
pub open spec fn grammar_closed(g: Grammar, firsts: Seq<Set<Symbol>>, f: Seq<Set<Symbol>>, upto: int) -> bool {
    forall|a: int|
        0 <= a < upto ==> #[trigger] nonterminal_closed(g, firsts, f, a, g.rules[a].len() as int)
}

/// Whatever solves the FOLLOW equations and gives the start symbol the end
/// marker contains the FOLLOW sets.
pub proof fn lemma_follow_sets_least(g: Grammar, firsts: Seq<Set<Symbol>>, f: Seq<Set<Symbol>>)
    requires
        g.wf(),
        f.len() == g.rules.len(),
        f[0].contains(Symbol::EOF()),
        grammar_closed(g, firsts, f, g.rules.len() as int),
    ensures
        sets_le(follow_sets(g, firsts), f),
{
    assert forall|x: int| 0 <= x < g.rules.len() implies (#[trigger] follow_sets(g, firsts)[x]).subset_of(
        f[x],
    ) by {
        assert forall|s: Symbol| follow_set(g, firsts, x).contains(s) implies f[x].contains(s) by {
            let n = choose|n: nat| (#[trigger] follow_approx(g, firsts, n))[x].contains(s);
            lemma_follow_approx_below(g, firsts, f, n);
            assert(follow_approx(g, firsts, n)[x].subset_of(f[x]));
        }
    }
}

proof fn lemma_follow_approx_below(g: Grammar, firsts: Seq<Set<Symbol>>, f: Seq<Set<Symbol>>, n: nat)
    requires
        g.wf(),
        f.len() == g.rules.len(),
        f[0].contains(Symbol::EOF()),
        grammar_closed(g, firsts, f, g.rules.len() as int),
    ensures
        sets_le(follow_approx(g, firsts, n), f),
    decreases n,
{
    if n > 0 {
        let prev = follow_approx(g, firsts, (n - 1) as nat);
        lemma_follow_approx_below(g, firsts, f, (n - 1) as nat);
        assert forall|x: int| 0 <= x < g.rules.len() implies (#[trigger] follow_approx(g, firsts, n)[x]).subset_of(
            f[x],
        ) by {
            assert forall|s: Symbol| follow_approx(g, firsts, n)[x].contains(s) implies f[x].contains(
                s,
            ) by {
                if prev[x].contains(s) {
                    assert(prev[x].subset_of(f[x]));
                } else {
                    let (a, k, j) = choose|a: int, k: int, j: int|
                        #[trigger] occurs(g, x, a, k, j) && follow_contribution(
                            firsts,
                            prev[a],
                            g.rules[a][k].skip(j + 1),
                        ).contains(s);
                    assert(prev[a].subset_of(f[a]));
                    assert(nonterminal_closed(g, firsts, f, a, g.rules[a].len() as int));
                    assert(production_closed(g, firsts, f, a, k, g.rules[a][k].len() as int));
                    assert(occurrence_closed(g, firsts, f, a, k, j));
                    lemma_follow_contribution_monotone(firsts, prev[a], f[a], g.rules[a][k].skip(j + 1));
                }
            }
        }
    }
}

/// A contribution grows with the FOLLOW set of the left-hand side.
pub proof fn lemma_follow_contribution_monotone(
    firsts: Seq<Set<Symbol>>,
    f1: Set<Symbol>,
    f2: Set<Symbol>,
    beta: Seq<Symbol>,
)
    requires
        f1.subset_of(f2),
    ensures
        follow_contribution(firsts, f1, beta).subset_of(follow_contribution(firsts, f2, beta)),
{
}

/// What an occurrence contributes under sets that are within the FOLLOW
/// sets is within the FOLLOW set of the nonterminal that occurs.
pub proof fn lemma_follow_contribution_sound(
    g: Grammar,
    firsts: Seq<Set<Symbol>>,
    f: Seq<Set<Symbol>>,
    x: int,
    a: int,
    k: int,
    j: int,
)
    requires
        g.wf(),
        sets_le(f, follow_sets(g, firsts)),
        occurs(g, x, a, k, j),
    ensures
        follow_contribution(firsts, f[a], g.rules[a][k].skip(j + 1)).subset_of(
            follow_set(g, firsts, x),
        ),
{
    let beta = g.rules[a][k].skip(j + 1);
    assert(g.rules[a][k][j].valid(g));
    assert forall|s: Symbol| follow_contribution(firsts, f[a], beta).contains(s) implies follow_set(
        g,
        firsts,
        x,
    ).contains(s) by {
        let fb = first_of_string(firsts, beta);
        if fb.contains(s) && s != Symbol::Empty() {
            let prev = follow_approx(g, firsts, 0);
            assert(follow_contribution(firsts, prev[a], beta).contains(s));
            assert(follow_round(g, firsts, prev)[x].contains(s));
            assert(follow_approx(g, firsts, 1)[x].contains(s));
        } else {
            assert(f[a].contains(s));
            assert(f[a].subset_of(follow_sets(g, firsts)[a]));
            let n = choose|n: nat| (#[trigger] follow_approx(g, firsts, n))[a].contains(s);
            let prev = follow_approx(g, firsts, n);
            assert(follow_contribution(firsts, prev[a], beta).contains(s));
            assert(follow_round(g, firsts, prev)[x].contains(s));
            assert(follow_approx(g, firsts, n + 1)[x].contains(s));
        }
    }
}

/// The start symbol's FOLLOW set holds the end marker.
pub proof fn lemma_follow_start(g: Grammar, firsts: Seq<Set<Symbol>>)
    requires
        g.wf(),
    ensures
        follow_set(g, firsts, 0).contains(Symbol::EOF()),
{
    assert(follow_approx(g, firsts, 0)[0].contains(Symbol::EOF()));
}

/// What an occurrence contributes is a token of the grammar or the end
/// marker, if the sets it is computed from hold nothing else but the empty
/// marker.
pub proof fn lemma_follow_contribution_entries(
    g: Grammar,
    firsts: Seq<Set<Symbol>>,
    lhs_follow: Set<Symbol>,
    beta: Seq<Symbol>,
)
    requires
        sets_within(firsts, entries(g)),
        lhs_follow.subset_of(entries(g)),
        string_valid(beta, g),
    ensures
        follow_contribution(firsts, lhs_follow, beta).subset_of(entries(g)),
        !follow_contribution(firsts, lhs_follow, beta).contains(Symbol::Empty()),
{
    lemma_first_of_string_entries(g, firsts, beta);
}

/// The members that a FOLLOW set of `g` can have: its terminals and the end
/// marker.
pub open spec fn tokens(g: Grammar) -> Set<Symbol> {
    Set::new(|x: Symbol| x.is_entry(g) && x != Symbol::Empty())
}

proof fn lemma_follow_approx_tokens(g: Grammar, firsts: Seq<Set<Symbol>>, n: nat)
    requires
        g.wf(),
        sets_within(firsts, entries(g)),
    ensures
        sets_within(follow_approx(g, firsts, n), tokens(g)),
    decreases n,
{
    if n > 0 {
        let prev = follow_approx(g, firsts, (n - 1) as nat);
        lemma_follow_approx_tokens(g, firsts, (n - 1) as nat);
        assert forall|x: int| 0 <= x < g.rules.len() implies (#[trigger] follow_approx(g, firsts, n)[x]).subset_of(
            tokens(g),
        ) by {
            assert forall|s: Symbol| follow_approx(g, firsts, n)[x].contains(s) implies tokens(
                g,
            ).contains(s) by {
                if prev[x].contains(s) {
                    assert(prev[x].subset_of(tokens(g)));
                } else {
                    let (a, k, j) = choose|a: int, k: int, j: int|
                        #[trigger] occurs(g, x, a, k, j) && follow_contribution(
                            firsts,
                            prev[a],
                            g.rules[a][k].skip(j + 1),
                        ).contains(s);
                    assert(prev[a].subset_of(tokens(g)));
                    lemma_skip_valid(g, a, k, j + 1);
                    lemma_follow_contribution_entries(g, firsts, prev[a], g.rules[a][k].skip(j + 1));
                }
            }
        }
    }
}

/// The rest of a right-hand side of a well-formed grammar names only known
/// symbols.
pub proof fn lemma_skip_valid(g: Grammar, a: int, k: int, from: int)
    requires
        g.wf(),
        0 <= a < g.rules.len(),
        0 <= k < g.rules[a].len(),
        0 <= from <= g.rules[a][k].len(),
    ensures
        string_valid(g.rules[a][k].skip(from), g),
{
    let rest = g.rules[a][k].skip(from);
    assert forall|j: int| 0 <= j < rest.len() implies (#[trigger] rest[j]).valid(g) by {
        assert(rest[j] == g.rules[a][k][from + j]);
    }
}

/// Every member of a FOLLOW set is a terminal of the grammar or the end
/// marker.
pub proof fn lemma_follow_sets_tokens(g: Grammar, firsts: Seq<Set<Symbol>>)
    requires
        g.wf(),
        sets_within(firsts, entries(g)),
    ensures
        sets_within(follow_sets(g, firsts), tokens(g)),
{
    assert forall|x: int| 0 <= x < g.rules.len() implies (#[trigger] follow_sets(g, firsts)[x]).subset_of(
        tokens(g),
    ) by {
        assert forall|s: Symbol| follow_set(g, firsts, x).contains(s) implies tokens(g).contains(
            s,
        ) by {
            let n = choose|n: nat| (#[trigger] follow_approx(g, firsts, n))[x].contains(s);
            lemma_follow_approx_tokens(g, firsts, n);
            assert(follow_approx(g, firsts, n)[x].subset_of(tokens(g)));
        }
    }
}

/// What a pass over part of the grammar keeps: the sets only grow, and stay
/// within the FOLLOW sets and within what a set may hold.
pub open spec fn pass_keeps(
    g: Grammar,
    firsts: Seq<Set<Symbol>>,
    old: Seq<SymbolSet>,
    new: Seq<SymbolSet>,
) -> bool {
    &&& new.len() == old.len()
    &&& sets_wf(new)
    &&& sets_le(set_views(old), set_views(new))
    &&& sets_within(set_views(new), entries(g))
    &&& sets_le(set_views(new), follow_sets(g, firsts))
}

/// Containment, set by set, is transitive, and sets between equal sets are
/// equal to them.
pub proof fn lemma_sets_le_chain(s: Seq<Set<Symbol>>, c: Seq<Set<Symbol>>, n: Seq<Set<Symbol>>)
    requires
        sets_le(s, c),
        sets_le(c, n),
    ensures
        sets_le(s, n),
        s == n ==> c == n,
{
    assert forall|a: int| 0 <= a < s.len() implies (#[trigger] s[a]).subset_of(n[a]) by {
        assert(s[a].subset_of(c[a]));
        assert(c[a].subset_of(n[a]));
    }
    if s == n {
        assert forall|a: int| 0 <= a < c.len() implies c[a] == n[a] by {
            assert(s[a].subset_of(c[a]));
            assert(c[a].subset_of(n[a]));
            assert(c[a] =~= n[a]);
        }
        assert(c =~= n);
    }
}

impl<'a> CFG<'a> {
    /// Adds to the FOLLOW set of `nonterm_id` what its occurrence at
    /// `symbol_index` of `production` contributes under the sets given.
    /// Returns whether the set grew, and the sets.
    pub fn add_follow_nonterminal(
        &self,
        follows: Vec<SymbolSet>,
        firsts: &Vec<SymbolSet>,
        production: &CFGProduction,
        nonterm_id: usize,
        symbol_index: usize,
    ) -> (r: (bool, Vec<SymbolSet>))
        requires
            sets_wf(follows@),
            sets_wf(firsts@),
            production.nonterminal < follows.len(),
            nonterm_id < follows.len(),
            symbol_index < production.rhs.len(),
            nonterminals_below(production.rhs@, firsts.len() as nat),
        ensures
            sets_wf(r.1@),
            r.1.len() == follows.len(),
            set_views(r.1@) == set_views(follows@).update(
                nonterm_id as int,
                follows[nonterm_id as int]@.union(
                    follow_contribution(
                        set_views(firsts@),
                        follows[production.nonterminal as int]@,
                        production.rhs@.skip(symbol_index + 1),
                    ),
                ),
            ),
            r.0 == (r.1[nonterm_id as int]@ != follows[nonterm_id as int]@),
    {
        let ghost start = follows@;
        let ghost f = set_views(firsts@);
        let ghost x = nonterm_id as int;
        let lhs = production.nonterminal;
        let mut follows = follows;
        let beta = slice_subrange(production.rhs.as_slice(), symbol_index + 1, production.rhs.len());
        proof {
            assert(beta@ =~= production.rhs@.skip(symbol_index + 1));
            assert forall|j: int| 0 <= j < beta@.len() implies (#[trigger] beta@[j] matches Symbol::Nonterminal(
                b,
            ) ==> b < firsts.len()) by {
                assert(beta@[j] == production.rhs@[symbol_index + 1 + j]);
            }
            lemma_first_of_string_leading(f, beta@);
        }
        let ghost fb = first_of_string(f, beta@);
        let beta_first = self.get_first(beta, firsts);
        let mut added = false;
        let mut add_lhs = false;
        match beta_first {
            Some(FirstSet::Nonterminal(set)) => {
                let r = follows[nonterm_id].insert_all_except(&set, Symbol::Empty());
                add_lhs = r.0;
                added = r.1;
            },
            Some(FirstSet::Other(symbol)) => {
                added = follows[nonterm_id].insert(symbol);
            },
            None => {
                add_lhs = true;
            },
        }
        assert(add_lhs == fb.contains(Symbol::Empty()));
        assert(follows@[x]@ =~= start[x]@.union(fb.remove(Symbol::Empty())));
        if add_lhs && lhs != nonterm_id {
            let count = follows[lhs].len();
            let ghost base = follows@[x]@;
            let ghost source = start[lhs as int].elements();
            let mut i: usize = 0;
            while i < count
                invariant
                    i <= count,
                    count == source.len(),
                    lhs != nonterm_id,
                    lhs < follows.len(),
                    nonterm_id < follows.len(),
                    x == nonterm_id,
                    follows.len() == start.len(),
                    sets_wf(follows@),
                    forall|j: int| 0 <= j < follows.len() && j != x ==> follows@[j] == start[j],
                    source == start[lhs as int].elements(),
                    start[x]@.subset_of(base),
                    follows@[x]@ == base.union(source.take(i as int).to_set().remove(Symbol::Empty())),
                    added == (follows@[x]@ != start[x]@),
                decreases count - i,
            {
                let symbol = follows[lhs].get(i);
                proof {
                    let before = source.take(i as int);
                    assert(source.take(i + 1) =~= before.push(symbol));
                    before.lemma_push_to_set_commute(symbol);
                }
                if symbol != Symbol::Empty() {
                    let ghost prev = follows@[x]@;
                    let grew = follows[nonterm_id].insert(symbol);
                    proof {
                        if grew {
                            assert(follows@[x]@.contains(symbol) && !prev.contains(symbol));
                            assert(!start[x]@.contains(symbol));
                        }
                    }
                    added = added || grew;
                }
                i += 1;
            }
            proof {
                assert(source.take(i as int) =~= source);
            }
        }
        proof {
            let goal = start[x]@.union(
                follow_contribution(f, start[lhs as int]@, production.rhs@.skip(symbol_index + 1)),
            );
            assert(follows@[x]@ =~= goal);
            assert(set_views(follows@) =~= set_views(start).update(x, goal));
        }
        (added, follows)
    }

    /// One pass over one production: every nonterminal in its right-hand
    /// side gets what its occurrence contributes. Returns whether a set
    /// grew, and the sets.
    fn follow_production(&self, follows: Vec<SymbolSet>, firsts: &Vec<SymbolSet>, a: usize, k: usize) -> (r:
        (bool, Vec<SymbolSet>))
        requires
            self.wf(),
            a < self.productions.len(),
            k < self.productions[a as int].len(),
            follows.len() == self.productions.len(),
            firsts.len() == self.productions.len(),
            sets_wf(firsts@),
            sets_within(set_views(firsts@), entries(self@)),
            pass_keeps(self@, set_views(firsts@), follows@, follows@),
        ensures
            pass_keeps(self@, set_views(firsts@), follows@, r.1@),
            r.0 == (set_views(r.1@) != set_views(follows@)),
            !r.0 ==> production_closed(
                self@,
                set_views(firsts@),
                set_views(follows@),
                a as int,
                k as int,
                self@.rules[a as int][k as int].len() as int,
            ),
    {
        let ghost g = self@;
        let ghost f = set_views(firsts@);
        let ghost start = follows@;
        let production = &self.productions[a][k];
        let mut follows = follows;
        let mut changed = false;
        let mut j: usize = 0;
        assert(production.rhs@ == g.rules[a as int][k as int]);
        while j < production.rhs.len()
            invariant
                j <= production.rhs.len(),
                self.wf(),
                g == self@,
                f == set_views(firsts@),
                a < self.productions.len(),
                k < self.productions[a as int].len(),
                production == &self.productions[a as int][k as int],
                production.rhs@ == g.rules[a as int][k as int],
                follows.len() == self.productions.len(),
                firsts.len() == self.productions.len(),
                sets_wf(firsts@),
                sets_within(f, entries(g)),
                pass_keeps(g, f, start, follows@),
                changed == (set_views(follows@) != set_views(start)),
                !changed ==> production_closed(g, f, set_views(start), a as int, k as int, j as int),
            decreases production.rhs.len() - j,
        {
            let ghost cur = follows@;
            match production.rhs[j] {
                Symbol::Nonterminal(x) => {
                    proof {
                        assert(g.rules[a as int][k as int][j as int].valid(g));
                        assert(production.nonterminal == a);
                        assert forall|i: int| 0 <= i < production.rhs@.len() implies (
                        #[trigger] production.rhs@[i] matches Symbol::Nonterminal(b) ==> b
                            < firsts.len()) by {
                            assert(g.rules[a as int][k as int][i].valid(g));
                        }
                    }
                    let r = self.add_follow_nonterminal(follows, firsts, production, x, j);
                    follows = r.1;
                    proof {
                        let beta = g.rules[a as int][k as int].skip(j + 1);
                        let gain = follow_contribution(f, set_views(cur)[a as int], beta);
                        assert(occurs(g, x as int, a as int, k as int, j as int));
                        lemma_follow_contribution_sound(
                            g,
                            f,
                            set_views(cur),
                            x as int,
                            a as int,
                            k as int,
                            j as int,
                        );
                        lemma_skip_valid(g, a as int, k as int, j + 1);
                        assert(set_views(cur)[a as int].subset_of(entries(g)));
                        lemma_follow_contribution_entries(g, f, set_views(cur)[a as int], beta);
                        let next = set_views(follows@);
                        assert(next == set_views(cur).update(x as int, cur[x as int]@.union(gain)));
                        assert(sets_wf(follows@));
                        assert(sets_le(set_views(cur), next)) by {
                            assert forall|i: int| 0 <= i < cur.len() implies (#[trigger] set_views(
                                cur,
                            )[i]).subset_of(next[i]) by {}
                        }
                        assert(sets_within(next, entries(g))) by {
                            assert forall|i: int| 0 <= i < next.len() implies (#[trigger] next[i]).subset_of(
                                entries(g),
                            ) by {
                                assert(set_views(cur)[i].subset_of(entries(g)));
                            }
                        }
                        assert(sets_le(next, follow_sets(g, f))) by {
                            assert forall|i: int| 0 <= i < next.len() implies (#[trigger] next[i]).subset_of(
                                follow_sets(g, f)[i],
                            ) by {
                                assert(set_views(cur)[i].subset_of(follow_sets(g, f)[i]));
                            }
                        }
                        lemma_sets_le_chain(set_views(start), set_views(cur), next);
                        if !r.0 {
                            assert(next =~= set_views(cur));
                            if !changed {
                                assert(gain.subset_of(set_views(start)[x as int]));
                                assert(occurrence_closed(
                                    g,
                                    f,
                                    set_views(start),
                                    a as int,
                                    k as int,
                                    j as int,
                                ));
                            }
                        } else {
                            assert(next[x as int] != set_views(cur)[x as int]);
                        }
                    }
                    changed = changed || r.0;
                },
                _ => {
                    assert(occurrence_closed(g, f, set_views(start), a as int, k as int, j as int));
                },
            }
            j += 1;
        }
        (changed, follows)
    }

    /// One pass over the productions of one nonterminal.
    fn follow_nonterminal(&self, follows: Vec<SymbolSet>, firsts: &Vec<SymbolSet>, a: usize) -> (r: (
        bool,
        Vec<SymbolSet>,
    ))
        requires
            self.wf(),
            a < self.productions.len(),
            follows.len() == self.productions.len(),
            firsts.len() == self.productions.len(),
            sets_wf(firsts@),
            sets_within(set_views(firsts@), entries(self@)),
            pass_keeps(self@, set_views(firsts@), follows@, follows@),
        ensures
            pass_keeps(self@, set_views(firsts@), follows@, r.1@),
            r.0 == (set_views(r.1@) != set_views(follows@)),
            !r.0 ==> nonterminal_closed(
                self@,
                set_views(firsts@),
                set_views(follows@),
                a as int,
                self@.rules[a as int].len() as int,
            ),
    {
        let ghost g = self@;
        let ghost f = set_views(firsts@);
        let ghost start = follows@;
        let mut follows = follows;
        let mut changed = false;
        let mut k: usize = 0;
        while k < self.productions[a].len()
            invariant
                k <= self.productions[a as int].len(),
                self.wf(),
                g == self@,
                f == set_views(firsts@),
                a < self.productions.len(),
                follows.len() == self.productions.len(),
                firsts.len() == self.productions.len(),
                sets_wf(firsts@),
                sets_within(f, entries(g)),
                pass_keeps(g, f, start, follows@),
                changed == (set_views(follows@) != set_views(start)),
                !changed ==> nonterminal_closed(g, f, set_views(start), a as int, k as int),
            decreases self.productions[a as int].len() - k,
        {
            let ghost cur = follows@;
            proof {
                lemma_sets_le_chain(set_views(cur), set_views(cur), set_views(cur));
            }
            let r = self.follow_production(follows, firsts, a, k);
            follows = r.1;
            proof {
                lemma_sets_le_chain(set_views(start), set_views(cur), set_views(follows@));
            }
            changed = changed || r.0;
            k += 1;
        }
        (changed, follows)
    }

    /// One pass over the whole grammar.
    fn follow_pass(&self, follows: Vec<SymbolSet>, firsts: &Vec<SymbolSet>) -> (r: (bool, Vec<SymbolSet>))
        requires
            self.wf(),
            follows.len() == self.productions.len(),
            firsts.len() == self.productions.len(),
            sets_wf(firsts@),
            sets_within(set_views(firsts@), entries(self@)),
            pass_keeps(self@, set_views(firsts@), follows@, follows@),
        ensures
            pass_keeps(self@, set_views(firsts@), follows@, r.1@),
            r.0 == (set_views(r.1@) != set_views(follows@)),
            !r.0 ==> grammar_closed(
                self@,
                set_views(firsts@),
                set_views(follows@),
                self@.rules.len() as int,
            ),
    {
        let ghost g = self@;
        let ghost f = set_views(firsts@);
        let ghost start = follows@;
        let mut follows = follows;
        let mut changed = false;
        let mut a: usize = 0;
        while a < self.productions.len()
            invariant
                a <= self.productions.len(),
                self.wf(),
                g == self@,
                f == set_views(firsts@),
                follows.len() == self.productions.len(),
                firsts.len() == self.productions.len(),
                sets_wf(firsts@),
                sets_within(f, entries(g)),
                pass_keeps(g, f, start, follows@),
                changed == (set_views(follows@) != set_views(start)),
                !changed ==> grammar_closed(g, f, set_views(start), a as int),
            decreases self.productions.len() - a,
        {
            let ghost cur = follows@;
            proof {
                lemma_sets_le_chain(set_views(cur), set_views(cur), set_views(cur));
            }
            let r = self.follow_nonterminal(follows, firsts, a);
            follows = r.1;
            proof {
                lemma_sets_le_chain(set_views(start), set_views(cur), set_views(follows@));
            }
            changed = changed || r.0;
            a += 1;
        }
        (changed, follows)
    }

    /// The FOLLOW set of every nonterminal under the FIRST sets given: the
    /// tokens that can come directly after it. The start symbol is followed
    /// by the end marker.
    pub fn generate_follows(&self, firsts: &Vec<SymbolSet>) -> (follows: Vec<SymbolSet>)
        requires
            self.wf(),
            firsts.len() == self.productions.len(),
            sets_wf(firsts@),
            sets_within(set_views(firsts@), entries(self@)),
        ensures
            follows.len() == self.productions.len(),
            sets_wf(follows@),
            set_views(follows@) == follow_sets(self@, set_views(firsts@)),
            sets_within(set_views(follows@), tokens(self@)),
    {
        let ghost g = self@;
        let ghost f = set_views(firsts@);
        let n = self.productions.len();
        let mut follows: Vec<SymbolSet> = Vec::new();
        while follows.len() < n
            invariant
                follows.len() <= n,
                sets_wf(follows@),
                forall|a: int| 0 <= a < follows.len() ==> (#[trigger] follows@[a])@ == Set::<Symbol>::empty(),
            decreases n - follows.len(),
        {
            follows.push(SymbolSet::new());
        }
        follows[0].insert(Symbol::EOF());
        proof {
            lemma_entries_finite(g);
            lemma_follow_start(g, f);
            assert(sets_le(set_views(follows@), set_views(follows@)));
            assert(sets_within(set_views(follows@), entries(g)));
            assert(sets_le(set_views(follows@), follow_sets(g, f))) by {
                assert forall|a: int| 0 <= a < n implies (#[trigger] set_views(follows@)[a]).subset_of(
                    follow_sets(g, f)[a],
                ) by {}
            }
        }
        loop
            invariant
                self.wf(),
                g == self@,
                f == set_views(firsts@),
                n == self.productions.len(),
                follows.len() == n,
                firsts.len() == n,
                sets_wf(firsts@),
                sets_within(f, entries(g)),
                entries(g).finite(),
                pass_keeps(g, f, follows@, follows@),
                set_views(follows@)[0].contains(Symbol::EOF()),
            decreases deficit(set_views(follows@), entries(g)),
        {
            let ghost cur = follows@;
            let r = self.follow_pass(follows, firsts);
            follows = r.1;
            proof {
                assert(set_views(cur)[0].subset_of(set_views(follows@)[0]));
                lemma_sets_le_chain(set_views(follows@), set_views(follows@), set_views(follows@));
            }
            if !r.0 {
                proof {
                    let v = set_views(follows@);
                    lemma_follow_sets_least(g, f, v);
                    assert forall|a: int| 0 <= a < n implies v[a] == follow_sets(g, f)[a] by {
                        assert(v[a].subset_of(follow_sets(g, f)[a]));
                        assert(follow_sets(g, f)[a].subset_of(v[a]));
                        assert(v[a] =~= follow_sets(g, f)[a]);
                    }
                    assert(v =~= follow_sets(g, f));
                    lemma_follow_sets_tokens(g, f);
                }
                return follows;
            }
            proof {
                lemma_deficit_decreases(set_views(cur), set_views(follows@), entries(g));
            }
        }
    }
}

} // verus!
