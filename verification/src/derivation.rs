//! Derivations, and what FIRST and FOLLOW say about them.

use vstd::prelude::*;
use crate::first::{
    first_approx, first_at, first_of_string, first_set, first_sets, leading,
    lemma_first_of_string_leading, lemma_first_of_string_reached, lemma_first_sets_entries,
    lemma_first_sets_fixed_point,
};
use crate::first::{first_round, sets_le, string_valid};
use crate::follow::{
    follow_approx, follow_contribution, follow_set, follow_sets, lemma_follow_contribution_sound,
    lemma_follow_sets_tokens, occurs, tokens,
};
use crate::grammar::{lemma_nonterminals_fit, Grammar, Symbol};

verus! {

/// A production `k` of the nonterminal at position `i` of `u` can be
/// applied there.
pub open spec fn can_rewrite(g: Grammar, u: Seq<Symbol>, i: int, k: int) -> bool {
    &&& 0 <= i < u.len()
    &&& u[i] matches Symbol::Nonterminal(a) && a < g.rules.len() && 0 <= k < g.rules[a as int].len()
}

/// The string `u` with the nonterminal at position `i` replaced by the
/// right-hand side of its `k`-th production.
pub open spec fn rewrite(g: Grammar, u: Seq<Symbol>, i: int, k: int) -> Seq<Symbol> {
    match u[i] {
        Symbol::Nonterminal(a) => u.take(i) + g.rules[a as int][k] + u.skip(i + 1),
        _ => u,
    }
}

/// `v` comes from `u` by applying one production to one nonterminal.
pub open spec fn derives_step(g: Grammar, u: Seq<Symbol>, v: Seq<Symbol>) -> bool {
    exists|i: int, k: int| can_rewrite(g, u, i, k) && #[trigger] rewrite(g, u, i, k) == v
}

/// `v` comes from `u` in `n` steps.
pub open spec fn derives_in(g: Grammar, u: Seq<Symbol>, v: Seq<Symbol>, n: nat) -> bool
    decreases n,
{
    if n == 0 {
        u == v
    } else {
        exists|w: Seq<Symbol>| #[trigger] derives_step(g, u, w) && derives_in(g, w, v, (n - 1) as nat)
    }
}

/// `v` is derived from `u`: the sentential forms of a grammar are the
/// strings derived from its start symbol.
pub open spec fn derives(g: Grammar, u: Seq<Symbol>, v: Seq<Symbol>) -> bool {
    exists|n: nat| derives_in(g, u, v, n)
}

/// The string `v` begins with `x`: its first symbol that is no empty marker
/// is `x`; or, for the empty marker, `v` is the empty string, which is to say
/// that it holds nothing but empty markers.
pub open spec fn begins_with(v: Seq<Symbol>, x: Symbol) -> bool {
    if x == Symbol::Empty() {
        leading(v) is None
    } else {
        leading(v) == Some(x)
    }
}

/// A nonterminal as a string of one symbol.
pub open spec fn single(a: usize) -> Seq<Symbol> {
    seq![Symbol::Nonterminal(a)]
}

/// The leading symbol of two strings, one behind the other.
pub proof fn lemma_leading_concat(p: Seq<Symbol>, q: Seq<Symbol>)
    ensures
        leading(p + q) == if leading(p) is Some {
            leading(p)
        } else {
            leading(q)
        },
    decreases p.len(),
{
    if p.len() == 0 {
        assert(p + q =~= q);
    } else {
        assert((p + q).drop_first() =~= p.drop_first() + q);
        lemma_leading_concat(p.drop_first(), q);
    }
}

/// FIRST of two strings, one behind the other: FIRST of the front one, and,
/// where that one can vanish, FIRST of the other in place of the empty
/// marker.
pub proof fn lemma_first_of_string_concat(firsts: Seq<Set<Symbol>>, p: Seq<Symbol>, q: Seq<Symbol>)
    ensures
        first_of_string(firsts, p + q) == if first_of_string(firsts, p).contains(Symbol::Empty()) {
            first_of_string(firsts, p).remove(Symbol::Empty()).union(first_of_string(firsts, q))
        } else {
            first_of_string(firsts, p)
        },
    decreases p.len(),
{
    let fp = first_of_string(firsts, p);
    let goal = if fp.contains(Symbol::Empty()) {
        fp.remove(Symbol::Empty()).union(first_of_string(firsts, q))
    } else {
        fp
    };
    if p.len() == 0 {
        assert(p + q =~= q);
        assert(first_of_string(firsts, q) =~= goal);
    } else {
        assert((p + q).drop_first() =~= p.drop_first() + q);
        assert((p + q)[0] == p[0]);
        lemma_first_of_string_concat(firsts, p.drop_first(), q);
        assert(first_of_string(firsts, p + q) =~= goal);
    }
}

/// A derivation can be made within a longer string.
pub proof fn lemma_derives_in_context(
    g: Grammar,
    p: Seq<Symbol>,
    u: Seq<Symbol>,
    v: Seq<Symbol>,
    s: Seq<Symbol>,
    n: nat,
)
    requires
        derives_in(g, u, v, n),
    ensures
        derives_in(g, p + u + s, p + v + s, n),
    decreases n,
{
    if n > 0 {
        let w = choose|w: Seq<Symbol>| #[trigger]
            derives_step(g, u, w) && derives_in(g, w, v, (n - 1) as nat);
        let (i, k) = choose|i: int, k: int| can_rewrite(g, u, i, k) && #[trigger] rewrite(g, u, i, k) == w;
        let long = p + u + s;
        let at = p.len() + i;
        assert(long[at] == u[i]);
        assert(can_rewrite(g, long, at, k));
        match u[i] {
            Symbol::Nonterminal(a) => {
                let rhs = g.rules[a as int][k];
                assert(long.take(at) =~= p + u.take(i));
                assert(long.skip(at + 1) =~= u.skip(i + 1) + s);
                assert(rewrite(g, long, at, k) =~= p + w + s);
            },
            _ => {},
        }
        assert(derives_step(g, long, p + w + s));
        lemma_derives_in_context(g, p, w, v, s, (n - 1) as nat);
    }
}

/// Derivations can be put one behind the other.
pub proof fn lemma_derives_in_chain(
    g: Grammar,
    u: Seq<Symbol>,
    v: Seq<Symbol>,
    w: Seq<Symbol>,
    n: nat,
    m: nat,
)
    requires
        derives_in(g, u, v, n),
        derives_in(g, v, w, m),
    ensures
        derives_in(g, u, w, n + m),
    decreases n,
{
    if n > 0 {
        let x = choose|x: Seq<Symbol>| #[trigger]
            derives_step(g, u, x) && derives_in(g, x, v, (n - 1) as nat);
        lemma_derives_in_chain(g, x, v, w, (n - 1) as nat, m);
        assert(derives_step(g, u, x) && derives_in(g, x, w, (n + m - 1) as nat));
    }
}

/// A nonterminal derives each of its right-hand sides in one step.
pub proof fn lemma_derives_production(g: Grammar, a: usize, k: int)
    requires
        a < g.rules.len(),
        0 <= k < g.rules[a as int].len(),
    ensures
        derives_in(g, single(a), g.rules[a as int][k], 1),
{
    let rhs = g.rules[a as int][k];
    assert(can_rewrite(g, single(a), 0, k));
    assert(rewrite(g, single(a), 0, k) =~= rhs);
    assert(derives_step(g, single(a), rhs) && derives_in(g, rhs, rhs, 0));
}

/// What a round of the FIRST equations puts into the set of a nonterminal
/// begins a string that the nonterminal derives.
proof fn lemma_first_approx_sound(g: Grammar, n: nat, a: usize, x: Symbol) -> (r: (Seq<Symbol>, nat))
    requires
        a < g.rules.len(),
        first_approx(g, n)[a as int].contains(x),
    ensures
        derives_in(g, single(a), r.0, r.1),
        begins_with(r.0, x),
    decreases n, 0nat,
{
    assert(n > 0);
    let prev = first_approx(g, (n - 1) as nat);
    let k = choose|k: int|
        0 <= k < g.rules[a as int].len() && first_of_string(prev, #[trigger] g.rules[a as int][k]).contains(
            x,
        );
    let rhs = g.rules[a as int][k];
    let (v, m) = lemma_first_of_string_sound(g, (n - 1) as nat, rhs, x);
    lemma_derives_production(g, a, k);
    lemma_derives_in_chain(g, single(a), rhs, v, 1, m);
    (v, 1 + m)
}

/// What FIRST of a string holds under the sets of a round begins a string
/// that the string derives.
proof fn lemma_first_of_string_sound(g: Grammar, n: nat, s: Seq<Symbol>, x: Symbol) -> (r: (
    Seq<Symbol>,
    nat,
))
    requires
        first_of_string(first_approx(g, n), s).contains(x),
    ensures
        derives_in(g, s, r.0, r.1),
        begins_with(r.0, x),
    decreases n, 1 + s.len(),
{
    let f = first_approx(g, n);
    let none = Seq::<Symbol>::empty();
    if s.len() == 0 {
        (s, 0)
    } else {
        let rest = s.drop_first();
        let head = seq![s[0]];
        assert(s =~= head + rest);
        match s[0] {
            Symbol::Empty() => {
                let (v, m) = lemma_first_of_string_sound(g, n, rest, x);
                lemma_derives_in_context(g, head, rest, v, none, m);
                assert(head + rest + none =~= s);
                assert(head + v + none =~= head + v);
                assert((head + v).drop_first() =~= v);
                (head + v, m)
            },
            Symbol::Terminal(_) | Symbol::EOF() => (s, 0),
            Symbol::Nonterminal(b) => {
                let fb = first_at(f, b as int);
                assert(b < g.rules.len()) by {
                    if b >= f.len() {
                        assert(fb =~= Set::<Symbol>::empty());
                    }
                    lemma_first_approx_len(g, n);
                }
                if fb.contains(x) && x != Symbol::Empty() {
                    let (v, m) = lemma_first_approx_sound(g, n, b, x);
                    lemma_derives_in_context(g, none, single(b), v, rest, m);
                    assert(none + single(b) + rest =~= s);
                    assert(none + v + rest =~= v + rest);
                    lemma_leading_concat(v, rest);
                    (v + rest, m)
                } else {
                    let (v1, m1) = lemma_first_approx_sound(g, n, b, Symbol::Empty());
                    let (v2, m2) = lemma_first_of_string_sound(g, n, rest, x);
                    lemma_derives_in_context(g, none, single(b), v1, rest, m1);
                    assert(none + single(b) + rest =~= s);
                    assert(none + v1 + rest =~= v1 + rest);
                    lemma_derives_in_context(g, v1, rest, v2, none, m2);
                    assert(v1 + rest + none =~= v1 + rest);
                    assert(v1 + v2 + none =~= v1 + v2);
                    lemma_derives_in_chain(g, s, v1 + rest, v1 + v2, m1, m2);
                    lemma_leading_concat(v1, v2);
                    (v1 + v2, m1 + m2)
                }
            },
        }
    }
}

proof fn lemma_first_approx_len(g: Grammar, n: nat)
    ensures
        first_approx(g, n).len() == g.rules.len(),
    decreases n,
{
    if n > 0 {
        lemma_first_approx_len(g, (n - 1) as nat);
    }
}

/// FIRST of a nonterminal as a string is its FIRST set.
proof fn lemma_first_of_single(firsts: Seq<Set<Symbol>>, a: usize)
    requires
        a < firsts.len(),
    ensures
        first_of_string(firsts, single(a)) == firsts[a as int],
{
    let none = Seq::<Symbol>::empty();
    assert(single(a).drop_first() =~= none);
    assert(first_of_string(firsts, none) == set![Symbol::Empty()]);
    assert(first_of_string(firsts, single(a)) =~= firsts[a as int]);
}

/// What begins a string derived from `u` is in FIRST of `u` under the
/// FIRST sets.
proof fn lemma_first_of_string_complete(g: Grammar, u: Seq<Symbol>, v: Seq<Symbol>, n: nat, x: Symbol)
    requires
        derives_in(g, u, v, n),
        begins_with(v, x),
        x.is_token() || x == Symbol::Empty(),
    ensures
        first_of_string(first_sets(g), u).contains(x),
    decreases n,
{
    let f = first_sets(g);
    if n == 0 {
        lemma_first_of_string_leading(f, u);
    } else {
        let w = choose|w: Seq<Symbol>| #[trigger]
            derives_step(g, u, w) && derives_in(g, w, v, (n - 1) as nat);
        let (i, k) = choose|i: int, k: int| can_rewrite(g, u, i, k) && #[trigger] rewrite(g, u, i, k) == w;
        lemma_first_of_string_complete(g, w, v, (n - 1) as nat, x);
        match u[i] {
            Symbol::Nonterminal(a) => {
                let p = u.take(i);
                let q = u.skip(i + 1);
                let rhs = g.rules[a as int][k];
                let one = single(a);
                assert(u =~= p + (one + q));
                assert(w =~= p + (rhs + q));
                lemma_first_of_string_concat(f, p, rhs + q);
                lemma_first_of_string_concat(f, p, one + q);
                lemma_first_of_string_concat(f, rhs, q);
                lemma_first_of_string_concat(f, one, q);
                lemma_first_sets_fixed_point(g);
                assert(first_of_string(f, rhs).subset_of(f[a as int])) by {
                    assert forall|y: Symbol| first_of_string(f, rhs).contains(y) implies f[a as int].contains(
                        y,
                    ) by {
                        assert(first_of_string(f, g.rules[a as int][k]).contains(y));
                        assert(crate::first::first_round(g, f)[a as int].contains(y));
                    }
                }
                lemma_first_of_single(f, a);
            },
            _ => {},
        }
    }
}

/// FIRST of a nonterminal holds exactly what begins the strings that it
/// derives: a token is in the set if and only if some string derived from
/// the nonterminal begins with it, and the empty marker is in the set if and
/// only if the nonterminal derives the empty string.
pub proof fn lemma_first_set_meaning(g: Grammar, a: usize, x: Symbol)
    requires
        a < g.rules.len(),
        x.is_token() || x == Symbol::Empty(),
    ensures
        first_set(g, a as int).contains(x) <==> exists|v: Seq<Symbol>|
            derives(g, single(a), v) && #[trigger] begins_with(v, x),
{
    if first_set(g, a as int).contains(x) {
        let n = choose|n: nat| (#[trigger] first_approx(g, n))[a as int].contains(x);
        let (v, m) = lemma_first_approx_sound(g, n, a, x);
        assert(derives(g, single(a), v) && begins_with(v, x));
    }
    if exists|v: Seq<Symbol>| derives(g, single(a), v) && #[trigger] begins_with(v, x) {
        let v = choose|v: Seq<Symbol>| derives(g, single(a), v) && #[trigger] begins_with(v, x);
        let n = choose|n: nat| derives_in(g, single(a), v, n);
        lemma_first_of_string_complete(g, single(a), v, n, x);
        lemma_first_of_single(first_sets(g), a);
    }
}

/// In the string `u + a + v`, derived from the nonterminal `c`, the
/// nonterminal `a` is followed by `x`.
pub open spec fn followed_in(
    g: Grammar,
    c: usize,
    a: usize,
    x: Symbol,
    u: Seq<Symbol>,
    v: Seq<Symbol>,
) -> bool {
    &&& c < g.rules.len()
    &&& derives(g, single(c), u + single(a) + v)
    &&& begins_with(v, x)
}

/// The nonterminal `c` occurs in a sentential form.
pub open spec fn reachable(g: Grammar, c: usize) -> bool {
    exists|u: Seq<Symbol>, v: Seq<Symbol>| #[trigger] derives(g, single(0), u + single(c) + v)
}

/// What FIRST of a string holds under the FIRST sets begins a string that
/// the string derives.
pub proof fn lemma_first_of_string_meaning(g: Grammar, s: Seq<Symbol>, x: Symbol) -> (r: (
    Seq<Symbol>,
    nat,
))
    requires
        first_of_string(first_sets(g), s).contains(x),
    ensures
        derives_in(g, s, r.0, r.1),
        begins_with(r.0, x),
{
    let n = lemma_first_of_string_reached(g, s, x);
    lemma_first_of_string_sound(g, n, s, x)
}

/// What a round of the FOLLOW equations puts into the set of a nonterminal
/// follows it in a string derived from some nonterminal.
proof fn lemma_follow_approx_sound(g: Grammar, n: nat, a: usize, x: Symbol) -> (r: (
    usize,
    Seq<Symbol>,
    Seq<Symbol>,
))
    requires
        g.wf(),
        a < g.rules.len(),
        follow_approx(g, first_sets(g), n)[a as int].contains(x),
        !(a == 0 && x == Symbol::EOF()),
    ensures
        followed_in(g, r.0, a, x, r.1, r.2),
    decreases n,
{
    let f = first_sets(g);
    assert(n > 0);
    let prev = follow_approx(g, f, (n - 1) as nat);
    lemma_first_sets_entries(g);
    lemma_follow_sets_tokens(g, f);
    assert(x != Symbol::Empty()) by {
        assert(follow_set(g, f, a as int).contains(x));
        assert(crate::follow::follow_sets(g, f)[a as int].subset_of(tokens(g)));
    }
    if prev[a as int].contains(x) {
        lemma_follow_approx_sound(g, (n - 1) as nat, a, x)
    } else {
        let (bi, k, j) = choose|b: int, k: int, j: int| #[trigger]
            occurs(g, a as int, b, k, j) && follow_contribution(
                f,
                prev[b],
                g.rules[b][k].skip(j + 1),
            ).contains(x);
        lemma_nonterminals_fit(g);
        let b = bi as usize;
        let rhs = g.rules[bi][k];
        let alpha = rhs.take(j);
        let beta = rhs.skip(j + 1);
        assert(rhs =~= alpha + single(a) + beta);
        lemma_derives_production(g, b, k);
        if first_of_string(f, beta).contains(x) {
            let (w, m) = lemma_first_of_string_meaning(g, beta, x);
            lemma_derives_in_context(g, alpha + single(a), beta, w, Seq::<Symbol>::empty(), m);
            assert(alpha + single(a) + beta + Seq::<Symbol>::empty() =~= rhs);
            assert(alpha + single(a) + w + Seq::<Symbol>::empty() =~= alpha + single(a) + w);
            lemma_derives_in_chain(g, single(b), rhs, alpha + single(a) + w, 1, m);
            (b, alpha, w)
        } else {
            assert(first_of_string(f, beta).contains(Symbol::Empty()));
            assert(prev[bi].contains(x));
            assert(bi != 0) by {
                if bi == 0 {
                    assert(g.rules[0] == seq![seq![Symbol::Nonterminal(1), Symbol::EOF()]]);
                    assert(k == 0 && j == 0);
                    assert(beta =~= seq![Symbol::EOF()]);
                    assert(beta.drop_first() =~= Seq::<Symbol>::empty());
                    assert(first_of_string(f, beta) =~= set![Symbol::EOF()]);
                }
            }
            let (c, u1, v1) = lemma_follow_approx_sound(g, (n - 1) as nat, b, x);
            let (w0, m0) = lemma_first_of_string_meaning(g, beta, Symbol::Empty());
            let m1 = choose|m1: nat| derives_in(g, single(c), u1 + single(b) + v1, m1);
            // one step within the string, then the rest of the production vanishes
            lemma_derives_in_context(g, u1, single(b), rhs, v1, 1);
            lemma_derives_in_context(g, u1 + alpha + single(a), beta, w0, v1, m0);
            assert(u1 + alpha + single(a) + beta + v1 =~= u1 + rhs + v1);
            lemma_derives_in_chain(g, single(c), u1 + single(b) + v1, u1 + rhs + v1, m1, 1);
            lemma_derives_in_chain(
                g,
                single(c),
                u1 + rhs + v1,
                u1 + alpha + single(a) + w0 + v1,
                m1 + 1,
                m0,
            );
            assert(u1 + alpha + single(a) + w0 + v1 =~= (u1 + alpha) + single(a) + (w0 + v1));
            lemma_leading_concat(w0, v1);
            (c, u1 + alpha, w0 + v1)
        }
    }
}

/// Every member of the FOLLOW set of a nonterminal follows it in a string
/// derived from some nonterminal. The end marker in the set of the added
/// start symbol is there by convention and is left out.
pub proof fn lemma_follow_set_sound(g: Grammar, a: usize, x: Symbol)
    requires
        g.wf(),
        a < g.rules.len(),
        follow_set(g, first_sets(g), a as int).contains(x),
        !(a == 0 && x == Symbol::EOF()),
    ensures
        exists|c: usize, u: Seq<Symbol>, v: Seq<Symbol>| #[trigger] followed_in(g, c, a, x, u, v),
{
    let n = choose|n: nat| (#[trigger] follow_approx(g, first_sets(g), n))[a as int].contains(x);
    let (c, u, v) = lemma_follow_approx_sound(g, n, a, x);
    assert(followed_in(g, c, a, x, u, v));
}

/// Where every nonterminal occurs in a sentential form, every member of the
/// FOLLOW set of a nonterminal follows it in a sentential form. The end
/// marker in the set of the added start symbol is there by convention and is
/// left out.
pub proof fn lemma_follow_set_in_sentential_form(g: Grammar, a: usize, x: Symbol)
    requires
        g.wf(),
        a < g.rules.len(),
        follow_set(g, first_sets(g), a as int).contains(x),
        !(a == 0 && x == Symbol::EOF()),
        forall|c: usize| c < g.rules.len() ==> #[trigger] reachable(g, c),
    ensures
        exists|u: Seq<Symbol>, v: Seq<Symbol>| #[trigger] followed_in(g, 0, a, x, u, v),
{
    let f = first_sets(g);
    lemma_first_sets_entries(g);
    lemma_follow_sets_tokens(g, f);
    assert(x != Symbol::Empty()) by {
        assert(crate::follow::follow_sets(g, f)[a as int].subset_of(tokens(g)));
    }
    lemma_follow_set_sound(g, a, x);
    let (c, u, v) = choose|c: usize, u: Seq<Symbol>, v: Seq<Symbol>| #[trigger]
        followed_in(g, c, a, x, u, v);
    assert(reachable(g, c));
    let (u0, v0) = choose|u0: Seq<Symbol>, v0: Seq<Symbol>| #[trigger]
        derives(g, single(0), u0 + single(c) + v0);
    let n0 = choose|n0: nat| derives_in(g, single(0), u0 + single(c) + v0, n0);
    let n = choose|n: nat| derives_in(g, single(c), u + single(a) + v, n);
    lemma_derives_in_context(g, u0, single(c), u + single(a) + v, v0, n);
    lemma_derives_in_chain(g, single(0), u0 + single(c) + v0, u0 + (u + single(a) + v) + v0, n0, n);
    assert(u0 + (u + single(a) + v) + v0 =~= (u0 + u) + single(a) + (v + v0));
    lemma_leading_concat(v, v0);
    assert(followed_in(g, 0, a, x, u0 + u, v + v0));
}

/// FIRST of a right-hand side is within the FIRST set of its nonterminal.
proof fn lemma_first_of_production(g: Grammar, b: usize, k: int)
    requires
        b < g.rules.len(),
        0 <= k < g.rules[b as int].len(),
    ensures
        first_of_string(first_sets(g), g.rules[b as int][k]).subset_of(first_set(g, b as int)),
{
    let f = first_sets(g);
    lemma_first_sets_fixed_point(g);
    assert forall|y: Symbol| first_of_string(f, g.rules[b as int][k]).contains(y) implies first_set(
        g,
        b as int,
    ).contains(y) by {
        assert(first_round(g, f)[b as int].contains(y));
    }
}

/// FIRST of a string does not grow where a nonterminal in it is replaced
/// by one of its right-hand sides.
proof fn lemma_first_of_string_replace(g: Grammar, r: Seq<Symbol>, b: usize, k: int, q: Seq<Symbol>)
    requires
        b < g.rules.len(),
        0 <= k < g.rules[b as int].len(),
    ensures
        first_of_string(first_sets(g), r + (g.rules[b as int][k] + q)).subset_of(
            first_of_string(first_sets(g), r + (single(b) + q)),
        ),
{
    let f = first_sets(g);
    let rhs = g.rules[b as int][k];
    lemma_first_of_production(g, b, k);
    lemma_first_of_single(f, b);
    lemma_first_of_string_concat(f, rhs, q);
    lemma_first_of_string_concat(f, single(b), q);
    lemma_first_of_string_concat(f, r, rhs + q);
    lemma_first_of_string_concat(f, r, single(b) + q);
}

/// In the string `w`, what follows each nonterminal is in its FOLLOW set:
/// the tokens with which the rest of the string can begin, and, where the
/// rest can vanish, what follows the start symbol.
pub open spec fn follows_within(g: Grammar, w: Seq<Symbol>) -> bool {
    &&& string_valid(w, g)
    &&& forall|i: int|
        0 <= i < w.len() ==> (#[trigger] w[i] matches Symbol::Nonterminal(a) ==> follow_contribution(
            first_sets(g),
            follow_set(g, first_sets(g), 0),
            w.skip(i + 1),
        ).subset_of(follow_set(g, first_sets(g), a as int)))
}

/// The FOLLOW sets solve the FOLLOW equations at every occurrence of a
/// nonterminal.
proof fn lemma_follow_sets_closed(g: Grammar, c: usize, b: usize, k: int, j: int)
    requires
        g.wf(),
        occurs(g, c as int, b as int, k, j),
    ensures
        follow_contribution(
            first_sets(g),
            follow_set(g, first_sets(g), b as int),
            g.rules[b as int][k].skip(j + 1),
        ).subset_of(follow_set(g, first_sets(g), c as int)),
{
    let f = first_sets(g);
    let fw = follow_sets(g, f);
    assert(sets_le(fw, fw));
    lemma_follow_contribution_sound(g, f, fw, c as int, b as int, k, j);
}

/// A step of a derivation keeps what follows each nonterminal within its
/// FOLLOW set.
proof fn lemma_follows_within_step(g: Grammar, u: Seq<Symbol>, at: int, k: int)
    requires
        g.wf(),
        follows_within(g, u),
        can_rewrite(g, u, at, k),
    ensures
        follows_within(g, rewrite(g, u, at, k)),
{
    let f = first_sets(g);
    let start = follow_set(g, f, 0);
    let w = rewrite(g, u, at, k);
    match u[at] {
        Symbol::Nonterminal(b) => {
            let rhs = g.rules[b as int][k];
            let p = u.take(at);
            let q = u.skip(at + 1);
            assert(w == p + rhs + q);
            assert forall|i: int| 0 <= i < w.len() implies (#[trigger] w[i]).valid(g) by {
                if i < at {
                    assert(w[i] == u[i]);
                    assert(u[i].valid(g));
                } else if i < at + rhs.len() {
                    assert(w[i] == rhs[i - at]);
                    assert(g.rules[b as int][k][i - at].valid(g));
                } else {
                    assert(w[i] == u[i - rhs.len() + 1]);
                    assert(u[i - rhs.len() + 1].valid(g));
                }
            }
            assert(u[at].valid(g));
            // what follows the nonterminal that is replaced
            let after = follow_contribution(f, start, q);
            assert(after.subset_of(follow_set(g, f, b as int))) by {
                assert(u.skip(at + 1) == q);
            }
            assert forall|i: int| 0 <= i < w.len() implies (#[trigger] w[i] matches Symbol::Nonterminal(
                a,
            ) ==> follow_contribution(f, start, w.skip(i + 1)).subset_of(
                follow_set(g, f, a as int),
            )) by {
                match w[i] {
                    Symbol::Nonterminal(a) => {
                        if i < at {
                            let r = u.subrange(i + 1, at);
                            assert(w[i] == u[i]);
                            assert(w.skip(i + 1) =~= r + (rhs + q));
                            assert(u.skip(i + 1) =~= r + (single(b) + q));
                            lemma_first_of_string_replace(g, r, b, k, q);
                        } else if i < at + rhs.len() {
                            let j = i - at;
                            let beta = rhs.skip(j + 1);
                            assert(w[i] == rhs[j]);
                            assert(w.skip(i + 1) =~= beta + q);
                            assert(occurs(g, a as int, b as int, k, j));
                            lemma_follow_sets_closed(g, a, b, k, j);
                            lemma_first_of_string_concat(f, beta, q);
                        } else {
                            let i0 = i - rhs.len() + 1;
                            assert(w[i] == u[i0]);
                            assert(w.skip(i + 1) =~= u.skip(i0 + 1));
                        }
                    },
                    _ => {},
                }
            }
        },
        _ => {},
    }
}

/// A derivation keeps what follows each nonterminal within its FOLLOW set.
proof fn lemma_follows_within_derivation(g: Grammar, u: Seq<Symbol>, v: Seq<Symbol>, n: nat)
    requires
        g.wf(),
        follows_within(g, u),
        derives_in(g, u, v, n),
    ensures
        follows_within(g, v),
    decreases n,
{
    if n > 0 {
        let w = choose|w: Seq<Symbol>| #[trigger]
            derives_step(g, u, w) && derives_in(g, w, v, (n - 1) as nat);
        let (i, k) = choose|i: int, k: int| can_rewrite(g, u, i, k) && #[trigger] rewrite(g, u, i, k) == w;
        lemma_follows_within_step(g, u, i, k);
        lemma_follows_within_derivation(g, w, v, (n - 1) as nat);
    }
}

/// Every token that follows a nonterminal in a sentential form is in its
/// FOLLOW set.
pub proof fn lemma_follow_set_complete(g: Grammar, a: usize, x: Symbol, u: Seq<Symbol>, v: Seq<Symbol>)
    requires
        g.wf(),
        x.is_token(),
        followed_in(g, 0, a, x, u, v),
    ensures
        follow_set(g, first_sets(g), a as int).contains(x),
{
    let f = first_sets(g);
    let start = follow_set(g, f, 0);
    let w = u + single(a) + v;
    let n = choose|n: nat| derives_in(g, single(0), w, n);
    assert(follows_within(g, single(0))) by {
        assert(single(0).skip(1) =~= Seq::<Symbol>::empty());
        assert(follow_contribution(f, start, Seq::<Symbol>::empty()).subset_of(start));
    }
    lemma_follows_within_derivation(g, single(0), w, n);
    let at = u.len() as int;
    assert(w[at] == Symbol::Nonterminal(a));
    assert(w.skip(at + 1) =~= v);
    lemma_first_of_string_leading(f, v);
    assert(follow_contribution(f, start, v).contains(x));
}

} // verus!
