use lr1_tables::first as grammar_first;
use lr1_tables::grammar;
use lr1_tables::grammar::{FirstSet, Symbol, CFG};
use lr1_tables::symbol_set::SymbolSet;

fn get_gstr() -> Vec<String> {
    let gstr = vec![
        "E -> E .+ T",
        "E -> T",
        "T -> T .* F",
        "T -> F",
        "F -> .( E .)",
        "F -> .id",
    ];
    gstr.iter().map(|&x| String::from(x)).collect()
}

fn get_cfg(grammar_strings: &Vec<String>) -> Box<grammar::CFG> {
    Box::new(grammar::CFG::from_strings(&grammar_strings).unwrap())
}

fn nullable_gstr() -> Vec<String> {
    let gstr = vec!["S -> C C", "C -> .d C", "C -> <empty>"];
    gstr.iter().map(|&x| String::from(x)).collect()
}

fn members(set: &SymbolSet) -> Vec<Symbol> {
    let mut out = Vec::new();
    for i in 0..set.len() {
        out.push(set.get(i));
    }
    out
}

#[test]
fn test_first() {
    let firsts = get_cfg(&get_gstr()).generate_firsts();

    let first_s = &firsts[0];
    let first_e = &firsts[1];
    let first_t = &firsts[2];
    let first_f = &firsts[3];

    assert_eq!(2, first_s.len());
    assert_eq!(2, first_e.len());
    assert_eq!(2, first_t.len());
    assert_eq!(2, first_f.len());

    //.( and .id
    assert!(first_s.contains(&grammar::Symbol::Terminal(2)));
    assert!(first_s.contains(&grammar::Symbol::Terminal(4)));

    assert!(first_e.contains(&grammar::Symbol::Terminal(2)));
    assert!(first_e.contains(&grammar::Symbol::Terminal(4)));

    assert!(first_t.contains(&grammar::Symbol::Terminal(2)));
    assert!(first_t.contains(&grammar::Symbol::Terminal(4)));

    assert!(first_f.contains(&grammar::Symbol::Terminal(2)));
    assert!(first_f.contains(&grammar::Symbol::Terminal(4)));
}

#[test]
fn test_follow() {
    let gstr = &get_gstr();
    let cfg = get_cfg(gstr);
    let firsts = cfg.generate_firsts();
    let follows = cfg.generate_follows(&firsts);

    let follow_s = &follows[0];
    let follow_e = &follows[1];
    let follow_t = &follows[2];
    let follow_f = &follows[3];

    assert_eq!(1, follow_s.len());
    assert_eq!(3, follow_e.len());
    assert_eq!(4, follow_t.len());
    assert_eq!(4, follow_f.len());

    assert!(follow_s.contains(&grammar::Symbol::EOF()));

    //eof and .+ and .)
    assert!(follow_e.contains(&grammar::Symbol::EOF()));
    assert!(follow_e.contains(&grammar::Symbol::Terminal(0)));
    assert!(follow_e.contains(&grammar::Symbol::Terminal(3)));

    //eof and .+, .*, and .)
    assert!(follow_t.contains(&grammar::Symbol::EOF()));
    assert!(follow_t.contains(&grammar::Symbol::Terminal(0)));
    assert!(follow_t.contains(&grammar::Symbol::Terminal(1)));
    assert!(follow_t.contains(&grammar::Symbol::Terminal(3)));

    //eof and .+, .*, and .)
    assert!(follow_f.contains(&grammar::Symbol::EOF()));
    assert!(follow_f.contains(&grammar::Symbol::Terminal(0)));
    assert!(follow_f.contains(&grammar::Symbol::Terminal(1)));
    assert!(follow_f.contains(&grammar::Symbol::Terminal(3)));
}

#[test]
fn expression_first_sets_are_equal() {
    let gstr = get_gstr();
    let cfg = get_cfg(&gstr);
    let firsts = cfg.generate_firsts();
    assert_eq!(cfg.symbol_str(&Symbol::Terminal(2)), "(");
    assert_eq!(cfg.symbol_str(&Symbol::Terminal(4)), "id");
    for a in 1..4 {
        let mut got = members(&firsts[a]);
        got.sort_by_key(|s| match s {
            Symbol::Terminal(t) => *t,
            _ => usize::MAX,
        });
        assert_eq!(got, vec![Symbol::Terminal(2), Symbol::Terminal(4)]);
    }
}

#[test]
fn first_sets_hold_no_nonterminal() {
    let gstr = get_gstr();
    let cfg = get_cfg(&gstr);
    for set in cfg.generate_firsts().iter() {
        for s in members(set) {
            assert!(!matches!(s, Symbol::Nonterminal(_)));
        }
    }
    let gstr = nullable_gstr();
    let cfg = get_cfg(&gstr);
    for set in cfg.generate_firsts().iter() {
        for s in members(set) {
            assert!(!matches!(s, Symbol::Nonterminal(_)));
        }
    }
}

#[test]
fn nullable_first_and_follow() {
    let gstr = nullable_gstr();
    let cfg = get_cfg(&gstr);
    let firsts = cfg.generate_firsts();
    let d = Symbol::Terminal(0);
    assert_eq!(cfg.symbol_str(&d), "d");
    // C can vanish
    assert!(firsts[2].contains(&Symbol::Empty()));
    assert!(firsts[2].contains(&d));
    assert_eq!(2, firsts[2].len());
    // the only terminal that begins S is d; S can vanish as both C can
    assert!(firsts[1].contains(&d));
    assert!(firsts[1].contains(&Symbol::Empty()));
    assert_eq!(2, firsts[1].len());
    // S' -> S <eof> cannot vanish
    assert!(firsts[0].contains(&d));
    assert!(firsts[0].contains(&Symbol::EOF()));
    assert!(!firsts[0].contains(&Symbol::Empty()));
    assert_eq!(2, firsts[0].len());

    let follows = cfg.generate_follows(&firsts);
    assert!(follows[2].contains(&Symbol::EOF()));
    assert!(follows[2].contains(&d));
    assert_eq!(2, follows[2].len());
    assert!(follows[1].contains(&Symbol::EOF()));
    assert_eq!(1, follows[1].len());
    assert!(follows[0].contains(&Symbol::EOF()));
    assert_eq!(1, follows[0].len());
    for set in follows.iter() {
        assert!(!set.contains(&Symbol::Empty()));
    }
}

#[test]
fn first_round_on_converged_sets_changes_nothing() {
    for gstr in [get_gstr(), nullable_gstr()] {
        let cfg = get_cfg(&gstr);
        let firsts = cfg.generate_firsts();
        for a in 0..firsts.len() {
            let again = cfg.generate_first_from_prods(a, &firsts);
            assert_eq!(again.len(), firsts[a].len());
            for s in members(&again) {
                assert!(firsts[a].contains(&s));
            }
        }
    }
}

#[test]
fn follow_of_nonterminal_at_the_end_takes_follow_of_lhs() {
    // A -> .a B: whatever follows A follows B
    let gstr: Vec<String> =
        vec!["S -> A .x", "A -> .a B", "B -> .b"].iter().map(|&x| String::from(x)).collect();
    let cfg = get_cfg(&gstr);
    let firsts = cfg.generate_firsts();
    let follows = cfg.generate_follows(&firsts);
    let x = Symbol::Terminal(0);
    assert_eq!(cfg.symbol_str(&x), "x");
    assert!(follows[2].contains(&x));
    assert_eq!(1, follows[2].len());
    assert!(follows[3].contains(&x));
    assert_eq!(1, follows[3].len());
}

#[test]
fn follow_through_self_reference() {
    // A -> A .a | .b : a follows A by A's own production
    let gstr: Vec<String> =
        vec!["S -> A", "A -> A .a", "A -> .b"].iter().map(|&x| String::from(x)).collect();
    let cfg = get_cfg(&gstr);
    let firsts = cfg.generate_firsts();
    let follows = cfg.generate_follows(&firsts);
    assert!(follows[2].contains(&Symbol::Terminal(0)));
    assert!(follows[2].contains(&Symbol::EOF()));
    assert_eq!(2, follows[2].len());
}

#[test]
fn get_first_of_strings() {
    // B -> .a | .b | <empty>
    let gstr: Vec<String> = vec!["S -> B .c", "B -> .a", "B -> .b", "B -> <empty>"]
        .iter()
        .map(|&x| String::from(x))
        .collect();
    let cfg = CFG::from_strings(&gstr).unwrap();
    let firsts = cfg.generate_firsts();
    let a = Symbol::Terminal(1);
    let b = Symbol::Terminal(2);
    let c = Symbol::Terminal(0);
    let big_b = Symbol::Nonterminal(2);
    assert_eq!(cfg.symbol_str(&a), "a");
    assert_eq!(cfg.symbol_str(&big_b), "B");

    // "aBc" -> a
    match cfg.get_first(&[a, big_b, c], &firsts) {
        Some(FirstSet::Other(s)) => assert_eq!(s, a),
        _ => panic!("a terminal leads"),
    }
    // "<empty>aBc" -> a
    match cfg.get_first(&[Symbol::Empty(), a, big_b, c], &firsts) {
        Some(FirstSet::Other(s)) => assert_eq!(s, a),
        _ => panic!("a terminal leads"),
    }
    // "Bc" -> {a, b, c}
    match cfg.get_first(&[big_b, c], &firsts) {
        Some(FirstSet::Nonterminal(set)) => {
            assert_eq!(3, set.len());
            assert!(set.contains(&a) && set.contains(&b) && set.contains(&c));
        }
        _ => panic!("a nonterminal leads"),
    }
    // "B" -> {a, b, <empty>}
    match cfg.get_first(&[big_b], &firsts) {
        Some(FirstSet::Nonterminal(set)) => {
            assert_eq!(3, set.len());
            assert!(set.contains(&a) && set.contains(&b) && set.contains(&Symbol::Empty()));
        }
        _ => panic!("a nonterminal leads"),
    }
    // "<eof>" -> <eof>
    match cfg.get_first(&[Symbol::EOF()], &firsts) {
        Some(FirstSet::Other(s)) => assert_eq!(s, Symbol::EOF()),
        _ => panic!("the end marker leads"),
    }
    // "<empty><empty><empty>" -> None
    assert!(cfg.get_first(&[Symbol::Empty(), Symbol::Empty(), Symbol::Empty()], &firsts).is_none());
    assert!(cfg.get_first(&[], &firsts).is_none());
}

#[test]
fn well_formed_grammars_are_told_from_others() {
    let gstr = get_gstr();
    let mut cfg = CFG::from_strings(&gstr).unwrap();
    assert!(cfg.is_wf());
    // a terminal that the grammar lacks
    cfg.productions[3][1].rhs[0] = Symbol::Terminal(5);
    assert!(!cfg.is_wf());
    cfg.productions[3][1].rhs[0] = Symbol::Terminal(4);
    assert!(cfg.is_wf());
    // a nonterminal that the grammar lacks
    cfg.productions[2][1].rhs[0] = Symbol::Nonterminal(4);
    assert!(!cfg.is_wf());
    cfg.productions[2][1].rhs[0] = Symbol::Nonterminal(3);
    // a production under the wrong left-hand side
    cfg.productions[2][1].nonterminal = 1;
    assert!(!cfg.is_wf());
    cfg.productions[2][1].nonterminal = 2;
    // a right-hand side without symbols
    cfg.productions[1][1].rhs.clear();
    assert!(!cfg.is_wf());
    cfg.productions[1][1].rhs.push(Symbol::Empty());
    assert!(cfg.is_wf());
    // the production of the added start symbol
    cfg.productions[0][0].rhs[0] = Symbol::Nonterminal(2);
    assert!(!cfg.is_wf());
    cfg.productions[0][0].rhs[0] = Symbol::Nonterminal(1);
    cfg.productions[0][0].rhs.push(Symbol::EOF());
    assert!(!cfg.is_wf());
    cfg.productions[0][0].rhs.pop();
    assert!(cfg.is_wf());
    // a nonterminal without productions, and one without a name
    cfg.productions.push(Vec::new());
    assert!(!cfg.is_wf());
    cfg.productions.pop();
    cfg.nonterminal_symbols.pop();
    assert!(!cfg.is_wf());
}

#[test]
fn converged_sets_hold_no_nonterminal() {
    let gstr = get_gstr();
    let cfg = get_cfg(&gstr);
    let firsts = cfg.generate_firsts();
    assert!(!grammar_first::set_has_nonterm(&firsts));
    assert!(!grammar_first::set_has_nonterm(&cfg.generate_follows(&firsts)));
    let mut sets = vec![SymbolSet::new(), SymbolSet::new()];
    sets[0].insert(Symbol::Terminal(0));
    sets[1].insert(Symbol::Empty());
    assert!(!grammar_first::set_has_nonterm(&sets));
    sets[1].insert(Symbol::Nonterminal(0));
    assert!(grammar_first::set_has_nonterm(&sets));
}

#[test]
fn symbol_names() {
    let gstr = get_gstr();
    let cfg = get_cfg(&gstr);
    assert_eq!(cfg.symbol_str(&Symbol::Nonterminal(0)), "S'");
    assert_eq!(cfg.symbol_str(&Symbol::Nonterminal(1)), "E");
    assert_eq!(cfg.symbol_str(&Symbol::Nonterminal(3)), "F");
    assert_eq!(cfg.symbol_str(&Symbol::Terminal(0)), "+");
    assert_eq!(cfg.symbol_str(&Symbol::Terminal(3)), ")");
    assert_eq!(cfg.symbol_str(&Symbol::Empty()), "<empty>");
    assert_eq!(cfg.symbol_str(&Symbol::EOF()), "<eof>");
}

#[test]
fn production_offsets_number_productions_through() {
    let gstr = get_gstr();
    let cfg = get_cfg(&gstr);
    assert_eq!(cfg.production_offsets(), vec![0, 1, 3, 5]);
}

#[test]
fn symbol_set_keeps_each_member_once() {
    let mut set = SymbolSet::new();
    assert!(set.insert(Symbol::Terminal(1)));
    assert!(!set.insert(Symbol::Terminal(1)));
    assert!(set.insert(Symbol::EOF()));
    assert_eq!(2, set.len());
    assert_eq!(set.get(0), Symbol::Terminal(1));
    let mut other = SymbolSet::new();
    other.insert(Symbol::Empty());
    other.insert(Symbol::Terminal(2));
    other.insert(Symbol::EOF());
    let (found, grew) = set.insert_all_except(&other, Symbol::Empty());
    assert!(found);
    assert!(grew);
    assert_eq!(3, set.len());
    assert!(!set.contains(&Symbol::Empty()));
    let (found, grew) = set.insert_all_except(&other, Symbol::Terminal(7));
    assert!(!found);
    assert!(grew);
    assert!(set.contains(&Symbol::Empty()));
}

#[test]
fn add_first_of_string_adds_to_what_is_there() {
    let gstr: Vec<String> = vec!["S -> B .c", "B -> .a", "B -> .b", "B -> <empty>"]
        .iter()
        .map(|&x| String::from(x))
        .collect();
    let cfg = CFG::from_strings(&gstr).unwrap();
    let firsts = cfg.generate_firsts();
    let (c, a, b) = (Symbol::Terminal(0), Symbol::Terminal(1), Symbol::Terminal(2));
    let big_b = Symbol::Nonterminal(2);
    let mut dest = SymbolSet::new();
    dest.insert(Symbol::EOF());
    // FIRST(B B) = {a, b, <empty>}
    grammar_first::add_first_of_string(&[big_b, big_b], &firsts, &mut dest);
    assert_eq!(4, dest.len());
    assert!(dest.contains(&Symbol::EOF()));
    assert!(dest.contains(&a) && dest.contains(&b) && dest.contains(&Symbol::Empty()));
    // FIRST(B c B) = {a, b, c}
    let mut dest = SymbolSet::new();
    grammar_first::add_first_of_string(&[big_b, c, big_b], &firsts, &mut dest);
    assert_eq!(3, dest.len());
    assert!(dest.contains(&a) && dest.contains(&b) && dest.contains(&c));
    // FIRST of the empty string is the empty marker
    let mut dest = SymbolSet::new();
    grammar_first::add_first_of_string(&[], &firsts, &mut dest);
    assert_eq!(1, dest.len());
    assert!(dest.contains(&Symbol::Empty()));
}

#[test]
fn add_follow_nonterminal_adds_what_one_occurrence_gives() {
    // S -> A B .c ; A -> .a ; B -> .b | <empty>
    let gstr: Vec<String> = vec!["S -> A B .c", "A -> .a", "B -> .b", "B -> <empty>", "A -> A B"]
        .iter()
        .map(|&x| String::from(x))
        .collect();
    let cfg = CFG::from_strings(&gstr).unwrap();
    let firsts = cfg.generate_firsts();
    let (c, b) = (Symbol::Terminal(0), Symbol::Terminal(2));
    assert_eq!(cfg.symbol_str(&b), "b");
    let empty_sets = || {
        let mut sets = Vec::new();
        for _ in 0..4 {
            sets.push(SymbolSet::new());
        }
        sets
    };
    // A in S -> A B c is followed by FIRST(B c) = {b, c}
    let (added, follows) =
        cfg.add_follow_nonterminal(empty_sets(), &firsts, &cfg.productions[1][0], 2, 0);
    assert!(added);
    assert_eq!(2, follows[2].len());
    assert!(follows[2].contains(&b) && follows[2].contains(&c));
    assert_eq!(0, follows[1].len() + follows[0].len() + follows[3].len());
    // once more, nothing is new
    let (added, follows) = cfg.add_follow_nonterminal(follows, &firsts, &cfg.productions[1][0], 2, 0);
    assert!(!added);
    assert_eq!(2, follows[2].len());
    // B at the end of A -> A B is followed by what follows A
    let (added, follows) = cfg.add_follow_nonterminal(follows, &firsts, &cfg.productions[2][1], 3, 1);
    assert!(added);
    assert_eq!(2, follows[3].len());
    assert!(follows[3].contains(&b) && follows[3].contains(&c));
    // A in A -> A B is followed by FIRST(B) without the empty marker, and by
    // what follows A, which it has
    let (added, follows) = cfg.add_follow_nonterminal(follows, &firsts, &cfg.productions[2][1], 2, 0);
    assert!(!added);
    assert_eq!(2, follows[2].len());
    assert!(!follows[2].contains(&Symbol::Empty()));
}
