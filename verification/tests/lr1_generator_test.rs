use lr1_tables::grammar::{Symbol, CFG};
use lr1_tables::item::{Item, ItemSet};
use lr1_tables::lr1_generator;
use lr1_tables::lr1_generator::{
    closure_item, generate, generate_dfa, generate_table, get_dfa_transitions, goto,
    itemsets_equal, DFA,
};
use lr1_tables::parse_table::{Table, TableCell, TableErr};

fn strings(lines: &[&str]) -> Vec<String> {
    lines.iter().map(|&x| String::from(x)).collect()
}

fn statement_gstr() -> Vec<String> {
    strings(&["S -> S .; A", "S -> A", "A -> E", "A -> .id .:= E", "E -> E .+ .id", "E -> .id"])
}

fn expression_gstr() -> Vec<String> {
    strings(&["E -> E .+ T", "E -> T", "T -> T .* F", "T -> F", "F -> .( E .)", "F -> .id"])
}

fn item(nonterminal: usize, production: usize, reading: usize, lookahead: Symbol) -> Item {
    Item { reading, nonterminal, production, lookahead }
}

fn start_set() -> ItemSet {
    let mut set = ItemSet::new();
    set.insert(item(0, 0, 0, Symbol::EOF()));
    set
}

/// Runs the parser that the table describes on a list of terminals.
fn accepts(cfg: &CFG, table: &Table, input: &[usize]) -> bool {
    let mut lhs_of = Vec::new();
    let mut len_of = Vec::new();
    for (a, prods) in cfg.productions.iter().enumerate() {
        for p in prods.iter() {
            lhs_of.push(a);
            len_of.push(p.rhs.iter().filter(|s| **s != Symbol::Empty()).count());
        }
    }
    let mut stack = vec![0usize];
    let mut pos = 0;
    for _ in 0..10_000 {
        let token = if pos < input.len() { Symbol::Terminal(input[pos]) } else { Symbol::EOF() };
        match table.action(*stack.last().unwrap(), &token) {
            Some(TableCell::Shift(t)) => {
                stack.push(t);
                pos += 1;
            }
            Some(TableCell::Reduce(p)) => {
                for _ in 0..len_of[p] {
                    stack.pop();
                }
                match table.goto(*stack.last().unwrap(), lhs_of[p]) {
                    Some(t) => stack.push(t),
                    None => return false,
                }
            }
            Some(TableCell::Accept()) => return true,
            _ => return false,
        }
    }
    false
}

#[test]
fn closure() {
    /*
    S' -> S <eof> , <eof>
    S -> A , .;
    A -> E , .;
    E -> .id , <eof>
    A -> .id .:= E , .;
    S -> A , <eof>
    E -> E .+ .id , .;
    S -> S .; A , <eof>
    A -> .id .:= E , <eof>
    S -> S .; A , .;
    E -> E .+ .id , <eof>
    E -> .id , .;
    E -> .id , .+
    E -> E .+ .id , .+
    A -> E , <eof>
        */
    let gstr = statement_gstr();
    let cfg = CFG::from_strings(&gstr).unwrap();
    let firsts = cfg.generate_firsts();
    let semi = Symbol::Terminal(0);
    let plus = Symbol::Terminal(3);
    assert_eq!(cfg.symbol_str(&semi), ";");
    assert_eq!(cfg.symbol_str(&plus), "+");
    let eof = Symbol::EOF();
    let set = lr1_generator::closure(start_set(), &cfg, &firsts);
    let expected = vec![
        item(0, 0, 0, eof),
        item(1, 1, 0, semi),
        item(2, 0, 0, semi),
        item(3, 1, 0, eof),
        item(2, 1, 0, semi),
        item(1, 1, 0, eof),
        item(3, 0, 0, semi),
        item(1, 0, 0, eof),
        item(2, 1, 0, eof),
        item(1, 0, 0, semi),
        item(3, 0, 0, eof),
        item(3, 1, 0, semi),
        item(3, 1, 0, plus),
        item(3, 0, 0, plus),
        item(2, 0, 0, eof),
    ];
    assert_eq!(expected.len(), set.len());
    for it in expected.iter() {
        assert!(set.contains(it));
    }
    // the item that the closure was taken of keeps its place
    assert_eq!(set.get(0), item(0, 0, 0, eof));
}

#[test]
fn closure_item_adds_what_one_item_brings() {
    let gstr = statement_gstr();
    let cfg = CFG::from_strings(&gstr).unwrap();
    let firsts = cfg.generate_firsts();
    let eof = Symbol::EOF();
    let semi = Symbol::Terminal(0);
    let mut dest = ItemSet::new();
    // S' -> . S <eof>, <eof> : the productions of S, lookahead FIRST(<eof> <eof>)
    closure_item(&cfg, &firsts, &item(0, 0, 0, eof), &mut dest);
    assert_eq!(2, dest.len());
    assert!(dest.contains(&item(1, 0, 0, eof)));
    assert!(dest.contains(&item(1, 1, 0, eof)));
    // S -> . S ; A, <eof> : the productions of S, lookahead ;
    closure_item(&cfg, &firsts, &item(1, 0, 0, eof), &mut dest);
    assert_eq!(4, dest.len());
    assert!(dest.contains(&item(1, 0, 0, semi)));
    assert!(dest.contains(&item(1, 1, 0, semi)));
    // the dot before a terminal, or at the end, brings nothing
    closure_item(&cfg, &firsts, &item(1, 0, 1, eof), &mut dest);
    closure_item(&cfg, &firsts, &item(1, 0, 3, eof), &mut dest);
    assert_eq!(4, dest.len());
}

#[test]
fn closure_is_idempotent() {
    let gstr = statement_gstr();
    let cfg = CFG::from_strings(&gstr).unwrap();
    let firsts = cfg.generate_firsts();
    let once = lr1_generator::closure(start_set(), &cfg, &firsts);
    let mut copy = ItemSet::new();
    for i in 0..once.len() {
        copy.insert(once.get(i));
    }
    let twice = lr1_generator::closure(copy, &cfg, &firsts);
    assert!(itemsets_equal(&once, &twice));
    assert_eq!(once.len(), twice.len());
}

#[test]
fn closure_of_empty_production_has_dot_at_the_end() {
    let gstr = strings(&["S -> A .b", "A -> <empty>", "A -> .a"]);
    let cfg = CFG::from_strings(&gstr).unwrap();
    let firsts = cfg.generate_firsts();
    let b = Symbol::Terminal(0);
    let set = lr1_generator::closure(start_set(), &cfg, &firsts);
    // S' -> . S <eof>; S -> . A b; A -> <empty> . ; A -> . a
    assert_eq!(4, set.len());
    assert!(set.contains(&item(1, 0, 0, Symbol::EOF())));
    assert!(set.contains(&item(2, 0, 1, b)));
    assert!(set.contains(&item(2, 1, 0, b)));
}

#[test]
fn goto_is_deterministic() {
    let gstr = expression_gstr();
    let cfg = CFG::from_strings(&gstr).unwrap();
    let firsts = cfg.generate_firsts();
    let start = lr1_generator::closure(start_set(), &cfg, &firsts);
    for symbol in [Symbol::Nonterminal(1), Symbol::Nonterminal(2), Symbol::Terminal(2), Symbol::Terminal(4)] {
        let one = goto(&cfg, &firsts, &start, symbol);
        let two = goto(&cfg, &firsts, &start, symbol);
        assert!(itemsets_equal(&one, &two));
        assert!(one.len() > 0);
    }
    // nothing has the dot before `+` in the start state
    assert_eq!(0, goto(&cfg, &firsts, &start, Symbol::Terminal(0)).len());
}

#[test]
fn goto_moves_the_dot() {
    let gstr = expression_gstr();
    let cfg = CFG::from_strings(&gstr).unwrap();
    let firsts = cfg.generate_firsts();
    let start = lr1_generator::closure(start_set(), &cfg, &firsts);
    // on `id`: F -> id . with lookaheads <eof>, +, *
    let on_id = goto(&cfg, &firsts, &start, Symbol::Terminal(4));
    assert_eq!(3, on_id.len());
    assert!(on_id.contains(&item(3, 1, 1, Symbol::EOF())));
    assert!(on_id.contains(&item(3, 1, 1, Symbol::Terminal(0))));
    assert!(on_id.contains(&item(3, 1, 1, Symbol::Terminal(1))));
    // on E: S' -> E . <eof>, and E -> E . + T with lookaheads <eof>, +
    let on_e = goto(&cfg, &firsts, &start, Symbol::Nonterminal(1));
    assert_eq!(3, on_e.len());
    assert!(on_e.contains(&item(0, 0, 1, Symbol::EOF())));
    assert!(on_e.contains(&item(1, 0, 1, Symbol::EOF())));
    assert!(on_e.contains(&item(1, 0, 1, Symbol::Terminal(0))));
}

#[test]
fn itemsets_equal_ignores_order() {
    let mut a = ItemSet::new();
    let mut b = ItemSet::new();
    a.insert(item(1, 0, 0, Symbol::EOF()));
    a.insert(item(1, 1, 0, Symbol::EOF()));
    b.insert(item(1, 1, 0, Symbol::EOF()));
    assert!(!itemsets_equal(&a, &b));
    b.insert(item(1, 0, 0, Symbol::EOF()));
    assert!(itemsets_equal(&a, &b));
    b.insert(item(1, 0, 0, Symbol::EOF()));
    assert!(itemsets_equal(&a, &b));
    let mut c = ItemSet::new();
    c.insert(item(1, 0, 0, Symbol::EOF()));
    c.insert(item(1, 1, 0, Symbol::Terminal(0)));
    assert!(!itemsets_equal(&a, &c));
}

fn check_automaton(dfa: &DFA, cfg: &CFG, firsts: &Vec<lr1_tables::symbol_set::SymbolSet>) {
    let n = dfa.states.len();
    // every state carries its number, and no two states hold the same items
    for s in 0..n {
        assert_eq!(dfa.states[s].id, s);
        for t in (s + 1)..n {
            assert!(!itemsets_equal(&dfa.states[s].itemset, &dfa.states[t].itemset));
        }
    }
    // every state is reached from state 0
    let mut seen = vec![false; n];
    let mut work = vec![0usize];
    seen[0] = true;
    while let Some(s) = work.pop() {
        let tr = &dfa.states[s].transitions;
        for k in 0..tr.len() {
            let t = tr.value_at(k);
            if !seen[t] {
                seen[t] = true;
                work.push(t);
            }
        }
    }
    assert!(seen.iter().all(|b| *b));
    // every transition leads where goto says, and none is missing
    for s in 0..n {
        let adj = get_dfa_transitions(&dfa.states[s], cfg, firsts);
        assert_eq!(adj.len(), dfa.states[s].transitions.len());
        for (symbol, set) in adj.iter() {
            let t = dfa.states[s].transitions.get(symbol).unwrap();
            assert!(itemsets_equal(set, &dfa.states[t].itemset));
        }
    }
}

#[test]
fn automaton_of_expression_grammar() {
    let gstr = expression_gstr();
    let cfg = CFG::from_strings(&gstr).unwrap();
    let firsts = cfg.generate_firsts();
    let dfa = generate_dfa(&cfg, &firsts);
    // the canonical LR(1) collection of this grammar, and the state that
    // follows the end marker
    assert_eq!(23, dfa.states.len());
    let start = lr1_generator::closure(start_set(), &cfg, &firsts);
    assert!(itemsets_equal(&start, &dfa.states[0].itemset));
    check_automaton(&dfa, &cfg, &firsts);
}

#[test]
fn automaton_of_statement_grammar() {
    let gstr = statement_gstr();
    let cfg = CFG::from_strings(&gstr).unwrap();
    let firsts = cfg.generate_firsts();
    let dfa = generate_dfa(&cfg, &firsts);
    check_automaton(&dfa, &cfg, &firsts);
}

#[test]
fn expression_grammar_has_a_table() {
    let gstr = expression_gstr();
    let cfg = CFG::from_strings(&gstr).unwrap();
    let table = match generate(&cfg) {
        Ok(table) => table,
        Err(e) => panic!("conflict: {:?}", e),
    };
    assert_eq!(23, table.rows.len());
    // + * ( ) id
    let (plus, star, open, close, id) = (0, 1, 2, 3, 4);
    assert!(accepts(&cfg, &table, &[id]));
    assert!(accepts(&cfg, &table, &[id, plus, id, star, id]));
    assert!(accepts(&cfg, &table, &[open, id, plus, id, close, star, id]));
    assert!(accepts(&cfg, &table, &[open, open, id, close, close]));
    assert!(!accepts(&cfg, &table, &[]));
    assert!(!accepts(&cfg, &table, &[id, plus]));
    assert!(!accepts(&cfg, &table, &[id, id]));
    assert!(!accepts(&cfg, &table, &[open, id]));
    assert!(!accepts(&cfg, &table, &[id, close]));
    assert!(!accepts(&cfg, &table, &[plus, id]));
}

#[test]
fn table_cells_of_the_start_state() {
    let gstr = expression_gstr();
    let cfg = CFG::from_strings(&gstr).unwrap();
    let table = generate(&cfg).unwrap();
    // the start state shifts `(` and `id` and goes on E, T and F
    assert!(matches!(table.action(0, &Symbol::Terminal(2)), Some(TableCell::Shift(_))));
    assert!(matches!(table.action(0, &Symbol::Terminal(4)), Some(TableCell::Shift(_))));
    assert_eq!(table.action(0, &Symbol::Terminal(0)), None);
    assert_eq!(table.action(0, &Symbol::EOF()), None);
    assert!(table.goto(0, 1).is_some());
    assert!(table.goto(0, 2).is_some());
    assert!(table.goto(0, 3).is_some());
    assert_eq!(table.goto(0, 0), None);
    // a nonterminal is no token, and a state that is not there has no row
    assert_eq!(table.action(0, &Symbol::Nonterminal(1)), None);
    assert_eq!(table.action(1000, &Symbol::Terminal(4)), None);
    assert_eq!(table.goto(1000, 1), None);
    // after E, the end marker accepts
    let after_e = table.goto(0, 1).unwrap();
    assert_eq!(table.action(after_e, &Symbol::EOF()), Some(TableCell::Accept()));
    // after `id`, reduce by F -> id, the production with id 6
    match table.action(0, &Symbol::Terminal(4)) {
        Some(TableCell::Shift(t)) => {
            assert_eq!(table.action(t, &Symbol::EOF()), Some(TableCell::Reduce(6)));
            assert_eq!(table.action(t, &Symbol::Terminal(0)), Some(TableCell::Reduce(6)));
            assert_eq!(table.action(t, &Symbol::Terminal(1)), Some(TableCell::Reduce(6)));
            assert_eq!(table.action(t, &Symbol::Terminal(4)), None);
        }
        other => panic!("expected a shift, got {:?}", other),
    }
}

/// The cells that the items and transitions of a state call for.
fn wanted_cells(cfg: &CFG, dfa: &DFA, s: usize) -> Vec<(Symbol, TableCell)> {
    let offsets = cfg.production_offsets();
    let state = &dfa.states[s];
    let mut wanted = Vec::new();
    for i in 0..state.itemset.len() {
        let it = state.itemset.get(i);
        let len = cfg.productions[it.nonterminal][it.production].rhs.len();
        if it == item(0, 0, 1, Symbol::EOF()) {
            wanted.push((Symbol::EOF(), TableCell::Accept()));
        } else if it.reading == len && it.nonterminal != 0 {
            wanted.push((it.lookahead, TableCell::Reduce(offsets[it.nonterminal] + it.production)));
        }
    }
    for k in 0..state.transitions.len() {
        let x = state.transitions.key_at(k);
        let t = state.transitions.value_at(k);
        match x {
            Symbol::Terminal(_) => wanted.push((x, TableCell::Shift(t))),
            Symbol::Nonterminal(_) => wanted.push((x, TableCell::Goto(t))),
            _ => {}
        }
    }
    wanted
}

#[test]
fn table_holds_every_cell_that_a_state_calls_for_and_no_other() {
    for gstr in [expression_gstr(), statement_gstr(), strings(&["S -> A .b", "A -> <empty>", "A -> .a"])] {
        let cfg = CFG::from_strings(&gstr).unwrap();
        let firsts = cfg.generate_firsts();
        let dfa = generate_dfa(&cfg, &firsts);
        let table = generate_table(&dfa, &cfg).unwrap();
        assert_eq!(table.rows.len(), dfa.states.len());
        for s in 0..dfa.states.len() {
            let wanted = wanted_cells(&cfg, &dfa, s);
            let cells = &table.rows[s].cells;
            for (symbol, cell) in wanted.iter() {
                assert_eq!(cells.get(symbol), Some(*cell));
            }
            for k in 0..cells.len() {
                assert!(wanted.contains(&(cells.key_at(k), cells.value_at(k))));
            }
            // one cell for each symbol
            for k in 0..cells.len() {
                for l in (k + 1)..cells.len() {
                    assert!(cells.key_at(k) != cells.key_at(l));
                }
            }
        }
    }
}

#[test]
fn statement_grammar_has_a_table() {
    let gstr = statement_gstr();
    let cfg = CFG::from_strings(&gstr).unwrap();
    let table = generate(&cfg).unwrap();
    // ; id := +
    let (semi, id, assign, plus) = (0, 1, 2, 3);
    assert!(accepts(&cfg, &table, &[id]));
    assert!(accepts(&cfg, &table, &[id, assign, id, plus, id]));
    assert!(accepts(&cfg, &table, &[id, semi, id, assign, id]));
    assert!(!accepts(&cfg, &table, &[id, assign]));
    assert!(!accepts(&cfg, &table, &[semi]));
}

#[test]
fn grammar_with_empty_productions_has_a_table() {
    let gstr = strings(&["S -> A .b", "A -> <empty>", "A -> .a"]);
    let cfg = CFG::from_strings(&gstr).unwrap();
    let table = generate(&cfg).unwrap();
    let (b, a) = (0, 1);
    assert!(accepts(&cfg, &table, &[b]));
    assert!(accepts(&cfg, &table, &[a, b]));
    assert!(!accepts(&cfg, &table, &[a]));
    assert!(!accepts(&cfg, &table, &[a, a, b]));
    assert!(!accepts(&cfg, &table, &[]));
}

#[test]
fn list_of_two_lists_is_ambiguous() {
    // a run of d can be split between the two C in more than one way
    let gstr = strings(&["S -> C C", "C -> .d C", "C -> <empty>"]);
    let cfg = CFG::from_strings(&gstr).unwrap();
    // in the start state, on d: reduce by C -> <empty> (production 3) or shift
    assert_eq!(
        generate(&cfg).err(),
        Some(TableErr::Conflict {
            state: 0,
            symbol: Symbol::Terminal(0),
            existing: TableCell::Reduce(3),
            incoming: TableCell::Shift(1),
        })
    );
    // with a single list there is a table
    let gstr = strings(&["S -> C", "C -> .d C", "C -> <empty>"]);
    let cfg = CFG::from_strings(&gstr).unwrap();
    let table = generate(&cfg).unwrap();
    assert!(accepts(&cfg, &table, &[]));
    assert!(accepts(&cfg, &table, &[0]));
    assert!(accepts(&cfg, &table, &[0, 0, 0]));
}

#[test]
fn dangling_else_is_a_shift_reduce_conflict() {
    let gstr = strings(&[
        "S -> .if E .then S",
        "S -> .if E .then S .else S",
        "S -> .other",
        "E -> .e",
    ]);
    let cfg = CFG::from_strings(&gstr).unwrap();
    let else_token = Symbol::Terminal(2);
    assert_eq!(cfg.symbol_str(&else_token), "else");
    match generate(&cfg) {
        Ok(_) => panic!("the grammar is ambiguous"),
        Err(TableErr::Conflict { state, symbol, existing, incoming }) => {
            assert_eq!(symbol, else_token);
            // reduce by S -> if E then S (production 1) or shift `else`
            assert_eq!(existing, TableCell::Reduce(1));
            assert!(matches!(incoming, TableCell::Shift(_)));
            // the state holds S -> if E then S . with lookahead else
            let firsts = cfg.generate_firsts();
            let dfa = generate_dfa(&cfg, &firsts);
            assert!(state < dfa.states.len());
            assert!(dfa.states[state].itemset.contains(&item(1, 0, 4, else_token)));
            assert!(dfa.states[state].itemset.contains(&item(1, 1, 4, else_token)));
            // no state before it has a conflict
            let (rest, _) = dfa.states.split_at(state);
            let offsets = cfg.production_offsets();
            for s in rest.iter() {
                assert!(lr1_tables::lr1_generator::generate_table_row(s, &cfg, &offsets).is_ok());
            }
            assert!(generate_table(&dfa, &cfg).is_err());
        }
    }
}

#[test]
fn reduce_reduce_conflict() {
    let gstr = strings(&["S -> A", "S -> B", "A -> .x", "B -> .x"]);
    let cfg = CFG::from_strings(&gstr).unwrap();
    match generate(&cfg) {
        Ok(_) => panic!("the grammar is ambiguous"),
        Err(TableErr::Conflict { state: _, symbol, existing, incoming }) => {
            assert_eq!(symbol, Symbol::EOF());
            // A -> x is production 3, B -> x is production 4
            assert!(
                (existing, incoming) == (TableCell::Reduce(3), TableCell::Reduce(4))
                    || (existing, incoming) == (TableCell::Reduce(4), TableCell::Reduce(3))
            );
        }
    }
}

#[test]
fn table_row_of_the_start_state() {
    let gstr = expression_gstr();
    let cfg = CFG::from_strings(&gstr).unwrap();
    let firsts = cfg.generate_firsts();
    let dfa = generate_dfa(&cfg, &firsts);
    let offsets = cfg.production_offsets();
    let row = lr1_generator::generate_table_row(&dfa.states[0], &cfg, &offsets).unwrap();
    // shifts on ( and id, gotos on E, T and F
    assert_eq!(5, row.cells.len());
    let tr = &dfa.states[0].transitions;
    for (symbol, shift) in [
        (Symbol::Terminal(2), true),
        (Symbol::Terminal(4), true),
        (Symbol::Nonterminal(1), false),
        (Symbol::Nonterminal(2), false),
        (Symbol::Nonterminal(3), false),
    ] {
        let t = tr.get(&symbol).unwrap();
        let want = if shift { TableCell::Shift(t) } else { TableCell::Goto(t) };
        assert_eq!(row.cells.get(&symbol), Some(want));
    }
    assert_eq!(row.cells.get(&Symbol::EOF()), None);
}

#[test]
fn transitions_of_the_start_state() {
    let gstr = expression_gstr();
    let cfg = CFG::from_strings(&gstr).unwrap();
    let firsts = cfg.generate_firsts();
    let dfa = generate_dfa(&cfg, &firsts);
    let adj = get_dfa_transitions(&dfa.states[0], &cfg, &firsts);
    let mut symbols: Vec<Symbol> = adj.iter().map(|(s, _)| *s).collect();
    symbols.sort_by_key(|s| match s {
        Symbol::Terminal(t) => 10 + *t,
        Symbol::Nonterminal(a) => *a,
        _ => 100,
    });
    assert_eq!(
        symbols,
        vec![
            Symbol::Nonterminal(1),
            Symbol::Nonterminal(2),
            Symbol::Nonterminal(3),
            Symbol::Terminal(2),
            Symbol::Terminal(4)
        ]
    );
    for (symbol, set) in adj.iter() {
        assert!(itemsets_equal(set, &goto(&cfg, &firsts, &dfa.states[0].itemset, *symbol)));
    }
}
