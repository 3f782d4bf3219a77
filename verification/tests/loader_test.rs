use lr1_tables::grammar::{Symbol, CFG};
use lr1_tables::loader::LoadError;

fn lines(text: &[&str]) -> Vec<String> {
    text.iter().map(|&x| String::from(x)).collect()
}

#[test]
fn loads_the_expression_grammar() {
    let text = lines(&["E -> E .+ T", "E -> T", "T -> T .* F", "T -> F", "F -> .( E .)", "F -> .id"]);
    let cfg = CFG::from_strings(&text).unwrap();
    assert_eq!(cfg.nonterminal_symbols, vec!["S'", "E", "T", "F"]);
    assert_eq!(cfg.terminal_symbols, vec!["+", "*", "(", ")", "id"]);
    assert_eq!(cfg.productions.len(), 4);
    // S' -> E <eof>
    assert_eq!(cfg.productions[0].len(), 1);
    assert_eq!(cfg.productions[0][0].nonterminal, 0);
    assert_eq!(cfg.productions[0][0].rhs, vec![Symbol::Nonterminal(1), Symbol::EOF()]);
    // E -> E + T | T
    assert_eq!(cfg.productions[1].len(), 2);
    assert_eq!(
        cfg.productions[1][0].rhs,
        vec![Symbol::Nonterminal(1), Symbol::Terminal(0), Symbol::Nonterminal(2)]
    );
    assert_eq!(cfg.productions[1][1].rhs, vec![Symbol::Nonterminal(2)]);
    assert_eq!(cfg.productions[1][1].nonterminal, 1);
    // F -> ( E ) | id
    assert_eq!(
        cfg.productions[3][0].rhs,
        vec![Symbol::Terminal(2), Symbol::Nonterminal(1), Symbol::Terminal(3)]
    );
    assert_eq!(cfg.productions[3][1].rhs, vec![Symbol::Terminal(4)]);
}

#[test]
fn nonterminals_are_numbered_as_they_first_head_a_line() {
    // B is named before it heads a line; A heads a line first
    let text = lines(&["S -> B A", "A -> .a", "B -> .b", "A -> B"]);
    let cfg = CFG::from_strings(&text).unwrap();
    assert_eq!(cfg.nonterminal_symbols, vec!["S'", "S", "A", "B"]);
    assert_eq!(cfg.productions[1][0].rhs, vec![Symbol::Nonterminal(3), Symbol::Nonterminal(2)]);
    assert_eq!(cfg.productions[2].len(), 2);
    assert_eq!(cfg.productions[2][1].rhs, vec![Symbol::Nonterminal(3)]);
    assert_eq!(cfg.productions[3].len(), 1);
}

#[test]
fn terminals_are_numbered_as_they_first_occur() {
    let text = lines(&["S -> .b .a .b", "S -> .a .c .c"]);
    let cfg = CFG::from_strings(&text).unwrap();
    assert_eq!(cfg.terminal_symbols, vec!["b", "a", "c"]);
    assert_eq!(
        cfg.productions[1][0].rhs,
        vec![Symbol::Terminal(0), Symbol::Terminal(1), Symbol::Terminal(0)]
    );
    assert_eq!(
        cfg.productions[1][1].rhs,
        vec![Symbol::Terminal(1), Symbol::Terminal(2), Symbol::Terminal(2)]
    );
}

#[test]
fn markers_and_empty_right_hand_sides() {
    let text = lines(&["S -> A <eof>", "A -> <empty>", "A ->", "A -> <x> .<eof>", "<x> -> .y"]);
    let cfg = CFG::from_strings(&text).unwrap();
    assert_eq!(cfg.nonterminal_symbols, vec!["S'", "S", "A", "<x>"]);
    assert_eq!(cfg.terminal_symbols, vec!["<eof>", "y"]);
    assert_eq!(cfg.productions[1][0].rhs, vec![Symbol::Nonterminal(2), Symbol::EOF()]);
    assert_eq!(cfg.productions[2][0].rhs, vec![Symbol::Empty()]);
    assert_eq!(cfg.productions[2][1].rhs, vec![Symbol::Empty()]);
    assert_eq!(cfg.productions[2][2].rhs, vec![Symbol::Nonterminal(3), Symbol::Terminal(0)]);
}

#[test]
fn tokens_are_separated_by_any_white_space() {
    let text = lines(&["  S\t->\u{a0}.a \u{2003} S\u{3000}", "S\r->\n.\u{e9}t\u{e9}  "]);
    let cfg = CFG::from_strings(&text).unwrap();
    assert_eq!(cfg.nonterminal_symbols, vec!["S'", "S"]);
    assert_eq!(cfg.terminal_symbols, vec!["a", "\u{e9}t\u{e9}"]);
    assert_eq!(cfg.productions[1][0].rhs, vec![Symbol::Terminal(0), Symbol::Nonterminal(1)]);
    assert_eq!(cfg.productions[1][1].rhs, vec![Symbol::Terminal(1)]);
}

#[test]
fn the_name_of_the_added_start_symbol_may_be_used() {
    let text = lines(&["S' -> .a", "S' -> S' .b"]);
    let cfg = CFG::from_strings(&text).unwrap();
    assert_eq!(cfg.nonterminal_symbols, vec!["S'", "S'"]);
    assert_eq!(cfg.productions[0][0].rhs, vec![Symbol::Nonterminal(1), Symbol::EOF()]);
    assert_eq!(cfg.productions[1][1].rhs, vec![Symbol::Nonterminal(1), Symbol::Terminal(1)]);
}

#[test]
fn no_lines() {
    assert_eq!(CFG::from_strings(&[]).err(), Some(LoadError::NoProductions));
}

#[test]
fn empty_line() {
    let text = lines(&["S -> .a", "   ", "-> x"]);
    assert_eq!(CFG::from_strings(&text).err(), Some(LoadError::NoLhs { line: 1 }));
    let text = lines(&[""]);
    assert_eq!(CFG::from_strings(&text).err(), Some(LoadError::NoLhs { line: 0 }));
}

#[test]
fn missing_arrow() {
    let text = lines(&["S -> .a", "S .a", "S"]);
    assert_eq!(CFG::from_strings(&text).err(), Some(LoadError::ExpectedArrow { line: 1 }));
    let text = lines(&["S"]);
    assert_eq!(CFG::from_strings(&text).err(), Some(LoadError::ExpectedArrow { line: 0 }));
    let text = lines(&["S ->x .a"]);
    assert_eq!(CFG::from_strings(&text).err(), Some(LoadError::ExpectedArrow { line: 0 }));
    // the separator alone is read as a left-hand side
    let text = lines(&["-> .a"]);
    assert_eq!(CFG::from_strings(&text).err(), Some(LoadError::ExpectedArrow { line: 0 }));
}

#[test]
fn nonterminal_without_production() {
    let text = lines(&["S -> A", "A -> .a B", "A -> C"]);
    assert_eq!(CFG::from_strings(&text).err(), Some(LoadError::UndefinedNonterminal { line: 1 }));
    // a malformed line is reported before a name that is not defined
    let text = lines(&["S -> A", "A"]);
    assert_eq!(CFG::from_strings(&text).err(), Some(LoadError::ExpectedArrow { line: 1 }));
}
