//! Reading a grammar from text: one production on each line, written as
//! `LHS -> SYM SYM ...`, the symbols separated by white space.

use vstd::prelude::*;
use vstd::string::StrSliceExecFns;
use crate::grammar::{CFGProduction, Grammar, Symbol, CFG};

verus! {

/// White space, as Unicode defines it.
pub open spec fn is_space(c: char) -> bool {
    let n = c as u32;
    ||| 0x09 <= n <= 0x0d
    ||| n == 0x20
    ||| n == 0x85
    ||| n == 0xa0
    ||| n == 0x1680
    ||| 0x2000 <= n <= 0x200a
    ||| n == 0x2028
    ||| n == 0x2029
    ||| n == 0x202f
    ||| n == 0x205f
    ||| n == 0x3000
}

/// The number of characters at the front of `s` that are no white space.
pub open spec fn word_len(s: Seq<char>) -> int
    decreases s.len(),
{
    if s.len() == 0 || is_space(s[0]) {
        0
    } else {
        1 + word_len(s.drop_first())
    }
}

/// The tokens of a line: its maximal runs of characters that are no white
/// space, in order.
pub open spec fn tokens(s: Seq<char>) -> Seq<Seq<char>>
    decreases s.len(),
{
    if s.len() == 0 {
        Seq::empty()
    } else if is_space(s[0]) {
        tokens(s.drop_first())
    } else {
        let n = word_len(s);
        if 0 < n <= s.len() {
            seq![s.take(n)] + tokens(s.skip(n))
        } else {
            Seq::empty()
        }
    }
}

/// A word is within its string, and not empty where the string begins
/// with a character that is no white space.
pub proof fn lemma_word_len(s: Seq<char>)
    ensures
        0 <= word_len(s) <= s.len(),
        s.len() > 0 && !is_space(s[0]) ==> word_len(s) > 0,
        forall|i: int| 0 <= i < word_len(s) ==> !is_space(#[trigger] s[i]),
        word_len(s) < s.len() ==> is_space(s[word_len(s)]),
    decreases s.len(),
{
    if s.len() > 0 && !is_space(s[0]) {
        lemma_word_len(s.drop_first());
        assert forall|i: int| 0 <= i < word_len(s) implies !is_space(#[trigger] s[i]) by {
            if i > 0 {
                assert(s[i] == s.drop_first()[i - 1]);
            }
        }
        if word_len(s) < s.len() {
            assert(s[word_len(s)] == s.drop_first()[word_len(s) - 1]);
        }
    }
}

/// No token is empty.
pub proof fn lemma_tokens_nonempty(s: Seq<char>)
    ensures
        forall|j: int| 0 <= j < tokens(s).len() ==> (#[trigger] tokens(s)[j]).len() > 0,
    decreases s.len(),
{
    if s.len() == 0 {
        assert(tokens(s).len() == 0);
    } else {
        if is_space(s[0]) {
            lemma_tokens_nonempty(s.drop_first());
            assert(tokens(s) == tokens(s.drop_first()));
        } else {
            let n = word_len(s);
            lemma_word_len(s);
            lemma_tokens_nonempty(s.skip(n));
            let rest = tokens(s.skip(n));
            assert forall|j: int| 0 <= j < tokens(s).len() implies (#[trigger] tokens(s)[j]).len()
                > 0 by {
                if j > 0 {
                    assert(tokens(s)[j] == rest[j - 1]);
                } else {
                    assert(tokens(s)[0] == s.take(n));
                }
            }
        }
    }
}

fn is_whitespace(c: char) -> (r: bool)
    ensures
        r == is_space(c),
{
    let n = c as u32;
    (0x09 <= n && n <= 0x0d) || n == 0x20 || n == 0x85 || n == 0xa0 || n == 0x1680 || (0x2000 <= n
        && n <= 0x200a) || n == 0x2028 || n == 0x2029 || n == 0x202f || n == 0x205f || n == 0x3000
}

/// The characters of a string.
fn to_chars(s: &str) -> (chars: Vec<char>)
    ensures
        chars@ == s@,
{
    let n = s.unicode_len();
    let mut chars: Vec<char> = Vec::new();
    let mut i: usize = 0;
    while i < n
        invariant
            i <= n,
            n == s@.len(),
            chars@ == s@.take(i as int),
        decreases n - i,
    {
        chars.push(s.get_char(i));
        assert(chars@ =~= s@.take(i + 1));
        i += 1;
    }
    assert(s@.take(n as int) =~= s@);
    chars
}

/// The text between two positions of a line.
pub open spec fn span_text(line: Seq<char>, span: (usize, usize)) -> Seq<char> {
    line.subrange(span.0 as int, span.1 as int)
}

/// The texts of a sequence of spans of a line.
pub open spec fn span_texts(line: Seq<char>, spans: Seq<(usize, usize)>) -> Seq<Seq<char>> {
    Seq::new(spans.len(), |j: int| span_text(line, spans[j]))
}

/// Every span lies within a line of length `len`.
pub open spec fn spans_within(spans: Seq<(usize, usize)>, len: nat) -> bool {
    forall|j: int| 0 <= j < spans.len() ==> (#[trigger] spans[j]).0 <= spans[j].1 <= len
}

/// Where the tokens of a line begin and end.
fn tokenize(line: &Vec<char>) -> (spans: Vec<(usize, usize)>)
    ensures
        spans_within(spans@, line@.len()),
        span_texts(line@, spans@) == tokens(line@),
{
    let n = line.len();
    let mut spans: Vec<(usize, usize)> = Vec::new();
    let mut i: usize = 0;
    assert(line@.skip(0) =~= line@);
    assert(span_texts(line@, spans@) + tokens(line@.skip(0)) =~= tokens(line@));
    while i < n
        invariant
            i <= n,
            n == line@.len(),
            spans_within(spans@, line@.len()),
            span_texts(line@, spans@) + tokens(line@.skip(i as int)) == tokens(line@),
        decreases n - i,
    {
        let ghost rest = line@.skip(i as int);
        assert(rest[0] == line@[i as int]);
        if is_whitespace(line[i]) {
            assert(rest.drop_first() =~= line@.skip(i + 1));
            i += 1;
        } else {
            let start = i;
            proof {
                lemma_word_len(rest);
            }
            while i < n && !is_whitespace(line[i])
                invariant
                    start <= i <= n,
                    n == line@.len(),
                    rest == line@.skip(start as int),
                    i - start <= word_len(rest),
                    forall|j: int| 0 <= j < word_len(rest) ==> !is_space(#[trigger] rest[j]),
                    word_len(rest) < rest.len() ==> is_space(rest[word_len(rest)]),
                    0 <= word_len(rest) <= rest.len(),
                decreases n - i,
            {
                proof {
                    assert(rest[i - start] == line@[i as int]);
                    if i - start == word_len(rest) {
                        assert(is_space(rest[word_len(rest)]));
                    }
                }
                i += 1;
            }
            proof {
                if i < n {
                    assert(rest[i - start] == line@[i as int]);
                    if i - start < word_len(rest) {
                        assert(!is_space(rest[i - start]));
                    }
                }
                assert(i - start == word_len(rest));
                let before = span_texts(line@, spans@);
                assert(rest.take(word_len(rest)) =~= line@.subrange(start as int, i as int));
                assert(rest.skip(word_len(rest)) =~= line@.skip(i as int));
                assert(span_texts(line@, spans@.push((start, i))) =~= before.push(
                    line@.subrange(start as int, i as int),
                ));
                assert(before.push(line@.subrange(start as int, i as int)) + tokens(line@.skip(i as int))
                    =~= before + (seq![rest.take(word_len(rest))] + tokens(
                    rest.skip(word_len(rest)),
                )));
            }
            spans.push((start, i));
        }
    }
    proof {
        assert(line@.skip(n as int) =~= Seq::<char>::empty());
        assert(span_texts(line@, spans@) + Seq::<Seq<char>>::empty() =~= span_texts(line@, spans@));
    }
    spans
}

/// The elements of `s` in the order in which they first occur, each once.
pub open spec fn first_occurrences(s: Seq<Seq<char>>) -> Seq<Seq<char>>
    decreases s.len(),
{
    if s.len() == 0 {
        Seq::empty()
    } else {
        let r = first_occurrences(s.drop_last());
        if r.contains(s.last()) {
            r
        } else {
            r.push(s.last())
        }
    }
}

/// The first occurrences hold every element, and none twice.
pub proof fn lemma_first_occurrences(s: Seq<Seq<char>>)
    ensures
        first_occurrences(s).no_duplicates(),
        forall|x: Seq<char>| first_occurrences(s).contains(x) <==> s.contains(x),
    decreases s.len(),
{
    if s.len() > 0 {
        let r = first_occurrences(s.drop_last());
        lemma_first_occurrences(s.drop_last());
        assert forall|x: Seq<char>| first_occurrences(s).contains(x) <==> s.contains(x) by {
            if s.contains(x) {
                let i = choose|i: int| 0 <= i < s.len() && s[i] == x;
                if i < s.len() - 1 {
                    assert(s.drop_last()[i] == x);
                    assert(s.drop_last().contains(x));
                    assert(r.contains(x));
                    let j = choose|j: int| 0 <= j < r.len() && r[j] == x;
                    assert(first_occurrences(s)[j] == x);
                } else if r.contains(x) {
                } else {
                    assert(first_occurrences(s)[r.len() as int] == x);
                }
            }
            if first_occurrences(s).contains(x) {
                let j = choose|j: int| 0 <= j < first_occurrences(s).len() && first_occurrences(s)[j] == x;
                if j < r.len() {
                    assert(r[j] == x);
                    assert(r.contains(x));
                    assert(s.drop_last().contains(x));
                    let i = choose|i: int| 0 <= i < s.drop_last().len() && s.drop_last()[i] == x;
                    assert(s[i] == x);
                } else {
                    assert(s[s.len() - 1] == x);
                }
            }
        }
    }
}

/// Where nothing occurs twice, an element's place is its index.
pub proof fn lemma_index_of(s: Seq<Seq<char>>, k: int)
    requires
        s.no_duplicates(),
        0 <= k < s.len(),
    ensures
        s.index_of(s[k]) == k,
{
    let i = s.index_of(s[k]);
    assert(0 <= i < s.len() && s[i] == s[k]);
}

/// The separator between the left-hand side and the right-hand side.
pub open spec fn arrow() -> Seq<char> {
    seq!['-', '>']
}

/// The token for the end marker.
pub open spec fn eof_token() -> Seq<char> {
    seq!['<', 'e', 'o', 'f', '>']
}

/// The token for the empty marker.
pub open spec fn empty_token() -> Seq<char> {
    seq!['<', 'e', 'm', 'p', 't', 'y', '>']
}

/// The name of the added start symbol.
pub open spec fn start_name() -> Seq<char> {
    seq!['S', '\'']
}

/// A token that names a terminal: it begins with a dot.
pub open spec fn is_terminal_token(token: Seq<char>) -> bool {
    token.len() > 0 && token[0] == '.'
}

/// A token that names a nonterminal: neither a marker nor a terminal.
pub open spec fn is_nonterminal_token(token: Seq<char>) -> bool {
    token != eof_token() && token != empty_token() && !is_terminal_token(token)
}

/// A line has a left-hand side and the separator behind it.
pub open spec fn line_ok(line: Seq<Seq<char>>) -> bool {
    line.len() >= 2 && line[1] == arrow()
}

/// The left-hand sides of the lines, line by line.
pub open spec fn heads(text: Seq<Seq<Seq<char>>>) -> Seq<Seq<char>> {
    Seq::new(text.len(), |i: int| text[i][0])
}

/// The names of the nonterminals with a production, numbered from 1 in the
/// order in which they first head a line.
pub open spec fn nonterminal_names(text: Seq<Seq<Seq<char>>>) -> Seq<Seq<char>> {
    first_occurrences(heads(text))
}

/// The terminal tokens among the first `upto` tokens of a line, in order.
pub open spec fn line_terminals(line: Seq<Seq<char>>, upto: int) -> Seq<Seq<char>>
    decreases upto,
{
    if upto <= 2 {
        Seq::empty()
    } else {
        let r = line_terminals(line, upto - 1);
        if is_terminal_token(line[upto - 1]) {
            r.push(line[upto - 1])
        } else {
            r
        }
    }
}

/// The terminal tokens of the right-hand sides of the first `n` lines, in
/// order.
pub open spec fn text_terminals(text: Seq<Seq<Seq<char>>>, n: int) -> Seq<Seq<char>>
    decreases n,
{
    if n <= 0 {
        Seq::empty()
    } else {
        text_terminals(text, n - 1) + line_terminals(text[n - 1], text[n - 1].len() as int)
    }
}

/// The terminal tokens, numbered from 0 in the order in which they first
/// occur.
pub open spec fn terminal_tokens(text: Seq<Seq<Seq<char>>>) -> Seq<Seq<char>> {
    first_occurrences(text_terminals(text, text.len() as int))
}

/// The symbol that a token of a right-hand side stands for, given the names
/// of the nonterminals and the terminal tokens.
pub open spec fn classify(token: Seq<char>, names: Seq<Seq<char>>, terminals: Seq<Seq<char>>) -> Symbol {
    if token == eof_token() {
        Symbol::EOF()
    } else if token == empty_token() {
        Symbol::Empty()
    } else if is_terminal_token(token) {
        Symbol::Terminal(terminals.index_of(token) as usize)
    } else {
        Symbol::Nonterminal((names.index_of(token) + 1) as usize)
    }
}

/// The right-hand side that a line stands for. A line with nothing behind
/// the separator stands for the empty string.
pub open spec fn rhs_symbols(line: Seq<Seq<char>>, names: Seq<Seq<char>>, terminals: Seq<Seq<char>>) -> Seq<
    Symbol,
> {
    if line.len() <= 2 {
        seq![Symbol::Empty()]
    } else {
        Seq::new((line.len() - 2) as nat, |j: int| classify(line[j + 2], names, terminals))
    }
}

/// The right-hand sides of those of the first `n` lines that `name` heads,
/// in order.
pub open spec fn productions_of(
    text: Seq<Seq<Seq<char>>>,
    n: int,
    names: Seq<Seq<char>>,
    terminals: Seq<Seq<char>>,
    name: Seq<char>,
) -> Seq<Seq<Symbol>>
    decreases n,
{
    if n <= 0 {
        Seq::empty()
    } else {
        let r = productions_of(text, n - 1, names, terminals, name);
        if text[n - 1][0] == name {
            r.push(rhs_symbols(text[n - 1], names, terminals))
        } else {
            r
        }
    }
}

/// The grammar that a text stands for: the added start symbol with its
/// production `S' -> S <eof>`, where `S` heads the first line, and behind it
/// the nonterminals with the productions of their lines.
pub open spec fn grammar_of(text: Seq<Seq<Seq<char>>>) -> Grammar {
    let names = nonterminal_names(text);
    let terminals = terminal_tokens(text);
    Grammar {
        rules: Seq::new(
            names.len() + 1,
            |a: int|
                if a == 0 {
                    seq![seq![Symbol::Nonterminal(1), Symbol::EOF()]]
                } else {
                    productions_of(text, text.len() as int, names, terminals, names[a - 1])
                },
        ),
        terminals: terminals.len(),
    }
}

/// A right-hand side of line `i` names a nonterminal that heads no line.
pub open spec fn undefined(text: Seq<Seq<Seq<char>>>, i: int) -> bool {
    exists|j: int|
        2 <= j < text[i].len() && is_nonterminal_token(#[trigger] text[i][j]) && !heads(text).contains(
            text[i][j],
        )
}

/// Why a text is no grammar.
#[derive(PartialEq, Eq, Structural, Copy, Clone, Debug)]
pub enum LoadError {
    /// The text has no line.
    NoProductions,
    /// The line is empty: it has no left-hand side.
    NoLhs { line: usize },
    /// The line lacks the separator `->` behind its left-hand side.
    ExpectedArrow { line: usize },
    /// The line names a nonterminal that has no production.
    UndefinedNonterminal { line: usize },
}

/// The terminal tokens of a line are among those of the text.
pub proof fn lemma_text_terminals_contains(text: Seq<Seq<Seq<char>>>, n: int, i: int, j: int)
    requires
        0 <= i < n <= text.len(),
        2 <= j < text[i].len(),
        is_terminal_token(text[i][j]),
    ensures
        text_terminals(text, n).contains(text[i][j]),
    decreases n,
{
    let last = line_terminals(text[n - 1], text[n - 1].len() as int);
    let before = text_terminals(text, n - 1);
    if i < n - 1 {
        lemma_text_terminals_contains(text, n - 1, i, j);
        let p = choose|p: int| 0 <= p < before.len() && before[p] == text[i][j];
        assert((before + last)[p] == text[i][j]);
    } else {
        lemma_line_terminals_contains(text[i], text[i].len() as int, j);
        let p = choose|p: int| 0 <= p < last.len() && last[p] == text[i][j];
        assert((before + last)[before.len() + p] == text[i][j]);
    }
}

proof fn lemma_line_terminals_contains(line: Seq<Seq<char>>, upto: int, j: int)
    requires
        2 <= j < upto <= line.len(),
        is_terminal_token(line[j]),
    ensures
        line_terminals(line, upto).contains(line[j]),
    decreases upto,
{
    let r = line_terminals(line, upto - 1);
    if j < upto - 1 {
        lemma_line_terminals_contains(line, upto - 1, j);
        let p = choose|p: int| 0 <= p < r.len() && r[p] == line[j];
        assert(line_terminals(line, upto)[p] == line[j]);
    } else {
        assert(line_terminals(line, upto)[r.len() as int] == line[j]);
    }
}

/// A nonterminal that heads one of the first `n` lines has a production
/// among them, and no right-hand side is empty.
pub proof fn lemma_productions_of(
    text: Seq<Seq<Seq<char>>>,
    n: int,
    names: Seq<Seq<char>>,
    terminals: Seq<Seq<char>>,
    name: Seq<char>,
)
    requires
        0 <= n <= text.len(),
    ensures
        (exists|i: int| 0 <= i < n && #[trigger] text[i][0] == name) ==> productions_of(
            text,
            n,
            names,
            terminals,
            name,
        ).len() >= 1,
        productions_of(text, n, names, terminals, name).len() <= n,
        forall|k: int|
            0 <= k < productions_of(text, n, names, terminals, name).len() ==> (
            #[trigger] productions_of(text, n, names, terminals, name)[k]).len() >= 1,
    decreases n,
{
    if n > 0 {
        lemma_productions_of(text, n - 1, names, terminals, name);
        let r = productions_of(text, n - 1, names, terminals, name);
        if exists|i: int| 0 <= i < n && #[trigger] text[i][0] == name {
            let i = choose|i: int| 0 <= i < n && #[trigger] text[i][0] == name;
            if i < n - 1 {
                assert(text[i][0] == name);
            }
        }
        assert forall|k: int|
            0 <= k < productions_of(text, n, names, terminals, name).len() implies (
        #[trigger] productions_of(text, n, names, terminals, name)[k]).len() >= 1 by {
            if k < r.len() {
                assert(productions_of(text, n, names, terminals, name)[k] == r[k]);
            }
        }
    }
}

/// The tokens of each line of a text.
pub open spec fn text_of(strings: Seq<String>) -> Seq<Seq<Seq<char>>> {
    Seq::new(strings.len(), |i: int| tokens(strings[i]@))
}

/// The characters and the token spans of the lines that have been read
/// belong to the strings.
spec fn loaded(strings: Seq<String>, lines: Seq<Vec<char>>, spans: Seq<Vec<(usize, usize)>>) -> bool {
    &&& lines.len() == spans.len()
    &&& lines.len() <= strings.len()
    &&& forall|p: int|
        0 <= p < lines.len() ==> {
            &&& (#[trigger] lines[p])@ == strings[p]@
            &&& spans_within(spans[p]@, lines[p]@.len())
            &&& span_texts(lines[p]@, spans[p]@) == tokens(strings[p]@)
            &&& line_ok(tokens(strings[p]@))
        }
}

/// The text that an entry of a table of names points to: a line and a span
/// of it.
spec fn entry_text(lines: Seq<Vec<char>>, entry: (usize, usize, usize)) -> Seq<char> {
    lines[entry.0 as int]@.subrange(entry.1 as int, entry.2 as int)
}

spec fn entry_texts(lines: Seq<Vec<char>>, table: Seq<(usize, usize, usize)>) -> Seq<Seq<char>> {
    Seq::new(table.len(), |k: int| entry_text(lines, table[k]))
}

spec fn entries_valid(lines: Seq<Vec<char>>, table: Seq<(usize, usize, usize)>) -> bool {
    forall|k: int|
        0 <= k < table.len() ==> (#[trigger] table[k]).0 < lines.len() && table[k].1 <= table[k].2
            <= lines[table[k].0 as int]@.len()
}

/// The views of a sequence of names.
pub open spec fn name_views(names: Seq<&str>) -> Seq<Seq<char>> {
    Seq::new(names.len(), |k: int| names[k]@)
}

/// Whether two spans hold the same text.
fn same_text(a: &Vec<char>, sa: usize, ea: usize, b: &Vec<char>, sb: usize, eb: usize) -> (r: bool)
    requires
        sa <= ea <= a.len(),
        sb <= eb <= b.len(),
    ensures
        r == (a@.subrange(sa as int, ea as int) == b@.subrange(sb as int, eb as int)),
{
    let ghost x = a@.subrange(sa as int, ea as int);
    let ghost y = b@.subrange(sb as int, eb as int);
    if ea - sa != eb - sb {
        assert(x.len() != y.len());
        return false;
    }
    let n = ea - sa;
    let mut i: usize = 0;
    while i < n
        invariant
            i <= n,
            n == ea - sa,
            n == eb - sb,
            sa <= ea <= a.len(),
            sb <= eb <= b.len(),
            x == a@.subrange(sa as int, ea as int),
            y == b@.subrange(sb as int, eb as int),
            forall|j: int| 0 <= j < i ==> x[j] == y[j],
        decreases n - i,
    {
        if a[sa + i] != b[sb + i] {
            assert(x[i as int] != y[i as int]);
            return false;
        }
        i += 1;
    }
    assert(x =~= y);
    true
}

/// The place of a text in a table of names, if it is there.
fn find_text(
    lines: &Vec<Vec<char>>,
    table: &Vec<(usize, usize, usize)>,
    line: usize,
    start: usize,
    end: usize,
) -> (r: Option<usize>)
    requires
        entries_valid(lines@, table@),
        line < lines.len(),
        start <= end <= lines[line as int]@.len(),
    ensures
        match r {
            Some(k) => k < table.len() && entry_texts(lines@, table@)[k as int] == lines[line as int]@.subrange(
                start as int,
                end as int,
            ),
            None => !entry_texts(lines@, table@).contains(
                lines[line as int]@.subrange(start as int, end as int),
            ),
        },
{
    let ghost wanted = lines[line as int]@.subrange(start as int, end as int);
    let mut k: usize = 0;
    while k < table.len()
        invariant
            k <= table.len(),
            entries_valid(lines@, table@),
            line < lines.len(),
            start <= end <= lines[line as int]@.len(),
            wanted == lines[line as int]@.subrange(start as int, end as int),
            forall|q: int| 0 <= q < k ==> entry_texts(lines@, table@)[q] != wanted,
        decreases table.len() - k,
    {
        let entry = table[k];
        if same_text(&lines[entry.0], entry.1, entry.2, &lines[line], start, end) {
            return Some(k);
        }
        k += 1;
    }
    None
}

/// Whether a span holds the separator `->`.
fn is_arrow(line: &Vec<char>, start: usize, end: usize) -> (r: bool)
    requires
        start <= end <= line.len(),
    ensures
        r == (line@.subrange(start as int, end as int) == arrow()),
{
    let ghost x = line@.subrange(start as int, end as int);
    if end - start != 2 {
        assert(x.len() != arrow().len());
        return false;
    }
    let r = line[start] == '-' && line[start + 1] == '>';
    proof {
        assert(x[0] == line@[start as int] && x[1] == line@[start + 1]);
        if r {
            assert(x =~= arrow());
        }
    }
    r
}

/// Whether a span holds the token of the end marker.
fn is_eof_token(line: &Vec<char>, start: usize, end: usize) -> (r: bool)
    requires
        start <= end <= line.len(),
    ensures
        r == (line@.subrange(start as int, end as int) == eof_token()),
{
    let ghost x = line@.subrange(start as int, end as int);
    if end - start != 5 {
        assert(x.len() != eof_token().len());
        return false;
    }
    let r = line[start] == '<' && line[start + 1] == 'e' && line[start + 2] == 'o' && line[start + 3]
        == 'f' && line[start + 4] == '>';
    proof {
        assert(x[0] == line@[start as int] && x[1] == line@[start + 1] && x[2] == line@[start + 2]
            && x[3] == line@[start + 3] && x[4] == line@[start + 4]);
        if r {
            assert(x =~= eof_token());
        }
    }
    r
}

/// Whether a span holds the token of the empty marker.
fn is_empty_token(line: &Vec<char>, start: usize, end: usize) -> (r: bool)
    requires
        start <= end <= line.len(),
    ensures
        r == (line@.subrange(start as int, end as int) == empty_token()),
{
    let ghost x = line@.subrange(start as int, end as int);
    if end - start != 7 {
        assert(x.len() != empty_token().len());
        return false;
    }
    let r = line[start] == '<' && line[start + 1] == 'e' && line[start + 2] == 'm' && line[start + 3]
        == 'p' && line[start + 4] == 't' && line[start + 5] == 'y' && line[start + 6] == '>';
    proof {
        assert(x[0] == line@[start as int] && x[1] == line@[start + 1] && x[2] == line@[start + 2]
            && x[3] == line@[start + 3] && x[4] == line@[start + 4] && x[5] == line@[start + 5]
            && x[6] == line@[start + 6]);
        if r {
            assert(x =~= empty_token());
        }
    }
    r
}

/// Reads the lines: their characters and where their tokens are. Fails at
/// the first line that lacks a left-hand side or the separator.
fn read_lines(strings: &[String]) -> (r: Result<(Vec<Vec<char>>, Vec<Vec<(usize, usize)>>), LoadError>)
    ensures
        match r {
            Ok((lines, spans)) => lines.len() == strings.len() && loaded(strings@, lines@, spans@),
            Err(LoadError::NoLhs { line }) => {
                &&& line < strings.len()
                &&& text_of(strings@)[line as int].len() == 0
                &&& forall|p: int| 0 <= p < line ==> line_ok(#[trigger] text_of(strings@)[p])
            },
            Err(LoadError::ExpectedArrow { line }) => {
                &&& line < strings.len()
                &&& text_of(strings@)[line as int].len() > 0
                &&& !line_ok(text_of(strings@)[line as int])
                &&& forall|p: int| 0 <= p < line ==> line_ok(#[trigger] text_of(strings@)[p])
            },
            Err(_) => false,
        },
{
    let mut lines: Vec<Vec<char>> = Vec::new();
    let mut spans: Vec<Vec<(usize, usize)>> = Vec::new();
    let mut i: usize = 0;
    while i < strings.len()
        invariant
            i <= strings.len(),
            lines.len() == i,
            loaded(strings@, lines@, spans@),
        decreases strings.len() - i,
    {
        let chars = to_chars(strings[i].as_str());
        let found = tokenize(&chars);
        proof {
            assert(text_of(strings@)[i as int] == tokens(strings@[i as int]@));
            assert forall|p: int| 0 <= p < i implies line_ok(#[trigger] text_of(strings@)[p]) by {
                assert(lines@[p]@ == strings@[p]@);
            }
        }
        if found.len() == 0 {
            return Err(LoadError::NoLhs { line: i });
        }
        if found.len() < 2 {
            return Err(LoadError::ExpectedArrow { line: i });
        }
        let second = found[1];
        assert(span_texts(chars@, found@)[1] == span_text(chars@, second));
        if !is_arrow(&chars, second.0, second.1) {
            return Err(LoadError::ExpectedArrow { line: i });
        }
        let ghost old_lines = lines@;
        let ghost old_spans = spans@;
        lines.push(chars);
        spans.push(found);
        proof {
            assert forall|p: int| 0 <= p < lines@.len() implies {
                &&& (#[trigger] lines@[p])@ == strings@[p]@
                &&& spans_within(spans@[p]@, lines@[p]@.len())
                &&& span_texts(lines@[p]@, spans@[p]@) == tokens(strings@[p]@)
                &&& line_ok(tokens(strings@[p]@))
            } by {
                if p < i {
                    assert(lines@[p] == old_lines[p]);
                    assert(spans@[p] == old_spans[p]);
                }
            }
        }
        i += 1;
    }
    Ok((lines, spans))
}

/// The nonterminals that head a line, in the order in which they first do,
/// and their names behind the name of the added start symbol.
fn intern_heads<'a>(
    strings: &'a [String],
    lines: &Vec<Vec<char>>,
    spans: &Vec<Vec<(usize, usize)>>,
) -> (r: (Vec<(usize, usize, usize)>, Vec<&'a str>))
    requires
        lines.len() == strings.len(),
        loaded(strings@, lines@, spans@),
    ensures
        entries_valid(lines@, r.0@),
        entry_texts(lines@, r.0@) == nonterminal_names(text_of(strings@)),
        r.0.len() <= strings.len(),
        name_views(r.1@) == seq![start_name()] + nonterminal_names(text_of(strings@)),
{
    let ghost text = text_of(strings@);
    let mut table: Vec<(usize, usize, usize)> = Vec::new();
    let mut names: Vec<&'a str> = Vec::new();
    names.push("S'");
    proof {
        reveal_strlit("S'");
        assert("S'"@ =~= start_name());
        assert(heads(text).take(0) =~= Seq::<Seq<char>>::empty());
        assert(entry_texts(lines@, table@) =~= first_occurrences(heads(text).take(0)));
        assert(name_views(names@) =~= seq![start_name()] + entry_texts(lines@, table@));
    }
    let mut i: usize = 0;
    while i < lines.len()
        invariant
            i <= lines.len(),
            lines.len() == strings.len(),
            loaded(strings@, lines@, spans@),
            text == text_of(strings@),
            entries_valid(lines@, table@),
            table.len() <= i,
            entry_texts(lines@, table@) == first_occurrences(heads(text).take(i as int)),
            name_views(names@) == seq![start_name()] + entry_texts(lines@, table@),
        decreases lines.len() - i,
    {
        let ghost before = entry_texts(lines@, table@);
        let ghost old_names = name_views(names@);
        proof {
            assert(lines@[i as int]@ == strings@[i as int]@);
            assert(text[i as int] == tokens(strings@[i as int]@));
            assert(heads(text).take(i + 1).drop_last() =~= heads(text).take(i as int));
            assert(heads(text).take(i + 1).last() == text[i as int][0]);
        }
        let span = spans[i][0];
        assert(span_texts(lines@[i as int]@, spans@[i as int]@)[0] == span_text(lines@[i as int]@, span));
        match find_text(lines, &table, i, span.0, span.1) {
            Some(_) => {
                assert(before.contains(text[i as int][0]));
            },
            None => {
                table.push((i, span.0, span.1));
                names.push(strings[i].as_str().substring_char(span.0, span.1));
                proof {
                    assert(entry_texts(lines@, table@) =~= before.push(text[i as int][0]));
                    assert(name_views(names@) =~= old_names.push(text[i as int][0]));
                    assert(old_names.push(text[i as int][0]) =~= seq![start_name()] + before.push(
                        text[i as int][0],
                    ));
                }
            },
        }
        i += 1;
    }
    proof {
        assert(heads(text).take(lines.len() as int) =~= heads(text));
    }
    (table, names)
}

/// The tokens without their first character: the names of terminals.
pub open spec fn stripped(tokens: Seq<Seq<char>>) -> Seq<Seq<char>> {
    Seq::new(tokens.len(), |k: int| tokens[k].skip(1))
}

/// The terminal tokens in the order in which they first occur, and the
/// names of the terminals.
fn intern_terminals<'a>(
    strings: &'a [String],
    lines: &Vec<Vec<char>>,
    spans: &Vec<Vec<(usize, usize)>>,
) -> (r: (Vec<(usize, usize, usize)>, Vec<&'a str>))
    requires
        lines.len() == strings.len(),
        loaded(strings@, lines@, spans@),
    ensures
        entries_valid(lines@, r.0@),
        entry_texts(lines@, r.0@) == terminal_tokens(text_of(strings@)),
        name_views(r.1@) == stripped(terminal_tokens(text_of(strings@))),
{
    let ghost text = text_of(strings@);
    let mut table: Vec<(usize, usize, usize)> = Vec::new();
    let mut names: Vec<&'a str> = Vec::new();
    proof {
        assert(entry_texts(lines@, table@) =~= first_occurrences(text_terminals(text, 0)));
        assert(name_views(names@) =~= stripped(entry_texts(lines@, table@)));
    }
    let mut i: usize = 0;
    while i < lines.len()
        invariant
            i <= lines.len(),
            lines.len() == strings.len(),
            loaded(strings@, lines@, spans@),
            text == text_of(strings@),
            entries_valid(lines@, table@),
            entry_texts(lines@, table@) == first_occurrences(text_terminals(text, i as int)),
            name_views(names@) == stripped(entry_texts(lines@, table@)),
        decreases lines.len() - i,
    {
        let ghost done = text_terminals(text, i as int);
        proof {
            assert(lines@[i as int]@ == strings@[i as int]@);
            assert(text[i as int] == tokens(strings@[i as int]@));
            lemma_tokens_nonempty(strings@[i as int]@);
            assert(done + line_terminals(text[i as int], 2) =~= done);
        }
        let count = spans[i].len();
        let mut j: usize = 2;
        while j < count
            invariant
                2 <= j <= count,
                i < lines.len(),
                count == spans@[i as int]@.len(),
                count == text[i as int].len(),
                lines.len() == strings.len(),
                loaded(strings@, lines@, spans@),
                text == text_of(strings@),
                lines@[i as int]@ == strings@[i as int]@,
                text[i as int] == tokens(strings@[i as int]@),
                forall|q: int| 0 <= q < text[i as int].len() ==> (#[trigger] text[i as int][q]).len() > 0,
                done == text_terminals(text, i as int),
                entries_valid(lines@, table@),
                entry_texts(lines@, table@) == first_occurrences(
                    done + line_terminals(text[i as int], j as int),
                ),
                name_views(names@) == stripped(entry_texts(lines@, table@)),
            decreases count - j,
        {
            let ghost before = entry_texts(lines@, table@);
            let ghost old_names = name_views(names@);
            let ghost seen = done + line_terminals(text[i as int], j as int);
            let span = spans[i][j];
            let ghost token = text[i as int][j as int];
            proof {
                assert(span_texts(lines@[i as int]@, spans@[i as int]@)[j as int] == span_text(
                    lines@[i as int]@,
                    span,
                ));
                assert(token.len() > 0);
                assert(token[0] == lines@[i as int]@[span.0 as int]);
            }
            if lines[i][span.0] == '.' {
                proof {
                    assert(done + line_terminals(text[i as int], j + 1) =~= seen.push(token));
                    assert(seen.push(token).drop_last() =~= seen);
                }
                match find_text(lines, &table, i, span.0, span.1) {
                    Some(_) => {
                        assert(before.contains(token));
                    },
                    None => {
                        table.push((i, span.0, span.1));
                        names.push(strings[i].as_str().substring_char(span.0 + 1, span.1));
                        proof {
                            assert(entry_texts(lines@, table@) =~= before.push(token));
                            assert(strings@[i as int]@.subrange(span.0 + 1, span.1 as int) =~= token.skip(
                                1,
                            ));
                            assert(name_views(names@) =~= old_names.push(token.skip(1)));
                            assert(stripped(before.push(token)) =~= old_names.push(token.skip(1)));
                        }
                    },
                }
            }
            j += 1;
        }
        i += 1;
    }
    (table, names)
}

/// The symbol that a token of a right-hand side stands for, or nothing if
/// it names a nonterminal that heads no line.
fn classify_token(
    lines: &Vec<Vec<char>>,
    names: &Vec<(usize, usize, usize)>,
    terminals: &Vec<(usize, usize, usize)>,
    line: usize,
    start: usize,
    end: usize,
) -> (r: Option<Symbol>)
    requires
        entries_valid(lines@, names@),
        entries_valid(lines@, terminals@),
        entry_texts(lines@, names@).no_duplicates(),
        entry_texts(lines@, terminals@).no_duplicates(),
        names.len() < usize::MAX,
        line < lines.len(),
        start < end <= lines[line as int]@.len(),
        is_terminal_token(lines[line as int]@.subrange(start as int, end as int)) ==> entry_texts(
            lines@,
            terminals@,
        ).contains(lines[line as int]@.subrange(start as int, end as int)),
    ensures
        match r {
            Some(symbol) => {
                &&& symbol == classify(
                    lines[line as int]@.subrange(start as int, end as int),
                    entry_texts(lines@, names@),
                    entry_texts(lines@, terminals@),
                )
                &&& is_nonterminal_token(lines[line as int]@.subrange(start as int, end as int))
                    ==> entry_texts(lines@, names@).contains(
                    lines[line as int]@.subrange(start as int, end as int),
                )
                &&& match symbol {
                    Symbol::Terminal(t) => t < terminals.len(),
                    Symbol::Nonterminal(b) => 1 <= b <= names.len(),
                    _ => true,
                }
            },
            None => {
                &&& is_nonterminal_token(lines[line as int]@.subrange(start as int, end as int))
                &&& !entry_texts(lines@, names@).contains(
                    lines[line as int]@.subrange(start as int, end as int),
                )
            },
        },
{
    let ghost token = lines[line as int]@.subrange(start as int, end as int);
    let chars = &lines[line];
    assert(token[0] == chars@[start as int]);
    if is_eof_token(chars, start, end) {
        Some(Symbol::EOF())
    } else if is_empty_token(chars, start, end) {
        Some(Symbol::Empty())
    } else if chars[start] == '.' {
        let t = find_text(lines, terminals, line, start, end).unwrap();
        proof {
            lemma_index_of(entry_texts(lines@, terminals@), t as int);
        }
        Some(Symbol::Terminal(t))
    } else {
        match find_text(lines, names, line, start, end) {
            Some(b) => {
                proof {
                    lemma_index_of(entry_texts(lines@, names@), b as int);
                    assert(entry_texts(lines@, names@)[b as int] == token);
                }
                Some(Symbol::Nonterminal(b + 1))
            },
            None => None,
        }
    }
}

/// The right-hand side that line `i` stands for, or nothing if it names a
/// nonterminal that heads no line.
fn build_rhs(
    strings: &[String],
    lines: &Vec<Vec<char>>,
    spans: &Vec<Vec<(usize, usize)>>,
    names: &Vec<(usize, usize, usize)>,
    terminals: &Vec<(usize, usize, usize)>,
    i: usize,
) -> (r: Option<Vec<Symbol>>)
    requires
        lines.len() == strings.len(),
        loaded(strings@, lines@, spans@),
        entries_valid(lines@, names@),
        entries_valid(lines@, terminals@),
        entry_texts(lines@, names@) == nonterminal_names(text_of(strings@)),
        entry_texts(lines@, terminals@) == terminal_tokens(text_of(strings@)),
        names.len() < usize::MAX,
        i < lines.len(),
    ensures
        match r {
            Some(rhs) => {
                &&& rhs@ == rhs_symbols(
                    text_of(strings@)[i as int],
                    nonterminal_names(text_of(strings@)),
                    terminal_tokens(text_of(strings@)),
                )
                &&& !undefined(text_of(strings@), i as int)
                &&& forall|q: int|
                    0 <= q < rhs.len() ==> match #[trigger] rhs[q] {
                        Symbol::Terminal(t) => t < terminals.len(),
                        Symbol::Nonterminal(b) => 1 <= b <= names.len(),
                        _ => true,
                    }
            },
            None => undefined(text_of(strings@), i as int),
        },
{
    let ghost text = text_of(strings@);
    let ghost nts = nonterminal_names(text);
    let ghost ts = terminal_tokens(text);
    proof {
        assert(lines@[i as int]@ == strings@[i as int]@);
        assert(text[i as int] == tokens(strings@[i as int]@));
        lemma_tokens_nonempty(strings@[i as int]@);
        lemma_first_occurrences(heads(text));
        lemma_first_occurrences(text_terminals(text, text.len() as int));
    }
    let count = spans[i].len();
    let mut rhs: Vec<Symbol> = Vec::new();
    let mut j: usize = 2;
    while j < count
        invariant
            2 <= j <= count,
            i < lines.len(),
            count == spans@[i as int]@.len(),
            count == text[i as int].len(),
            lines.len() == strings.len(),
            loaded(strings@, lines@, spans@),
            text == text_of(strings@),
            nts == nonterminal_names(text),
            ts == terminal_tokens(text),
            lines@[i as int]@ == strings@[i as int]@,
            text[i as int] == tokens(strings@[i as int]@),
            forall|q: int| 0 <= q < text[i as int].len() ==> (#[trigger] text[i as int][q]).len() > 0,
            entries_valid(lines@, names@),
            entries_valid(lines@, terminals@),
            entry_texts(lines@, names@) == nts,
            entry_texts(lines@, terminals@) == ts,
            nts.no_duplicates(),
            ts.no_duplicates(),
            forall|x: Seq<char>| nts.contains(x) <==> heads(text).contains(x),
            forall|x: Seq<char>| ts.contains(x) <==> text_terminals(text, text.len() as int).contains(x),
            names.len() < usize::MAX,
            rhs.len() == j - 2,
            forall|q: int| 0 <= q < rhs.len() ==> #[trigger] rhs[q] == classify(text[i as int][q + 2], nts, ts),
            forall|q: int|
                2 <= q < j ==> !(is_nonterminal_token(#[trigger] text[i as int][q]) && !heads(text).contains(
                    text[i as int][q],
                )),
            forall|q: int|
                0 <= q < rhs.len() ==> match #[trigger] rhs[q] {
                    Symbol::Terminal(t) => t < terminals.len(),
                    Symbol::Nonterminal(b) => 1 <= b <= names.len(),
                    _ => true,
                },
        decreases count - j,
    {
        let span = spans[i][j];
        let ghost token = text[i as int][j as int];
        proof {
            assert(span_texts(lines@[i as int]@, spans@[i as int]@)[j as int] == span_text(
                lines@[i as int]@,
                span,
            ));
            assert(token.len() > 0);
            if is_terminal_token(token) {
                lemma_text_terminals_contains(text, text.len() as int, i as int, j as int);
            }
        }
        match classify_token(lines, names, terminals, i, span.0, span.1) {
            Some(symbol) => {
                rhs.push(symbol);
            },
            None => {
                assert(is_nonterminal_token(text[i as int][j as int]) && !heads(text).contains(
                    text[i as int][j as int],
                ));
                return None;
            },
        }
        j += 1;
    }
    if rhs.len() == 0 {
        rhs.push(Symbol::Empty());
    }
    assert(rhs@ =~= rhs_symbols(text[i as int], nts, ts));
    Some(rhs)
}

/// The right-hand sides of a vector of productions, nonterminal by
/// nonterminal.
pub open spec fn rules_of(productions: Seq<Vec<CFGProduction>>) -> Seq<Seq<Seq<Symbol>>> {
    Seq::new(
        productions.len(),
        |a: int| Seq::new(productions[a].len() as nat, |k: int| productions[a][k].rhs@),
    )
}

/// Every production is filed under its own left-hand side and names only
/// terminals below `terminals` and nonterminals below the number of rows.
spec fn productions_sound(productions: Seq<Vec<CFGProduction>>, terminals: nat) -> bool {
    forall|a: int, k: int|
        0 <= a < productions.len() && 0 <= k < productions[a].len() ==> {
            &&& (#[trigger] productions[a][k]).nonterminal == a
            &&& forall|q: int|
                0 <= q < productions[a][k].rhs.len() ==> match #[trigger] productions[a][k].rhs[q] {
                    Symbol::Terminal(t) => t < terminals,
                    Symbol::Nonterminal(b) => b < productions.len(),
                    _ => true,
                }
        }
}

/// The number of productions below a nonterminal depends on the numbers
/// of productions of the nonterminals alone.
proof fn lemma_offset_lengths(g1: Grammar, g2: Grammar, a: int, b: int)
    requires
        0 <= a < g1.rules.len(),
        g1.rules.len() == g2.rules.len(),
        0 <= b <= g1.rules.len(),
        g2.rules[a].len() == g1.rules[a].len() + 1,
        forall|c: int| 0 <= c < g1.rules.len() && c != a ==> (#[trigger] g2.rules[c]).len() == g1.rules[c].len(),
    ensures
        g2.offset(b) == g1.offset(b) + if b > a {
            1int
        } else {
            0int
        },
    decreases b,
{
    if b > 0 {
        lemma_offset_lengths(g1, g2, a, b - 1);
        if b - 1 != a {
            assert(g2.rules[b - 1].len() == g1.rules[b - 1].len());
        }
    }
}

/// Rows without productions add nothing to the number of productions.
proof fn lemma_offset_start(g: Grammar, b: int)
    requires
        1 <= b <= g.rules.len(),
        g.rules[0].len() == 1,
        forall|c: int| 1 <= c < b ==> (#[trigger] g.rules[c]).len() == 0,
    ensures
        g.offset(b) == 1,
    decreases b,
{
    if b > 1 {
        lemma_offset_start(g, b - 1);
    } else {
        assert(g.offset(0) == 0);
    }
}

/// The productions, filed under their left-hand sides. Fails at the first
/// line that names a nonterminal that heads no line.
fn build_productions(
    strings: &[String],
    lines: &Vec<Vec<char>>,
    spans: &Vec<Vec<(usize, usize)>>,
    names: &Vec<(usize, usize, usize)>,
    terminals: &Vec<(usize, usize, usize)>,
) -> (r: Result<Vec<Vec<CFGProduction>>, LoadError>)
    requires
        1 <= strings.len() < usize::MAX,
        lines.len() == strings.len(),
        loaded(strings@, lines@, spans@),
        entries_valid(lines@, names@),
        entries_valid(lines@, terminals@),
        entry_texts(lines@, names@) == nonterminal_names(text_of(strings@)),
        entry_texts(lines@, terminals@) == terminal_tokens(text_of(strings@)),
        names.len() <= strings.len(),
    ensures
        match r {
            Ok(productions) => {
                &&& rules_of(productions@) == grammar_of(text_of(strings@)).rules
                &&& productions_sound(productions@, terminals.len() as nat)
                &&& (Grammar {
                    rules: rules_of(productions@),
                    terminals: terminals.len() as nat,
                }).production_count() == strings.len() + 1
                &&& forall|p: int| 0 <= p < strings.len() ==> !undefined(text_of(strings@), p)
            },
            Err(LoadError::UndefinedNonterminal { line }) => {
                &&& line < strings.len()
                &&& undefined(text_of(strings@), line as int)
                &&& forall|p: int| 0 <= p < line ==> !undefined(text_of(strings@), p)
            },
            Err(_) => false,
        },
{
    let ghost text = text_of(strings@);
    let ghost nts = nonterminal_names(text);
    let ghost ts = terminal_tokens(text);
    let ghost t = terminals.len() as nat;
    let rows = names.len() + 1;
    let mut productions: Vec<Vec<CFGProduction>> = Vec::new();
    let mut first: Vec<CFGProduction> = Vec::new();
    let mut start_rhs: Vec<Symbol> = Vec::new();
    start_rhs.push(Symbol::Nonterminal(1));
    start_rhs.push(Symbol::EOF());
    first.push(CFGProduction { nonterminal: 0, rhs: start_rhs });
    productions.push(first);
    proof {
        lemma_first_occurrences(heads(text));
        assert(heads(text)[0] == text[0][0]);
        assert(heads(text).contains(text[0][0]));
        assert(nts.contains(text[0][0]));
        assert(nts.len() >= 1);
        assert(productions@[0]@[0].rhs@ =~= seq![Symbol::Nonterminal(1), Symbol::EOF()]);
    }
    while productions.len() < rows
        invariant
            1 <= productions.len() <= rows,
            rows == names.len() + 1,
            rows >= 2,
            productions@[0].len() == 1,
            productions@[0]@[0].nonterminal == 0,
            productions@[0]@[0].rhs@ == seq![Symbol::Nonterminal(1), Symbol::EOF()],
            forall|a: int| 1 <= a < productions.len() ==> (#[trigger] productions@[a]).len() == 0,
        decreases rows - productions.len(),
    {
        productions.push(Vec::new());
    }
    proof {
        let g = Grammar { rules: rules_of(productions@), terminals: t };
        lemma_offset_start(g, rows as int);
        assert forall|a: int| 1 <= a < rows implies (#[trigger] rules_of(productions@)[a]) == productions_of(
            text,
            0,
            nts,
            ts,
            nts[a - 1],
        ) by {
            assert(rules_of(productions@)[a] =~= Seq::<Seq<Symbol>>::empty());
        }
        assert(rules_of(productions@)[0] =~= seq![seq![Symbol::Nonterminal(1), Symbol::EOF()]]);
    }
    let mut i: usize = 0;
    while i < lines.len()
        invariant
            i <= lines.len(),
            1 <= strings.len() < usize::MAX,
            lines.len() == strings.len(),
            loaded(strings@, lines@, spans@),
            text == text_of(strings@),
            nts == nonterminal_names(text),
            ts == terminal_tokens(text),
            t == terminals.len(),
            entries_valid(lines@, names@),
            entries_valid(lines@, terminals@),
            entry_texts(lines@, names@) == nts,
            entry_texts(lines@, terminals@) == ts,
            nts.no_duplicates(),
            forall|x: Seq<char>| nts.contains(x) <==> heads(text).contains(x),
            names.len() <= strings.len(),
            rows == names.len() + 1,
            rows >= 2,
            productions.len() == rows,
            rules_of(productions@)[0] == seq![seq![Symbol::Nonterminal(1), Symbol::EOF()]],
            forall|a: int|
                1 <= a < rows ==> (#[trigger] rules_of(productions@)[a]) == productions_of(
                    text,
                    i as int,
                    nts,
                    ts,
                    nts[a - 1],
                ),
            productions_sound(productions@, t),
            (Grammar { rules: rules_of(productions@), terminals: t }).production_count() == i + 1,
            forall|p: int| 0 <= p < i ==> !undefined(text, p),
        decreases lines.len() - i,
    {
        let ghost before = productions@;
        proof {
            assert(lines@[i as int]@ == strings@[i as int]@);
            assert(text[i as int] == tokens(strings@[i as int]@));
            assert(heads(text)[i as int] == text[i as int][0]);
            assert(heads(text).contains(text[i as int][0]));
        }
        let head = spans[i][0];
        assert(span_texts(lines@[i as int]@, spans@[i as int]@)[0] == span_text(lines@[i as int]@, head));
        let lhs = find_text(lines, names, i, head.0, head.1).unwrap() + 1;
        assert(nts[lhs - 1] == text[i as int][0]);
        let rhs = match build_rhs(strings, lines, spans, names, terminals, i) {
            Some(rhs) => rhs,
            None => {
                return Err(LoadError::UndefinedNonterminal { line: i });
            },
        };
        let ghost row = rhs@;
        productions[lhs].push(CFGProduction { nonterminal: lhs, rhs });
        proof {
            let now = productions@;
            assert(now.len() == before.len());
            assert forall|a: int| 0 <= a < rows && a != lhs implies now[a] == before[a] by {}
            assert(now[lhs as int]@ == before[lhs as int]@.push(
                CFGProduction { nonterminal: lhs, rhs },
            ));
            assert(rules_of(now)[0] =~= rules_of(before)[0]);
            assert forall|a: int| 1 <= a < rows implies (#[trigger] rules_of(now)[a]) == productions_of(
                text,
                i + 1,
                nts,
                ts,
                nts[a - 1],
            ) by {
                let earlier = productions_of(text, i as int, nts, ts, nts[a - 1]);
                assert(rules_of(before)[a] == earlier);
                if a == lhs {
                    assert(rules_of(now)[a] =~= earlier.push(row));
                } else {
                    assert(nts[a - 1] != nts[lhs - 1]);
                    assert(rules_of(now)[a] =~= earlier);
                }
            }
            assert(productions_sound(now, t)) by {
                assert forall|a: int, k: int| 0 <= a < now.len() && 0 <= k < now[a].len() implies {
                    &&& (#[trigger] now[a][k]).nonterminal == a
                    &&& forall|q: int|
                        0 <= q < now[a][k].rhs.len() ==> match #[trigger] now[a][k].rhs[q] {
                            Symbol::Terminal(t0) => t0 < t,
                            Symbol::Nonterminal(b) => b < now.len(),
                            _ => true,
                        }
                } by {
                    if a == lhs && k == before[a].len() {
                        assert(now[a][k].rhs@ == row);
                    } else {
                        assert(now[a][k] == before[a][k]);
                    }
                }
            }
            let g1 = Grammar { rules: rules_of(before), terminals: t };
            let g2 = Grammar { rules: rules_of(now), terminals: t };
            lemma_offset_lengths(g1, g2, lhs as int, rows as int);
        }
        i += 1;
    }
    proof {
        assert(rules_of(productions@) =~= grammar_of(text).rules);
    }
    Ok(productions)
}

impl<'a> CFG<'a> {
    /// Reads a grammar from its text, one production on each line:
    /// `LHS -> SYM SYM ...`. A token that begins with a dot names a terminal,
    /// `<eof>` and `<empty>` are the two markers, and any other token names
    /// a nonterminal. The nonterminal that heads the first line is the start
    /// symbol; the grammar gets the added start symbol `S'` with the
    /// production `S' -> S <eof>` as nonterminal 0. Nonterminals are numbered
    /// from 1 in the order in which they first head a line, terminals from 0
    /// in the order in which they first occur.
    pub fn from_strings(strings: &'a [String]) -> (r: Result<CFG<'a>, LoadError>)
        requires
            strings.len() < usize::MAX,
        ensures
            match r {
                Ok(cfg) => {
                    &&& strings.len() > 0
                    &&& forall|p: int|
                        0 <= p < strings.len() ==> line_ok(#[trigger] text_of(strings@)[p]) && !undefined(
                            text_of(strings@),
                            p,
                        )
                    &&& cfg.wf()
                    &&& cfg@ == grammar_of(text_of(strings@))
                    &&& name_views(cfg.nonterminal_symbols@) == seq![start_name()] + nonterminal_names(
                        text_of(strings@),
                    )
                    &&& name_views(cfg.terminal_symbols@) == stripped(terminal_tokens(text_of(strings@)))
                },
                Err(LoadError::NoProductions) => strings.len() == 0,
                Err(LoadError::NoLhs { line }) => {
                    &&& line < strings.len()
                    &&& text_of(strings@)[line as int].len() == 0
                    &&& forall|p: int| 0 <= p < line ==> line_ok(#[trigger] text_of(strings@)[p])
                },
                Err(LoadError::ExpectedArrow { line }) => {
                    &&& line < strings.len()
                    &&& text_of(strings@)[line as int].len() > 0
                    &&& !line_ok(text_of(strings@)[line as int])
                    &&& forall|p: int| 0 <= p < line ==> line_ok(#[trigger] text_of(strings@)[p])
                },
                Err(LoadError::UndefinedNonterminal { line }) => {
                    &&& line < strings.len()
                    &&& forall|p: int| 0 <= p < strings.len() ==> line_ok(#[trigger] text_of(strings@)[p])
                    &&& undefined(text_of(strings@), line as int)
                    &&& forall|p: int| 0 <= p < line ==> !undefined(text_of(strings@), p)
                },
            },
    {
        let ghost text = text_of(strings@);
        if strings.len() == 0 {
            return Err(LoadError::NoProductions);
        }
        let (lines, spans) = match read_lines(strings) {
            Ok(read) => read,
            Err(e) => {
                return Err(e);
            },
        };
        proof {
            assert forall|p: int| 0 <= p < strings.len() implies line_ok(#[trigger] text[p]) by {
                assert(lines@[p]@ == strings@[p]@);
            }
        }
        let (names, nonterminal_symbols) = intern_heads(strings, &lines, &spans);
        let (terminals, terminal_symbols) = intern_terminals(strings, &lines, &spans);
        let productions = match build_productions(strings, &lines, &spans, &names, &terminals) {
            Ok(productions) => productions,
            Err(e) => {
                return Err(e);
            },
        };
        let cfg = CFG { productions, nonterminal_symbols, terminal_symbols };
        proof {
            let g = grammar_of(text);
            let nts = nonterminal_names(text);
            let ts = terminal_tokens(text);
            assert(cfg.terminal_symbols.len() == ts.len()) by {
                assert(name_views(cfg.terminal_symbols@).len() == stripped(ts).len());
            }
            assert(cfg.nonterminal_symbols.len() == nts.len() + 1) by {
                assert(name_views(cfg.nonterminal_symbols@).len() == (seq![start_name()] + nts).len());
            }
            assert(cfg@.rules =~= rules_of(cfg.productions@));
            assert(cfg@ == g);
            lemma_first_occurrences(heads(text));
            assert forall|a: int, k: int| 0 <= a < g.rules.len() && 0 <= k < g.rules[a].len() implies (
            #[trigger] g.rules[a][k]).len() >= 1 by {
                if a > 0 {
                    lemma_productions_of(text, text.len() as int, nts, ts, nts[a - 1]);
                }
            }
            assert forall|a: int| 0 <= a < g.rules.len() implies #[trigger] g.rules[a].len() >= 1 by {
                if a > 0 {
                    assert(nts.contains(nts[a - 1]));
                    assert(heads(text).contains(nts[a - 1]));
                    let p = choose|p: int| 0 <= p < heads(text).len() && heads(text)[p] == nts[a - 1];
                    assert(text[p][0] == nts[a - 1]);
                    lemma_productions_of(text, text.len() as int, nts, ts, nts[a - 1]);
                }
            }
            assert forall|a: int, k: int, j: int|
                0 <= a < g.rules.len() && 0 <= k < g.rules[a].len() && 0 <= j < g.rules[a][k].len() implies (
            #[trigger] g.rules[a][k][j]).valid(g) by {
                assert(cfg.productions@[a][k].rhs@ == g.rules[a][k]);
                assert(cfg.productions@[a][k].rhs[j] == g.rules[a][k][j]);
            }
            assert(cfg.wf());
        }
        Ok(cfg)
    }
}

} // verus!
