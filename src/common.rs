use vstd::prelude::*;
use vstd::string::{StrSliceExecFns, StringExecFns};

verus! {

/// A symbol matched literally against one input token.
#[derive(Debug, PartialEq, Clone)]
pub struct TerminalSymbol(pub String);

/// A symbol expanded through the rules whose left-hand side it is.
#[derive(Debug, PartialEq, Clone)]
pub struct NonTerminalSymbol(pub String);

/// A right-hand side symbol of a rule.
#[derive(Debug, PartialEq, Clone)]
pub enum Symbol {
    Terminal(TerminalSymbol),
    NonTerminal(NonTerminalSymbol),
}

/// A production `lhs -> rhs`; an empty `rhs` is an epsilon production.
#[derive(Debug, PartialEq)]
pub struct Rule {
    pub lhs: NonTerminalSymbol,
    pub rhs: Vec<Symbol>,
}

/// An ordered list of rules; the first rule's left-hand side is the start symbol.
#[derive(Debug, PartialEq)]
pub struct Grammar {
    pub rules: Vec<Rule>,
    pub start_symbol: Option<NonTerminalSymbol>,
}

/// The text of a symbol, whatever its kind.
pub open spec fn symbol_text(s: Symbol) -> Seq<char> {
    match s {
        Symbol::Terminal(t) => t.0@,
        Symbol::NonTerminal(n) => n.0@,
    }
}

/// The text of the left-hand side of a rule.
pub open spec fn lhs_text(r: Rule) -> Seq<char> {
    r.lhs.0@
}

/// Whether a symbol is the nonterminal with the given text.
pub open spec fn is_nonterminal_named(s: Symbol, name: Seq<char>) -> bool {
    match s {
        Symbol::NonTerminal(n) => n.0@ == name,
        Symbol::Terminal(_) => false,
    }
}

/// The shapes that Chomsky Normal Form allows for the rule at index `i`:
/// an empty start rule, one terminal, or two nonterminals.
pub open spec fn cnf_shaped(i: int, r: Rule) -> bool {
    ||| (r.rhs@.len() == 0 && i == 0)
    ||| (r.rhs@.len() == 1 && r.rhs@[0] is Terminal)
    ||| (r.rhs@.len() == 2 && r.rhs@[0] is NonTerminal && r.rhs@[1] is NonTerminal)
}

/// A grammar whose start symbol is the left-hand side of its first rule, if any.
pub open spec fn start_consistent(rules: Seq<Rule>, start: Option<NonTerminalSymbol>) -> bool {
    if rules.len() == 0 {
        start is None
    } else {
        match start {
            Some(s) => s.0@ == rules[0].lhs.0@,
            None => false,
        }
    }
}

impl Grammar {
    /// Builds a grammar from its rules; the start symbol is taken from the first rule.
    pub fn new(rules: Vec<Rule>) -> (g: Grammar)
        ensures
            g.rules == rules,
            start_consistent(g.rules@, g.start_symbol),
    {
        let start_symbol = if rules.len() > 0 {
            Some(NonTerminalSymbol(rules[0].lhs.0.clone()))
        } else {
            None
        };
        Grammar { rules, start_symbol }
    }

    /// Whether every rule has one of the shapes of Chomsky Normal Form.
    pub fn is_cnf(&self) -> (r: bool)
        ensures
            r == forall|i: int| 0 <= i < self.rules@.len() ==> #[trigger] cnf_shaped(i, self.rules@[i]),
    {
        let mut i: usize = 0;
        while i < self.rules.len()
            invariant
                i <= self.rules@.len(),
                forall|j: int| 0 <= j < i ==> #[trigger] cnf_shaped(j, self.rules@[j]),
            decreases self.rules@.len() - i,
        {
            let rule = &self.rules[i];
            let n = rule.rhs.len();
            let ok = if n == 0 {
                i == 0
            } else if n == 1 {
                rule.rhs[0].is_terminal()
            } else if n == 2 {
                rule.rhs[0].is_non_terminal() && rule.rhs[1].is_non_terminal()
            } else {
                false
            };
            if !ok {
                assert(!cnf_shaped(i as int, self.rules@[i as int]));
                return false;
            }
            i = i + 1;
        }
        true
    }
}

impl Symbol {
    /// The symbol's text.
    pub fn as_str(&self) -> (r: &str)
        ensures
            r@ == symbol_text(*self),
    {
        match self {
            Symbol::Terminal(terminal) => terminal.as_str(),
            Symbol::NonTerminal(non_terminal) => non_terminal.as_str(),
        }
    }

    pub fn is_terminal(&self) -> (r: bool)
        ensures
            r == (*self is Terminal),
    {
        match self {
            Symbol::Terminal(..) => true,
            Symbol::NonTerminal(..) => false,
        }
    }

    pub fn is_non_terminal(&self) -> (r: bool)
        ensures
            r == (*self is NonTerminal),
    {
        !self.is_terminal()
    }
}

impl TerminalSymbol {
    pub fn as_str(&self) -> (r: &str)
        ensures
            r@ == self.0@,
    {
        self.0.as_str()
    }
}

impl NonTerminalSymbol {
    pub fn as_str(&self) -> (r: &str)
        ensures
            r@ == self.0@,
    {
        self.0.as_str()
    }
}

/// The characters with the Unicode White_Space property.
pub open spec fn is_white_space(c: char) -> bool {
    let u = c as u32;
    ||| 0x9 <= u <= 0xd
    ||| u == 0x20
    ||| u == 0x85
    ||| u == 0xa0
    ||| u == 0x1680
    ||| 0x2000 <= u <= 0x200a
    ||| u == 0x2028
    ||| u == 0x2029
    ||| u == 0x202f
    ||| u == 0x205f
    ||| u == 0x3000
}

/// Relies on `char::is_whitespace`: true exactly for the characters with the
/// Unicode White_Space property.
#[verifier::external_body]
fn is_whitespace(c: char) -> (r: bool)
    ensures
        r == is_white_space(c),
{
    c.is_whitespace()
}

/// Adds `word` to the finished words if it is not empty.
pub open spec fn finish_word(done: Seq<Seq<char>>, word: Seq<char>) -> Seq<Seq<char>> {
    if word.len() > 0 {
        done.push(word)
    } else {
        done
    }
}

/// Reading a line left to right: the words finished so far and the word under way.
pub open spec fn word_scan(line: Seq<char>) -> (Seq<Seq<char>>, Seq<char>)
    decreases line.len(),
{
    if line.len() == 0 {
        (Seq::empty(), Seq::empty())
    } else {
        let (done, word) = word_scan(line.drop_last());
        if is_white_space(line.last()) {
            (finish_word(done, word), Seq::empty())
        } else {
            (done, word.push(line.last()))
        }
    }
}

/// The words of a line: its maximal runs of non-whitespace characters, in order.
pub open spec fn line_words(line: Seq<char>) -> Seq<Seq<char>> {
    finish_word(word_scan(line).0, word_scan(line).1)
}

/// Adds the words of `line` to the finished lines if it has any.
pub open spec fn finish_line(done: Seq<Seq<Seq<char>>>, line: Seq<char>) -> Seq<Seq<Seq<char>>> {
    if line_words(line).len() > 0 {
        done.push(line_words(line))
    } else {
        done
    }
}

/// Reading a text left to right: the words of each finished non-blank line,
/// and the line under way.
pub open spec fn line_scan(text: Seq<char>) -> (Seq<Seq<Seq<char>>>, Seq<char>)
    decreases text.len(),
{
    if text.len() == 0 {
        (Seq::empty(), Seq::empty())
    } else {
        let (done, line) = line_scan(text.drop_last());
        if text.last() == '\n' {
            (finish_line(done, line), Seq::empty())
        } else {
            (done, line.push(text.last()))
        }
    }
}

/// The words of each non-blank line of the text, in order.
pub open spec fn bnf_lines(text: Seq<char>) -> Seq<Seq<Seq<char>>> {
    finish_line(line_scan(text).0, line_scan(text).1)
}

pub open spec fn words_view(words: Seq<String>) -> Seq<Seq<char>> {
    words.map_values(|w: String| w@)
}

pub open spec fn lines_view(lines: Seq<Vec<String>>) -> Seq<Seq<Seq<char>>> {
    lines.map_values(|l: Vec<String>| words_view(l@))
}

/// Some line starts with the word `t`.
pub open spec fn is_lhs_word(lines: Seq<Seq<Seq<char>>>, t: Seq<char>) -> bool {
    exists|j: int| 0 <= j < lines.len() && #[trigger] lines[j][0] == t
}

/// `r` is the rule that the words of `line` give, among the lines `lines`:
/// the first word is the left-hand side, each further word a nonterminal if
/// some line starts with it and a terminal otherwise.
pub open spec fn rule_of_line(lines: Seq<Seq<Seq<char>>>, line: Seq<Seq<char>>, r: Rule) -> bool {
    &&& r.lhs.0@ == line[0]
    &&& r.rhs@.len() + 1 == line.len()
    &&& forall|k: int| 0 <= k < r.rhs@.len() ==> {
        &&& symbol_text(#[trigger] r.rhs@[k]) == line[k + 1]
        &&& (r.rhs@[k] is NonTerminal <==> is_lhs_word(lines, line[k + 1]))
    }
}

/// The text from `from` to `to` as a string.
fn slice_string(text: &str, from: usize, to: usize) -> (r: String)
    requires
        from <= to <= text@.len(),
    ensures
        r@ == text@.subrange(from as int, to as int),
{
    text.substring_char(from, to).to_owned()
}

/// The words of each non-blank line of the text.
fn split_lines(text: &str) -> (lines: Vec<Vec<String>>)
    ensures
        lines_view(lines@) == bnf_lines(text@),
        forall|i: int| 0 <= i < lines@.len() ==> #[trigger] lines@[i]@.len() > 0,
{
    let ghost t = text@;
    let len = text.unicode_len();
    let mut lines: Vec<Vec<String>> = Vec::new();
    let mut words: Vec<String> = Vec::new();
    let mut line_start: usize = 0;
    let mut word_start: usize = 0;
    let mut i: usize = 0;
    while i < len
        invariant
            t == text@,
            len == t.len(),
            line_start <= word_start <= i <= len,
            line_scan(t.subrange(0, i as int)) == (lines_view(lines@), t.subrange(line_start as int, i as int)),
            word_scan(t.subrange(line_start as int, i as int)) == (words_view(words@), t.subrange(word_start as int, i as int)),
            forall|j: int| 0 <= j < lines@.len() ==> #[trigger] lines@[j]@.len() > 0,
        decreases len - i,
    {
        let c = text.get_char(i);
        let ghost old_lines = lines@;
        let ghost old_words = words@;
        let ghost line = t.subrange(line_start as int, i as int);
        let ghost word = t.subrange(word_start as int, i as int);
        assert(t.subrange(0, i + 1).drop_last() =~= t.subrange(0, i as int));
        assert(t.subrange(line_start as int, i + 1).drop_last() =~= line);
        assert(t.subrange(word_start as int, i + 1) =~= word.push(c));
        assert(t.subrange(line_start as int, i + 1) =~= line.push(c));
        if c == '\n' || is_whitespace(c) {
            if word_start < i {
                words.push(slice_string(text, word_start, i));
            }
            assert(words_view(words@) =~= finish_word(words_view(old_words), word));
            if c == '\n' {
                assert(line_words(line) == words_view(words@));
                if words.len() > 0 {
                    lines.push(words);
                }
                assert(lines_view(lines@) =~= finish_line(lines_view(old_lines), line));
                words = Vec::new();
                line_start = i + 1;
                assert(words_view(words@) =~= Seq::<Seq<char>>::empty());
                assert(t.subrange(line_start as int, i + 1) =~= Seq::<char>::empty());
            }
            word_start = i + 1;
            assert(t.subrange(word_start as int, i + 1) =~= Seq::<char>::empty());
        }
        i = i + 1;
    }
    let ghost line = t.subrange(line_start as int, len as int);
    let ghost word = t.subrange(word_start as int, len as int);
    let ghost old_lines = lines@;
    let ghost old_words = words@;
    if word_start < len {
        words.push(slice_string(text, word_start, len));
    }
    assert(words_view(words@) =~= finish_word(words_view(old_words), word));
    assert(line_words(line) == words_view(words@));
    if words.len() > 0 {
        lines.push(words);
    }
    assert(lines_view(lines@) =~= finish_line(lines_view(old_lines), line));
    assert(t.subrange(0, len as int) =~= t);
    lines
}

/// Whether some line starts with `word`.
fn starts_some_line(lines: &Vec<Vec<String>>, word: &String) -> (r: bool)
    requires
        forall|i: int| 0 <= i < lines@.len() ==> #[trigger] lines@[i]@.len() > 0,
    ensures
        r == is_lhs_word(lines_view(lines@), word@),
{
    let ghost v = lines_view(lines@);
    let mut j: usize = 0;
    while j < lines.len()
        invariant
            v == lines_view(lines@),
            j <= lines@.len(),
            forall|i: int| 0 <= i < lines@.len() ==> #[trigger] lines@[i]@.len() > 0,
            forall|i: int| 0 <= i < j ==> #[trigger] v[i][0] != word@,
        decreases lines@.len() - j,
    {
        assert(lines@[j as int]@.len() > 0);
        if lines[j][0] == *word {
            assert(v[j as int][0] == word@);
            return true;
        }
        j = j + 1;
    }
    false
}

/// Reads a grammar from text: one rule for each non-blank line, whose first
/// word is the left-hand side and whose further words are the right-hand
/// side; a word is a nonterminal if some line starts with it, else a terminal.
pub fn parse_bnf(bnf: &str) -> (g: Grammar)
    ensures
        g.rules@.len() == bnf_lines(bnf@).len(),
        forall|i: int| 0 <= i < g.rules@.len() ==> rule_of_line(bnf_lines(bnf@), bnf_lines(bnf@)[i], #[trigger] g.rules@[i]),
        start_consistent(g.rules@, g.start_symbol),
{
    let lines = split_lines(bnf);
    let ghost v = lines_view(lines@);
    let mut rules: Vec<Rule> = Vec::new();
    let mut i: usize = 0;
    while i < lines.len()
        invariant
            v == lines_view(lines@),
            v == bnf_lines(bnf@),
            forall|j: int| 0 <= j < lines@.len() ==> #[trigger] lines@[j]@.len() > 0,
            i <= lines@.len(),
            rules@.len() == i,
            forall|j: int| 0 <= j < i ==> rule_of_line(v, v[j], #[trigger] rules@[j]),
        decreases lines@.len() - i,
    {
        let line = &lines[i];
        assert(line@.len() > 0);
        let ghost lv = v[i as int];
        assert(lv == words_view(line@));
        let lhs = NonTerminalSymbol(line[0].clone());
        let mut rhs: Vec<Symbol> = Vec::new();
        let mut k: usize = 1;
        while k < line.len()
            invariant
                v == lines_view(lines@),
                forall|j: int| 0 <= j < lines@.len() ==> #[trigger] lines@[j]@.len() > 0,
                lv == words_view(line@),
                1 <= k <= line@.len(),
                rhs@.len() + 1 == k,
                forall|m: int| 0 <= m < rhs@.len() ==> {
                    &&& symbol_text(#[trigger] rhs@[m]) == lv[m + 1]
                    &&& (rhs@[m] is NonTerminal <==> is_lhs_word(v, lv[m + 1]))
                },
            decreases line@.len() - k,
        {
            let word = &line[k];
            let text = word.clone();
            if starts_some_line(&lines, word) {
                rhs.push(Symbol::NonTerminal(NonTerminalSymbol(text)));
            } else {
                rhs.push(Symbol::Terminal(TerminalSymbol(text)));
            }
            k = k + 1;
        }
        let rule = Rule { lhs, rhs };
        assert(rule_of_line(v, v[i as int], rule));
        rules.push(rule);
        i = i + 1;
    }
    Grammar::new(rules)
}

/// Splits an input into tokens: its maximal runs of non-whitespace
/// characters, in order. An empty or blank input has no tokens.
pub fn tokenize(input: &str) -> (tokens: Vec<String>)
    ensures
        words_view(tokens@) == line_words(input@),
{
    let ghost t = input@;
    let len = input.unicode_len();
    let mut tokens: Vec<String> = Vec::new();
    let mut word_start: usize = 0;
    let mut i: usize = 0;
    while i < len
        invariant
            t == input@,
            len == t.len(),
            word_start <= i <= len,
            word_scan(t.subrange(0, i as int)) == (words_view(tokens@), t.subrange(word_start as int, i as int)),
        decreases len - i,
    {
        let c = input.get_char(i);
        let ghost old_tokens = tokens@;
        let ghost word = t.subrange(word_start as int, i as int);
        assert(t.subrange(0, i + 1).drop_last() =~= t.subrange(0, i as int));
        assert(t.subrange(word_start as int, i + 1) =~= word.push(c));
        if is_whitespace(c) {
            if word_start < i {
                tokens.push(slice_string(input, word_start, i));
            }
            assert(words_view(tokens@) =~= finish_word(words_view(old_tokens), word));
            word_start = i + 1;
            assert(t.subrange(word_start as int, i + 1) =~= Seq::<char>::empty());
        }
        i = i + 1;
    }
    let ghost word = t.subrange(word_start as int, len as int);
    let ghost old_tokens = tokens@;
    if word_start < len {
        tokens.push(slice_string(input, word_start, len));
    }
    assert(words_view(tokens@) =~= finish_word(words_view(old_tokens), word));
    assert(t.subrange(0, len as int) =~= t);
    tokens
}

/// The texts of the symbols, each preceded by a space.
pub open spec fn spaced_symbols(rhs: Seq<Symbol>) -> Seq<char>
    decreases rhs.len(),
{
    if rhs.len() == 0 {
        Seq::empty()
    } else {
        spaced_symbols(rhs.drop_last()) + " "@ + symbol_text(rhs.last())
    }
}

/// How a rule is shown: `lhs →` followed by its symbols, each after a space.
pub open spec fn rule_text(r: Rule) -> Seq<char> {
    r.lhs.0@ + " →"@ + spaced_symbols(r.rhs@)
}

impl Rule {
    /// The rule as text, e.g. `S → NP VP`.
    pub fn to_string(&self) -> (r: String)
        ensures
            r@ == rule_text(*self),
    {
        let mut out = String::from_str(self.lhs.as_str());
        out.append(" →");
        let mut i: usize = 0;
        while i < self.rhs.len()
            invariant
                i <= self.rhs@.len(),
                out@ == self.lhs.0@ + " →"@ + spaced_symbols(self.rhs@.subrange(0, i as int)),
            decreases self.rhs@.len() - i,
        {
            assert(self.rhs@.subrange(0, i + 1).drop_last() =~= self.rhs@.subrange(0, i as int));
            out.append(" ");
            out.append(self.rhs[i].as_str());
            assert(out@ =~= self.lhs.0@ + " →"@ + spaced_symbols(self.rhs@.subrange(0, i + 1)));
            i = i + 1;
        }
        assert(self.rhs@.subrange(0, self.rhs@.len() as int) =~= self.rhs@);
        out
    }
}

} // verus!
