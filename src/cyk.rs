use vstd::prelude::*;

use crate::common::{symbol_text, Grammar, Rule, Symbol};

verus! {

/// A rule of the grammar in one of the two shapes CYK works with.
enum CNFRule {
    Unary { lhs: String, rhs: String },
    Binary { lhs: String, first: String, second: String },
}

/// The texts of a CNF-shaped rule: `lhs -> terminal` or `lhs -> first second`.
pub enum CnfShape {
    Unary(Seq<char>, Seq<char>),
    Binary(Seq<char>, Seq<char>, Seq<char>),
}

impl View for CNFRule {
    type V = CnfShape;

    closed spec fn view(&self) -> CnfShape {
        match self {
            CNFRule::Unary { lhs, rhs } => CnfShape::Unary(lhs@, rhs@),
            CNFRule::Binary { lhs, first, second } => CnfShape::Binary(lhs@, first@, second@),
        }
    }
}

/// The CNF shape of a rule, if it has one: exactly one terminal, or exactly
/// two nonterminals.
pub open spec fn cnf_shape(r: Rule) -> Option<CnfShape> {
    if r.rhs@.len() == 1 && r.rhs@[0] is Terminal {
        Some(CnfShape::Unary(r.lhs.0@, symbol_text(r.rhs@[0])))
    } else if r.rhs@.len() == 2 && r.rhs@[0] is NonTerminal && r.rhs@[1] is NonTerminal {
        Some(CnfShape::Binary(r.lhs.0@, symbol_text(r.rhs@[0]), symbol_text(r.rhs@[1])))
    } else {
        None
    }
}

/// The CNF-shaped rules of the grammar, in order; the others are left out.
pub open spec fn cnf_rules(g: Seq<Rule>) -> Seq<CnfShape>
    decreases g.len(),
{
    if g.len() == 0 {
        Seq::empty()
    } else {
        match cnf_shape(g.last()) {
            Some(c) => cnf_rules(g.drop_last()).push(c),
            None => cnf_rules(g.drop_last()),
        }
    }
}

/// The texts of the tokens.
pub open spec fn words(input: Seq<&str>) -> Seq<Seq<char>> {
    input.map_values(|t: &str| t@)
}

/// Whether nonterminal `a` derives the `len` tokens of `w` that start at `s`,
/// using the CNF rules `rules`.
pub open spec fn derives(rules: Seq<CnfShape>, w: Seq<Seq<char>>, a: Seq<char>, s: int, len: int) -> bool
    decreases len, len,
{
    if len == 1 {
        exists|r: int| 0 <= r < rules.len() && rules[r] == CnfShape::Unary(a, w[s])
    } else if len > 1 {
        splits(rules, w, a, s, len, len - 1)
    } else {
        false
    }
}

/// Whether some binary rule for `a` splits the span at `s` of length `len`
/// into a first part of length `1..=p` and the rest.
pub open spec fn splits(rules: Seq<CnfShape>, w: Seq<Seq<char>>, a: Seq<char>, s: int, len: int, p: int) -> bool
    decreases len, p,
{
    if 1 <= p < len {
        splits(rules, w, a, s, len, p - 1) || exists|r: int| 0 <= r < rules.len() && #[trigger] binary_for(rules[r], a)
            && derives(rules, w, rules[r]->Binary_1, s, p) && derives(rules, w, rules[r]->Binary_2, s + p, len - p)
    } else {
        false
    }
}

/// A binary rule for `a`.
pub open spec fn binary_for(c: CnfShape, a: Seq<char>) -> bool {
    c is Binary && c->Binary_0 == a
}

/// The cell holds the text `x`.
pub open spec fn cell_has(cell: Seq<String>, x: Seq<char>) -> bool {
    exists|i: int| 0 <= i < cell.len() && #[trigger] cell[i]@ == x
}

/// No text stands twice in the cell.
pub open spec fn cell_no_dups(cell: Seq<String>) -> bool {
    forall|i: int, j: int| 0 <= i < cell.len() && 0 <= j < cell.len() && i != j ==> #[trigger] cell[i]@ != #[trigger] cell[j]@
}

/// Cell `(l, s)` holds exactly the nonterminals that derive the `l + 1`
/// tokens starting at `s`, each once.
pub open spec fn cell_final(rules: Seq<CnfShape>, w: Seq<Seq<char>>, cell: Seq<String>, l: int, s: int) -> bool {
    &&& cell_no_dups(cell)
    &&& forall|x: Seq<char>| #[trigger] cell_has(cell, x) <==> (s + l < w.len() && derives(rules, w, x, s, l + 1))
}

/// Rows `0..rows` of the table are complete: `n` cells each, every one final.
pub open spec fn rows_final(rules: Seq<CnfShape>, w: Seq<Seq<char>>, table: Seq<Vec<Vec<String>>>, rows: int) -> bool {
    &&& rows <= table.len()
    &&& forall|l: int| 0 <= l < rows ==> #[trigger] table[l]@.len() == w.len()
    &&& forall|l: int, s: int| 0 <= l < rows && 0 <= s < w.len() ==> cell_final(rules, w, #[trigger] table[l]@[s]@, l, s)
}

/// Whether the cell holds the text of `x`.
fn cell_contains(cell: &Vec<String>, x: &String) -> (r: bool)
    ensures
        r == cell_has(cell@, x@),
{
    let mut i: usize = 0;
    while i < cell.len()
        invariant
            i <= cell@.len(),
            forall|j: int| 0 <= j < i ==> cell@[j]@ != x@,
        decreases cell@.len() - i,
    {
        if cell[i] == *x {
            return true;
        }
        i = i + 1;
    }
    false
}

/// Adds the text of `x` to the cell unless it is there.
fn insert_text(cell: &mut Vec<String>, x: &String)
    requires
        cell_no_dups(old(cell)@),
    ensures
        cell_no_dups(final(cell)@),
        forall|y: Seq<char>| #[trigger] cell_has(final(cell)@, y) <==> cell_has(old(cell)@, y) || y == x@,
{
    if !cell_contains(cell, x) {
        cell.push(x.clone());
        let ghost c = cell@;
        assert forall|y: Seq<char>| #[trigger] cell_has(c, y) <==> cell_has(old(cell)@, y) || y == x@ by {
            if cell_has(old(cell)@, y) {
                let i = choose|i: int| 0 <= i < old(cell)@.len() && #[trigger] old(cell)@[i]@ == y;
                assert(c[i]@ == y);
            }
            if y == x@ {
                assert(c[c.len() - 1]@ == y);
            }
            if cell_has(c, y) {
                let i = choose|i: int| 0 <= i < c.len() && #[trigger] c[i]@ == y;
                if i < old(cell)@.len() {
                    assert(old(cell)@[i]@ == y);
                }
            }
        }
    }
}

spec fn shapes(rules: Seq<CNFRule>) -> Seq<CnfShape> {
    rules.map_values(|c: CNFRule| c@)
}

/// The CNF-shaped rules of the grammar, in order.
fn convert_cnf(grammar: &Grammar) -> (r: Vec<CNFRule>)
    ensures
        shapes(r@) == cnf_rules(grammar.rules@),
{
    let ghost g = grammar.rules@;
    let mut result: Vec<CNFRule> = Vec::new();
    let mut i: usize = 0;
    while i < grammar.rules.len()
        invariant
            g == grammar.rules@,
            i <= g.len(),
            shapes(result@) == cnf_rules(g.subrange(0, i as int)),
        decreases g.len() - i,
    {
        let rule = &grammar.rules[i];
        assert(g.subrange(0, i + 1).drop_last() =~= g.subrange(0, i as int));
        assert(g.subrange(0, i + 1).last() == *rule);
        if rule.rhs.len() == 1 {
            match &rule.rhs[0] {
                Symbol::Terminal(t) => {
                    result.push(CNFRule::Unary { lhs: rule.lhs.0.clone(), rhs: t.0.clone() });
                },
                Symbol::NonTerminal(_) => {},
            }
        } else if rule.rhs.len() == 2 {
            match (&rule.rhs[0], &rule.rhs[1]) {
                (Symbol::NonTerminal(first), Symbol::NonTerminal(second)) => {
                    result.push(
                        CNFRule::Binary { lhs: rule.lhs.0.clone(), first: first.0.clone(), second: second.0.clone() },
                    );
                },
                _ => {},
            }
        }
        assert(shapes(result@) =~= cnf_rules(g.subrange(0, i + 1)));
        i = i + 1;
    }
    assert(g.subrange(0, g.len() as int) =~= g);
    result
}

/// The nonterminals with a unary rule for `word`, each once.
fn base_cell(rules: &Vec<CNFRule>, word: &String) -> (cell: Vec<String>)
    ensures
        cell_no_dups(cell@),
        forall|x: Seq<char>| #[trigger] cell_has(cell@, x) <==> exists|r: int| 0 <= r < rules@.len() && shapes(rules@)[r] == CnfShape::Unary(x, word@),
{
    let ghost rs = shapes(rules@);
    let mut cell: Vec<String> = Vec::new();
    let mut r: usize = 0;
    while r < rules.len()
        invariant
            rs == shapes(rules@),
            r <= rules@.len(),
            cell_no_dups(cell@),
            forall|x: Seq<char>| #[trigger] cell_has(cell@, x) <==> exists|q: int| 0 <= q < r && rs[q] == CnfShape::Unary(x, word@),
        decreases rules@.len() - r,
    {
        let ghost before = cell@;
        match &rules[r] {
            CNFRule::Unary { lhs, rhs } => {
                if *rhs == *word {
                    insert_text(&mut cell, lhs);
                }
            },
            CNFRule::Binary { .. } => {},
        }
        assert forall|x: Seq<char>| #[trigger] cell_has(cell@, x) <==> exists|q: int| 0 <= q < r + 1 && rs[q] == CnfShape::Unary(x, word@) by {
            if rs[r as int] == CnfShape::Unary(x, word@) {
                assert(cell_has(cell@, x));
            }
            if exists|q: int| 0 <= q < r + 1 && rs[q] == CnfShape::Unary(x, word@) {
                let q = choose|q: int| 0 <= q < r + 1 && rs[q] == CnfShape::Unary(x, word@);
                if q < r {
                    assert(cell_has(before, x));
                }
            }
        }
        r = r + 1;
    }
    cell
}

/// Some binary rule among the first `r` derives `a` over the span at `s` of
/// length `len`, its first part having length `p`.
pub open spec fn binary_upto(rules: Seq<CnfShape>, w: Seq<Seq<char>>, a: Seq<char>, s: int, len: int, p: int, r: int) -> bool {
    exists|q: int| 0 <= q < r && #[trigger] binary_for(rules[q], a)
        && derives(rules, w, rules[q]->Binary_1, s, p) && derives(rules, w, rules[q]->Binary_2, s + p, len - p)
}

/// Cell `(l, s)` for `l >= 1`, from the final rows `0..l`: every binary rule
/// at every split point whose two parts derive.
fn combined_cell(rules: &Vec<CNFRule>, table: &Vec<Vec<Vec<String>>>, l: usize, s: usize, Ghost(w): Ghost<Seq<Seq<char>>>) -> (cell: Vec<String>)
    requires
        rows_final(shapes(rules@), w, table@, l as int),
        1 <= l,
        s + l < w.len(),
        w.len() <= usize::MAX,
    ensures
        cell_final(shapes(rules@), w, cell@, l as int, s as int),
{
    let ghost rs = shapes(rules@);
    let ghost len = l + 1;
    let mut cell: Vec<String> = Vec::new();
    let mut p: usize = 1;
    while p <= l
        invariant
            rs == shapes(rules@),
            rows_final(rs, w, table@, l as int),
            1 <= l,
            s + l < w.len(),
            w.len() <= usize::MAX,
            len == l + 1,
            1 <= p <= l + 1,
            cell_no_dups(cell@),
            forall|x: Seq<char>| #[trigger] cell_has(cell@, x) <==> splits(rs, w, x, s as int, len, p - 1),
        decreases l + 1 - p,
    {
        let mut r: usize = 0;
        assert(table@[p - 1]@.len() == w.len() && table@[l - p]@.len() == w.len());
        assert(cell_final(rs, w, table@[p - 1]@[s as int]@, p - 1, s as int));
        assert(cell_final(rs, w, table@[l - p]@[s + p]@, l - p, s + p));
        while r < rules.len()
            invariant
                rs == shapes(rules@),
                rows_final(rs, w, table@, l as int),
                s + l < w.len(),
                w.len() <= usize::MAX,
                len == l + 1,
                1 <= p <= l,
                r <= rules@.len(),
                cell_final(rs, w, table@[p - 1]@[s as int]@, p - 1, s as int),
                cell_final(rs, w, table@[l - p]@[s + p]@, l - p, s + p),
                cell_no_dups(cell@),
                forall|x: Seq<char>| #[trigger] cell_has(cell@, x) <==> splits(rs, w, x, s as int, len, p - 1)
                    || binary_upto(rs, w, x, s as int, len, p as int, r as int),
            decreases rules@.len() - r,
        {
            let mut added = false;
            match &rules[r] {
                CNFRule::Binary { lhs, first, second } => {
                    if cell_contains(&table[p - 1][s], first) && cell_contains(&table[l - p][s + p], second) {
                        insert_text(&mut cell, lhs);
                        added = true;
                    }
                },
                CNFRule::Unary { .. } => {},
            }
            assert forall|x: Seq<char>| #[trigger] cell_has(cell@, x) <==> splits(rs, w, x, s as int, len, p - 1)
                || binary_upto(rs, w, x, s as int, len, p as int, r + 1) by {
                if binary_upto(rs, w, x, s as int, len, p as int, r + 1) {
                    let q = choose|q: int| 0 <= q < r + 1 && #[trigger] binary_for(rs[q], x)
                        && derives(rs, w, rs[q]->Binary_1, s as int, p as int) && derives(rs, w, rs[q]->Binary_2, s + p, len - p);
                    if q < r {
                        assert(binary_upto(rs, w, x, s as int, len, p as int, r as int));
                    } else {
                        assert(cell_has(table@[p - 1]@[s as int]@, rs[q]->Binary_1));
                        assert(cell_has(table@[l - p]@[s + p]@, rs[q]->Binary_2));
                        assert(added);
                    }
                }
                if added && x == rs[r as int]->Binary_0 {
                    assert(binary_for(rs[r as int], x));
                }
            }
            r = r + 1;
        }
        p = p + 1;
    }
    cell
}

/// The CYK recognition table of `input`: `table[l][s]` holds, once each, the
/// nonterminals that derive the `l + 1` tokens starting at `s` through the
/// grammar's CNF-shaped rules; the other rules are left out. Rows are filled in
/// increasing length, so each cell is computed from final shorter ones.
pub fn parse(grammar: &Grammar, input: &[&str]) -> (table: Vec<Vec<Vec<String>>>)
    ensures
        table@.len() == input@.len(),
        rows_final(cnf_rules(grammar.rules@), words(input@), table@, input@.len() as int),
{
    let rules = convert_cnf(grammar);
    let ghost rs = shapes(rules@);
    let ghost w = words(input@);
    let n = input.len();
    let mut table: Vec<Vec<Vec<String>>> = Vec::new();
    let mut l: usize = 0;
    while l < n
        invariant
            rs == shapes(rules@),
            rs == cnf_rules(grammar.rules@),
            w == words(input@),
            n == w.len(),
            l <= n,
            table@.len() == l,
            rows_final(rs, w, table@, l as int),
        decreases n - l,
    {
        let mut row: Vec<Vec<String>> = Vec::new();
        let mut s: usize = 0;
        while s < n
            invariant
                rs == shapes(rules@),
                w == words(input@),
                n == w.len(),
                l < n,
                s <= n,
                table@.len() == l,
                rows_final(rs, w, table@, l as int),
                row@.len() == s,
                forall|t: int| 0 <= t < s ==> cell_final(rs, w, #[trigger] row@[t]@, l as int, t),
            decreases n - s,
        {
            let cell = if l >= n - s {
                let empty: Vec<String> = Vec::new();
                empty
            } else if l == 0 {
                let word: String = input[s].to_owned();
                let cell = base_cell(&rules, &word);
                assert forall|x: Seq<char>| #[trigger] cell_has(cell@, x) <==> (s + l < w.len() && derives(rs, w, x, s as int, l + 1)) by {}
                cell
            } else {
                combined_cell(&rules, &table, l, s, Ghost(w))
            };
            row.push(cell);
            s = s + 1;
        }
        let ghost before = table@;
        table.push(row);
        assert forall|k: int| 0 <= k < l implies #[trigger] table@[k] == before[k] by {}
        l = l + 1;
    }
    table
}

/// Whether the table accepts its input: the grammar's start symbol derives the
/// whole input, i.e. stands in the cell of length `n` at position 0.
pub fn accepts(grammar: &Grammar, table: &Vec<Vec<Vec<String>>>) -> (r: bool)
    requires
        forall|l: int| 0 <= l < table@.len() ==> #[trigger] table@[l]@.len() == table@.len(),
    ensures
        r == (table@.len() > 0 && match grammar.start_symbol {
            Some(start) => cell_has(table@[table@.len() - 1]@[0]@, start.0@),
            None => false,
        }),
{
    let n = table.len();
    if n == 0 {
        return false;
    }
    assert(table@[n - 1]@.len() == n);
    match &grammar.start_symbol {
        Some(start) => cell_contains(&table[n - 1][0], &start.0),
        None => false,
    }
}

} // verus!
