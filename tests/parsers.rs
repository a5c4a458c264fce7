use chart_parsers::common::{parse_bnf, tokenize, Grammar, NonTerminalSymbol, Rule, Symbol, TerminalSymbol};
use chart_parsers::cyk;
use chart_parsers::earley::{self, Reason, State};

fn token_refs(tokens: &[String]) -> Vec<&str> {
    tokens.iter().map(|t| t.as_str()).collect()
}

fn earley_chart(bnf: &str, input: &str) -> (Grammar, Vec<Vec<State>>, Vec<String>) {
    let grammar = parse_bnf(bnf);
    let tokens = tokenize(input);
    let chart = earley::parse(&grammar.rules, &token_refs(&tokens));
    (grammar, chart, tokens)
}

fn earley_accepts(bnf: &str, input: &str) -> bool {
    let (grammar, chart, tokens) = earley_chart(bnf, input);
    assert_eq!(chart.len(), tokens.len() + 1);
    earley::accepts(&grammar.rules, &chart)
}

fn cyk_table(bnf: &str, input: &str) -> (Grammar, Vec<Vec<Vec<String>>>) {
    let grammar = parse_bnf(bnf);
    let tokens = tokenize(input);
    let table = cyk::parse(&grammar, &token_refs(&tokens));
    (grammar, table)
}

fn cyk_accepts(bnf: &str, input: &str) -> bool {
    let (grammar, table) = cyk_table(bnf, input);
    cyk::accepts(&grammar, &table)
}

fn nt(s: &str) -> NonTerminalSymbol {
    NonTerminalSymbol(s.to_owned())
}

fn st(rule: usize, dot: usize, origin: usize, reason: Reason) -> State {
    State { rule, dot, origin, reason }
}

const SLEEP: &str = "S NP VP\nNP I\nVP sleep";

#[test]
fn test_parse_bnf() {
    assert_eq!(
        parse_bnf("S\nS NP VP"),
        Grammar::new(vec![
            Rule {
                lhs: NonTerminalSymbol("S".to_owned()),
                rhs: vec![]
            },
            Rule {
                lhs: NonTerminalSymbol("S".to_owned()),
                rhs: vec![
                    Symbol::Terminal(TerminalSymbol("NP".to_owned())),
                    Symbol::Terminal(TerminalSymbol("VP".to_owned()))
                ]
            }
        ])
    );
}

#[test]
fn parse_bnf_classifies_by_left_hand_sides() {
    let g = parse_bnf("S NP VP\n\n   \nNP I\r\nVP\tsleep  \n");
    assert_eq!(g.rules.len(), 3);
    assert_eq!(g.start_symbol, Some(nt("S")));
    assert_eq!(
        g.rules[0].rhs,
        vec![Symbol::NonTerminal(nt("NP")), Symbol::NonTerminal(nt("VP"))]
    );
    assert_eq!(g.rules[1].lhs, nt("NP"));
    assert_eq!(g.rules[1].rhs, vec![Symbol::Terminal(TerminalSymbol("I".to_owned()))]);
    assert_eq!(g.rules[2].rhs, vec![Symbol::Terminal(TerminalSymbol("sleep".to_owned()))]);
}

#[test]
fn parse_bnf_empty_text_gives_empty_grammar() {
    let g = parse_bnf("");
    assert!(g.rules.is_empty());
    assert_eq!(g.start_symbol, None);
    let g = parse_bnf(" \n\t\n");
    assert!(g.rules.is_empty());
}

#[test]
fn parse_bnf_lone_left_hand_side_is_epsilon() {
    let g = parse_bnf("S A B\nA\nB x");
    assert_eq!(g.rules[1].lhs, nt("A"));
    assert!(g.rules[1].rhs.is_empty());
}

#[test]
fn tokenize_splits_on_whitespace_runs() {
    assert_eq!(tokenize("  I   sleep \n"), vec!["I".to_owned(), "sleep".to_owned()]);
    assert_eq!(tokenize("a\u{3000}b\tc"), vec!["a".to_owned(), "b".to_owned(), "c".to_owned()]);
    assert!(tokenize("").is_empty());
    assert!(tokenize(" \n ").is_empty());
}

#[test]
fn symbol_queries() {
    let t = Symbol::Terminal(TerminalSymbol("x".to_owned()));
    let n = Symbol::NonTerminal(nt("A"));
    assert!(t.is_terminal() && !t.is_non_terminal());
    assert!(n.is_non_terminal() && !n.is_terminal());
    assert_eq!(t.as_str(), "x");
    assert_eq!(n.as_str(), "A");
    assert_eq!(nt("B").as_str(), "B");
    assert_eq!(TerminalSymbol("y".to_owned()).as_str(), "y");
}

#[test]
fn grammar_new_takes_start_from_first_rule() {
    let g = Grammar::new(vec![Rule { lhs: nt("S"), rhs: vec![] }, Rule { lhs: nt("T"), rhs: vec![] }]);
    assert_eq!(g.start_symbol, Some(nt("S")));
    assert_eq!(Grammar::new(vec![]).start_symbol, None);
}

#[test]
fn is_cnf_checks_rule_shapes() {
    assert!(parse_bnf(SLEEP).is_cnf());
    assert!(parse_bnf("S\nS A B\nA a\nB b").is_cnf());
    assert!(!parse_bnf("S A B\nA\nB x").is_cnf());
    assert!(!parse_bnf("S a b c").is_cnf());
    assert!(!parse_bnf("S A\nA a").is_cnf());
    assert!(!parse_bnf("S a B\nB b").is_cnf());
    assert!(Grammar::new(vec![]).is_cnf());
}

#[test]
fn example_sleep_accepted_by_earley() {
    assert!(earley_accepts(SLEEP, "I sleep"));
}

#[test]
fn example_sleep_accepted_by_cyk() {
    assert!(cyk_accepts(SLEEP, "I sleep"));
}

#[test]
fn example_eat_rejected_by_both() {
    assert!(!earley_accepts(SLEEP, "I eat"));
    assert!(!cyk_accepts(SLEEP, "I eat"));
}

#[test]
fn example_epsilon_rule_accepted_by_earley() {
    assert!(earley_accepts("S A B\nA\nB x", "x"));
    assert!(!earley_accepts("S A B\nA\nB x", "x x"));
}

#[test]
fn example_long_rule_ignored_by_cyk_used_by_earley() {
    let bnf = "S A B C\nA a\nB b\nC c";
    assert!(earley_accepts(bnf, "a b c"));
    assert!(!cyk_accepts(bnf, "a b c"));
    let (_, table) = cyk_table(bnf, "a b c");
    assert!(table[2][0].is_empty());
    assert_eq!(table[0][0], vec!["A".to_owned()]);
}

#[test]
fn example_empty_input() {
    assert!(earley_accepts("S", ""));
    assert!(!earley_accepts("S x", ""));
    assert!(!cyk_accepts("S", ""));
}

#[test]
fn earley_chart_for_sleep_is_exact() {
    let (_, chart, _) = earley_chart(SLEEP, "I sleep");
    assert_eq!(
        chart,
        vec![
            vec![
                st(0, 0, 0, Reason::Initial),
                st(1, 0, 0, Reason::Predict { from_position: 0, from_state: 1, from_rule: 2 }),
            ],
            vec![
                st(1, 1, 0, Reason::Scan { from_position: 0, from_state: 2 }),
                st(0, 1, 0, Reason::Complete { from_position: 1, from_state: 1, with_position: 0, with_state: 1 }),
                st(2, 0, 1, Reason::Predict { from_position: 1, from_state: 2, from_rule: 3 }),
            ],
            vec![
                st(2, 1, 1, Reason::Scan { from_position: 1, from_state: 3 }),
                st(0, 2, 0, Reason::Complete { from_position: 2, from_state: 1, with_position: 1, with_state: 2 }),
            ],
        ]
    );
}

#[test]
fn earley_sets_hold_no_repeated_identity() {
    // Ambiguous grammar: the same items are derived along several paths.
    let (_, chart, _) = earley_chart("S S S\nS a\nS", "a a a");
    assert_eq!(chart.len(), 4);
    for set in &chart {
        for (i, a) in set.iter().enumerate() {
            for b in &set[i + 1..] {
                assert!((a.rule, a.dot, a.origin) != (b.rule, b.dot, b.origin));
            }
        }
    }
    assert!(earley_accepts("S S S\nS a\nS", "a a a"));
}

#[test]
fn earley_scanned_states_match_their_token() {
    let (grammar, chart, tokens) = earley_chart("S A b\nA a\nA a a", "a b");
    let mut scans = 0;
    for set in &chart {
        for state in set {
            if let Reason::Scan { .. } = state.reason {
                scans += 1;
                let rhs = &grammar.rules[state.rule].rhs;
                let consumed = state.origin + state.dot - 1;
                assert!(rhs[state.dot - 1].is_terminal());
                assert_eq!(rhs[state.dot - 1].as_str(), tokens[consumed]);
            }
        }
    }
    assert!(scans >= 2);
    assert!(earley_accepts("S A b\nA a\nA a a", "a b"));
}

#[test]
fn earley_rejects_prefix_and_extra_tokens() {
    assert!(!earley_accepts(SLEEP, "I"));
    assert!(!earley_accepts(SLEEP, "I sleep sleep"));
}

#[test]
fn cyk_table_for_sleep_is_exact() {
    let (_, table) = cyk_table(SLEEP, "I sleep");
    assert_eq!(
        table,
        vec![
            vec![vec!["NP".to_owned()], vec!["VP".to_owned()]],
            vec![vec!["S".to_owned()], vec![]],
        ]
    );
}

#[test]
fn cyk_cells_hold_each_nonterminal_once() {
    let (_, table) = cyk_table("S A A\nA a\nA a\nA A A", "a a a");
    for row in &table {
        for cell in row {
            for (i, x) in cell.iter().enumerate() {
                assert!(!cell[i + 1..].contains(x));
            }
        }
    }
    assert_eq!(table[0][0], vec!["A".to_owned()]);
    assert_eq!(table[1][0], vec!["S".to_owned(), "A".to_owned()]);
    assert!(table[2][0].contains(&"S".to_owned()));
}

#[test]
fn cyk_longer_input_uses_all_split_points() {
    let bnf = "S NP VP\nVP V NP\nNP she\nNP fish\nV eats";
    assert!(cyk_accepts(bnf, "she eats fish"));
    assert!(earley_accepts(bnf, "she eats fish"));
    assert!(!cyk_accepts(bnf, "she fish eats"));
    assert!(!earley_accepts(bnf, "she fish eats"));
}

#[test]
fn rule_to_string_shows_arrow_and_symbols() {
    let g = parse_bnf("S NP VP\nNP I\nA");
    assert_eq!(g.rules[0].to_string(), "S → NP VP");
    assert_eq!(g.rules[1].to_string(), "NP → I");
    assert_eq!(g.rules[2].to_string(), "A →");
}

#[test]
fn state_to_string_marks_the_dot_and_origin() {
    let g = parse_bnf(SLEEP);
    assert_eq!(st(0, 0, 0, Reason::Initial).to_string(&g.rules), "(S →·NP VP, 0)");
    assert_eq!(st(0, 1, 0, Reason::Initial).to_string(&g.rules), "(S → NP·VP, 0)");
    assert_eq!(st(0, 2, 0, Reason::Initial).to_string(&g.rules), "(S → NP VP·, 0)");
    assert_eq!(st(2, 0, 12, Reason::Initial).to_string(&g.rules), "(VP →·sleep, 12)");
    let e = parse_bnf("A");
    assert_eq!(st(0, 0, 305, Reason::Initial).to_string(&e.rules), "(A →·, 305)");
}
