use vstd::prelude::*;

use vstd::arithmetic::div_mod::lemma_fundamental_div_mod_converse;
use vstd::set_lib::{lemma_int_range, lemma_len_subset, set_int_range};
use vstd::string::StringExecFns;

use crate::common::{is_nonterminal_named, lhs_text, symbol_text, Rule, Symbol};

verus! {

/// Why a state was added to the chart. Positions are chart columns; state
/// and rule numbers count from 1 within their column or grammar.
#[derive(Debug, Clone, Copy, PartialEq, Eq, Structural)]
pub enum Reason {
    Initial,
    Predict { from_position: usize, from_state: usize, from_rule: usize },
    Scan { from_position: usize, from_state: usize },
    Complete { from_position: usize, from_state: usize, with_position: usize, with_state: usize },
}

/// An Earley item: the rule at index `rule` of the grammar, matched up to `dot`,
/// having started at input position `origin`. Its identity is the triple
/// `(rule, dot, origin)`; `reason` is provenance only.
#[derive(Debug, Clone, Copy, PartialEq, Eq, Structural)]
pub struct State {
    pub rule: usize,
    pub dot: usize,
    pub origin: usize,
    pub reason: Reason,
}

/// The right-hand side of the state's rule.
pub open spec fn rhs_of(g: Seq<Rule>, st: State) -> Seq<Symbol> {
    g[st.rule as int].rhs@
}

/// The symbol right after the dot, if the rule is not fully matched.
pub open spec fn next_symbol(g: Seq<Rule>, st: State) -> Option<Symbol> {
    if st.dot < rhs_of(g, st).len() {
        Some(rhs_of(g, st)[st.dot as int])
    } else {
        None
    }
}

/// The state's rule is fully matched.
pub open spec fn is_completed(g: Seq<Rule>, st: State) -> bool {
    st.dot >= rhs_of(g, st).len()
}

/// The state waits for the nonterminal `name` right after its dot.
pub open spec fn awaits(g: Seq<Rule>, st: State, name: Seq<char>) -> bool {
    st.dot < rhs_of(g, st).len() && is_nonterminal_named(rhs_of(g, st)[st.dot as int], name)
}

/// The state's next symbol is a terminal equal to the token at index `origin + dot`.
pub open spec fn token_matches(g: Seq<Rule>, input: Seq<&str>, st: State) -> bool {
    &&& st.dot < rhs_of(g, st).len()
    &&& rhs_of(g, st)[st.dot as int] is Terminal
    &&& st.origin + st.dot < input.len()
    &&& input[st.origin + st.dot]@ == symbol_text(rhs_of(g, st)[st.dot as int])
}

/// The state has the identity `(rule, dot, origin)`.
pub open spec fn is_item(st: State, rule: int, dot: int, origin: int) -> bool {
    st.rule == rule && st.dot == dot && st.origin == origin
}

pub open spec fn same_item(a: State, b: State) -> bool {
    is_item(a, b.rule as int, b.dot as int, b.origin as int)
}

/// The state set holds a state with identity `(rule, dot, origin)`.
pub open spec fn has_item(set: Seq<State>, rule: int, dot: int, origin: int) -> bool {
    exists|i: int| 0 <= i < set.len() && #[trigger] is_item(set[i], rule, dot, origin)
}

/// A batch of `(position, state)` pairs holds one with that position and identity.
pub open spec fn has_pending(batch: Seq<(usize, State)>, p: int, rule: int, dot: int, origin: int) -> bool {
    exists|i: int| 0 <= i < batch.len() && batch[i].0 == p && #[trigger] is_item(batch[i].1, rule, dot, origin)
}

/// The identity is in column `p` of the chart or waits in the batch.
pub open spec fn present(chart: Seq<Vec<State>>, batch: Seq<(usize, State)>, p: int, rule: int, dot: int, origin: int) -> bool {
    has_item(chart[p]@, rule, dot, origin) || has_pending(batch, p, rule, dot, origin)
}

/// A state that may stand in column `k`.
pub open spec fn state_wf(g: Seq<Rule>, k: int, st: State) -> bool {
    &&& st.rule < g.len()
    &&& st.dot <= rhs_of(g, st).len()
    &&& st.origin <= k
}

/// A chart of `n + 1` columns holding well-formed states.
pub open spec fn chart_wf(g: Seq<Rule>, n: int, chart: Seq<Vec<State>>) -> bool {
    &&& chart.len() == n + 1
    &&& forall|k: int, i: int| 0 <= k < chart.len() && 0 <= i < chart[k]@.len() ==> state_wf(g, k, #[trigger] chart[k]@[i])
}

/// No two states of the set share `(rule, dot, origin)`.
pub open spec fn no_dup_items(set: Seq<State>) -> bool {
    forall|i: int, j: int| 0 <= i < set.len() && 0 <= j < set.len() && i != j ==> !same_item(#[trigger] set[i], #[trigger] set[j])
}

pub open spec fn chart_no_dups(chart: Seq<Vec<State>>) -> bool {
    forall|k: int| 0 <= k < chart.len() ==> no_dup_items(#[trigger] chart[k]@)
}

/// Prediction from `st` in column `k` has nothing left to add.
pub open spec fn predict_closed(g: Seq<Rule>, chart: Seq<Vec<State>>, batch: Seq<(usize, State)>, k: int, st: State) -> bool {
    match next_symbol(g, st) {
        Some(Symbol::NonTerminal(a)) => forall|r: int| 0 <= r < g.len() && #[trigger] lhs_text(g[r]) == a.0@ ==> present(chart, batch, k, r, 0, k),
        _ => true,
    }
}

/// Scanning `st` in column `k` has nothing left to add.
pub open spec fn scan_closed(g: Seq<Rule>, input: Seq<&str>, chart: Seq<Vec<State>>, batch: Seq<(usize, State)>, k: int, st: State) -> bool {
    token_matches(g, input, st) && k + 1 < chart.len() ==> present(chart, batch, k + 1, st.rule as int, st.dot + 1, st.origin as int)
}

/// Completion by `st` in column `k` has nothing left to add.
pub open spec fn complete_closed(g: Seq<Rule>, chart: Seq<Vec<State>>, batch: Seq<(usize, State)>, k: int, st: State) -> bool {
    is_completed(g, st) ==> forall|j: int| 0 <= j < chart[st.origin as int]@.len() && awaits(g, #[trigger] chart[st.origin as int]@[j], lhs_text(g[st.rule as int]))
        ==> present(chart, batch, k, chart[st.origin as int]@[j].rule as int, chart[st.origin as int]@[j].dot + 1, chart[st.origin as int]@[j].origin as int)
}

pub open spec fn state_closed(g: Seq<Rule>, input: Seq<&str>, chart: Seq<Vec<State>>, batch: Seq<(usize, State)>, k: int, st: State) -> bool {
    &&& predict_closed(g, chart, batch, k, st)
    &&& scan_closed(g, input, chart, batch, k, st)
    &&& complete_closed(g, chart, batch, k, st)
}

/// Every state of columns before `upto` is closed under predict, scan and
/// complete, counting what waits in the batch as present.
pub open spec fn closed_upto(g: Seq<Rule>, input: Seq<&str>, chart: Seq<Vec<State>>, batch: Seq<(usize, State)>, upto: int) -> bool {
    forall|k: int, i: int| 0 <= k < upto && 0 <= i < chart[k]@.len() ==> state_closed(g, input, chart, batch, k, #[trigger] chart[k]@[i])
}

/// The chart is a fixpoint: predict, scan and complete add nothing to it.
pub open spec fn closed(g: Seq<Rule>, input: Seq<&str>, chart: Seq<Vec<State>>) -> bool {
    closed_upto(g, input, chart, Seq::empty(), chart.len() as int)
}

/// The state, standing in column `k`, follows by its reason from states of the
/// chart that come before it: earlier columns, or in column `k` indices below `bound`.
pub open spec fn justified(g: Seq<Rule>, input: Seq<&str>, chart: Seq<Vec<State>>, k: int, bound: int, st: State) -> bool {
    match st.reason {
        Reason::Initial => k == 0 && is_item(st, 0, 0, 0),
        Reason::Predict { from_position, from_state, from_rule } => {
            &&& from_position == k
            &&& 1 <= from_state <= bound
            &&& from_rule == st.rule + 1
            &&& st.dot == 0
            &&& st.origin == k
            &&& awaits(g, chart[k]@[from_state - 1], lhs_text(g[st.rule as int]))
        },
        Reason::Scan { from_position, from_state } => {
            &&& from_position + 1 == k
            &&& 1 <= from_state <= chart[from_position as int]@.len()
            &&& token_matches(g, input, chart[from_position as int]@[from_state - 1])
            &&& is_item(
                st,
                chart[from_position as int]@[from_state - 1].rule as int,
                chart[from_position as int]@[from_state - 1].dot + 1,
                chart[from_position as int]@[from_state - 1].origin as int,
            )
        },
        Reason::Complete { from_position, from_state, with_position, with_state } => {
            &&& from_position == k
            &&& 1 <= from_state <= bound
            &&& is_completed(g, chart[k]@[from_state - 1])
            &&& with_position == chart[k]@[from_state - 1].origin
            &&& 1 <= with_state <= chart[with_position as int]@.len()
            &&& (with_position == k ==> with_state <= bound)
            &&& awaits(
                g,
                chart[with_position as int]@[with_state - 1],
                lhs_text(g[chart[k]@[from_state - 1].rule as int]),
            )
            &&& is_item(
                st,
                chart[with_position as int]@[with_state - 1].rule as int,
                chart[with_position as int]@[with_state - 1].dot + 1,
                chart[with_position as int]@[with_state - 1].origin as int,
            )
        },
    }
}

/// Every state follows by its reason from states that precede it in the chart.
pub open spec fn sound(g: Seq<Rule>, input: Seq<&str>, chart: Seq<Vec<State>>) -> bool {
    forall|k: int, i: int| 0 <= k < chart.len() && 0 <= i < chart[k]@.len() ==> justified(g, input, chart, k, i, #[trigger] chart[k]@[i])
}

/// A batch of new states for the chart: each fits its column, is absent from
/// it, follows from states already there, and no two share column and identity.
pub open spec fn fresh_batch(g: Seq<Rule>, input: Seq<&str>, chart: Seq<Vec<State>>, batch: Seq<(usize, State)>) -> bool {
    &&& forall|b: int| 0 <= b < batch.len() ==> {
        let (p, st) = #[trigger] batch[b];
        &&& p < chart.len()
        &&& state_wf(g, p as int, st)
        &&& !has_item(chart[p as int]@, st.rule as int, st.dot as int, st.origin as int)
        &&& justified(g, input, chart, p as int, chart[p as int]@.len() as int, st)
    }
    &&& forall|a: int, b: int| 0 <= a < batch.len() && 0 <= b < batch.len() && a != b && batch[a].0 == batch[b].0
        ==> !same_item(#[trigger] batch[a].1, #[trigger] batch[b].1)
}

impl State {
    fn new(rule: usize, origin: usize, reason: Reason) -> (st: State)
        ensures
            st == (State { rule, dot: 0, origin, reason }),
    {
        State { rule, dot: 0, origin, reason }
    }

    fn dotted_symbol<'g>(&self, grammar: &'g [Rule]) -> (r: Option<&'g Symbol>)
        requires
            self.rule < grammar@.len(),
        ensures
            match r {
                Some(s) => next_symbol(grammar@, *self) == Some(*s),
                None => next_symbol(grammar@, *self) is None,
            },
    {
        let rhs = &grammar[self.rule].rhs;
        if self.dot < rhs.len() {
            Some(&rhs[self.dot])
        } else {
            None
        }
    }

    fn advanced(&self, grammar: &[Rule], reason: Reason) -> (r: Option<State>)
        requires
            self.rule < grammar@.len(),
        ensures
            self.dot < rhs_of(grammar@, *self).len() ==> r is Some && r->0.dot == self.dot + 1 && r->0.rule == self.rule
                && r->0.origin == self.origin && r->0.reason == reason,
            self.dot >= rhs_of(grammar@, *self).len() ==> r is None,
    {
        if self.dot < grammar[self.rule].rhs.len() {
            Some(State { dot: self.dot + 1, reason, ..*self })
        } else {
            None
        }
    }
}

/// `new` keeps `old` as its prefix.
pub open spec fn extends<T>(old: Seq<T>, new: Seq<T>) -> bool {
    old.len() <= new.len() && forall|i: int| 0 <= i < old.len() ==> #[trigger] new[i] == old[i]
}

proof fn lemma_present_grows(chart: Seq<Vec<State>>, old: Seq<(usize, State)>, new: Seq<(usize, State)>)
    requires
        extends(old, new),
    ensures
        forall|p: int, r: int, d: int, o: int| present(chart, old, p, r, d, o) ==> #[trigger] present(chart, new, p, r, d, o),
{
    assert forall|p: int, r: int, d: int, o: int| present(chart, old, p, r, d, o) implies #[trigger] present(chart, new, p, r, d, o) by {
        if has_pending(old, p, r, d, o) {
            let i = choose|i: int| 0 <= i < old.len() && old[i].0 == p && #[trigger] is_item(old[i].1, r, d, o);
            assert(new[i] == old[i]);
        }
    }
}

proof fn lemma_state_closed_grows(
    g: Seq<Rule>,
    input: Seq<&str>,
    chart: Seq<Vec<State>>,
    old: Seq<(usize, State)>,
    new: Seq<(usize, State)>,
    k: int,
    st: State,
)
    requires
        extends(old, new),
        state_closed(g, input, chart, old, k, st),
    ensures
        state_closed(g, input, chart, new, k, st),
{
    lemma_present_grows(chart, old, new);
}

proof fn lemma_closed_upto_grows(
    g: Seq<Rule>,
    input: Seq<&str>,
    chart: Seq<Vec<State>>,
    old: Seq<(usize, State)>,
    new: Seq<(usize, State)>,
    upto: int,
)
    requires
        extends(old, new),
        closed_upto(g, input, chart, old, upto),
    ensures
        closed_upto(g, input, chart, new, upto),
{
    assert forall|k: int, i: int| 0 <= k < upto && 0 <= i < chart[k]@.len() implies state_closed(g, input, chart, new, k, #[trigger] chart[k]@[i]) by {
        lemma_state_closed_grows(g, input, chart, old, new, k, chart[k]@[i]);
    }
}

/// Whether the set holds a state with the identity of `st`.
fn contains_item(set: &Vec<State>, st: &State) -> (r: bool)
    ensures
        r == has_item(set@, st.rule as int, st.dot as int, st.origin as int),
{
    let mut i: usize = 0;
    while i < set.len()
        invariant
            i <= set@.len(),
            forall|j: int| 0 <= j < i ==> !#[trigger] is_item(set@[j], st.rule as int, st.dot as int, st.origin as int),
        decreases set@.len() - i,
    {
        if set[i].rule == st.rule && set[i].dot == st.dot && set[i].origin == st.origin {
            assert(is_item(set@[i as int], st.rule as int, st.dot as int, st.origin as int));
            return true;
        }
        i = i + 1;
    }
    false
}

/// Whether the batch holds a state for column `p` with the identity of `st`.
fn pending_contains(batch: &Vec<(usize, State)>, p: usize, st: &State) -> (r: bool)
    ensures
        r == has_pending(batch@, p as int, st.rule as int, st.dot as int, st.origin as int),
{
    let mut i: usize = 0;
    while i < batch.len()
        invariant
            i <= batch@.len(),
            forall|j: int| 0 <= j < i ==> !(batch@[j].0 == p && #[trigger] is_item(batch@[j].1, st.rule as int, st.dot as int, st.origin as int)),
        decreases batch@.len() - i,
    {
        let (q, other) = batch[i];
        if q == p && other.rule == st.rule && other.dot == st.dot && other.origin == st.origin {
            assert(is_item(batch@[i as int].1, st.rule as int, st.dot as int, st.origin as int));
            return true;
        }
        i = i + 1;
    }
    false
}

/// Adds `st` for column `p` to the batch unless the chart or the batch holds its identity.
fn push_fresh(
    batch: &mut Vec<(usize, State)>,
    grammar: &[Rule],
    state_sets: &[Vec<State>],
    input: &[&str],
    p: usize,
    st: State,
)
    requires
        p < state_sets@.len(),
        state_wf(grammar@, p as int, st),
        justified(grammar@, input@, state_sets@, p as int, state_sets@[p as int]@.len() as int, st),
        fresh_batch(grammar@, input@, state_sets@, old(batch)@),
    ensures
        extends(old(batch)@, final(batch)@),
        fresh_batch(grammar@, input@, state_sets@, final(batch)@),
        present(state_sets@, final(batch)@, p as int, st.rule as int, st.dot as int, st.origin as int),
{
    if contains_item(&state_sets[p], &st) || pending_contains(batch, p, &st) {
        return;
    }
    batch.push((p, st));
    let ghost b = batch@;
    assert(is_item(b[b.len() - 1].1, st.rule as int, st.dot as int, st.origin as int));
    assert forall|x: int, y: int| 0 <= x < b.len() && 0 <= y < b.len() && x != y && b[x].0 == b[y].0
        implies !same_item(#[trigger] b[x].1, #[trigger] b[y].1) by {
        if y == b.len() - 1 && same_item(b[x].1, b[y].1) {
            assert(is_item(old(batch)@[x].1, st.rule as int, st.dot as int, st.origin as int));
        }
        if x == b.len() - 1 && same_item(b[x].1, b[y].1) {
            assert(is_item(old(batch)@[y].1, st.rule as int, st.dot as int, st.origin as int));
        }
    }
}

/// One round of the fixpoint: every state that predict, scan or complete
/// derives from the chart and that its column does not hold yet, each once.
/// `None` when there is none: the chart is then closed.
fn get_new_states(grammar: &[Rule], state_sets: &[Vec<State>], input: &[&str]) -> (r: Option<Vec<(usize, State)>>)
    requires
        chart_wf(grammar@, input@.len() as int, state_sets@),
    ensures
        match r {
            None => closed(grammar@, input@, state_sets@),
            Some(batch) => batch@.len() > 0 && fresh_batch(grammar@, input@, state_sets@, batch@),
        },
{
    let ghost g = grammar@;
    let ghost chart = state_sets@;
    let mut result: Vec<(usize, State)> = Vec::new();
    let mut position: usize = 0;
    while position < state_sets.len()
        invariant
            chart_wf(g, input@.len() as int, chart),
            g == grammar@,
            chart == state_sets@,
            position <= chart.len(),
            fresh_batch(g, input@, chart, result@),
            closed_upto(g, input@, chart, result@, position as int),
        decreases chart.len() - position,
    {
        let mut i_state: usize = 0;
        while i_state < state_sets[position].len()
            invariant
                chart_wf(g, input@.len() as int, chart),
                g == grammar@,
                chart == state_sets@,
                position < chart.len(),
                i_state <= chart[position as int]@.len(),
                fresh_batch(g, input@, chart, result@),
                closed_upto(g, input@, chart, result@, position as int),
                forall|i: int| 0 <= i < i_state ==> state_closed(g, input@, chart, result@, position as int, #[trigger] chart[position as int]@[i]),
            decreases chart[position as int]@.len() - i_state,
        {
            let state = state_sets[position][i_state];
            let from_state = i_state + 1;
            let ghost before = result@;
            assert(state_wf(g, position as int, chart[position as int]@[i_state as int]));
            match state.dotted_symbol(grammar) {
                Some(Symbol::NonTerminal(non_terminal)) => {
                    let mut i_rule: usize = 0;
                    while i_rule < grammar.len()
                        invariant
                            chart_wf(g, input@.len() as int, chart),
                            g == grammar@,
                            chart == state_sets@,
                            position < chart.len(),
                            i_state < chart[position as int]@.len(),
                            state == chart[position as int]@[i_state as int],
                            from_state == i_state + 1,
                            next_symbol(g, state) == Some(Symbol::NonTerminal(*non_terminal)),
                            i_rule <= g.len(),
                            extends(before, result@),
                            fresh_batch(g, input@, chart, result@),
                            forall|r: int| 0 <= r < i_rule && #[trigger] lhs_text(g[r]) == non_terminal.0@
                                ==> present(chart, result@, position as int, r, 0, position as int),
                        decreases g.len() - i_rule,
                    {
                        if grammar[i_rule].lhs.0 == non_terminal.0 {
                            let new_state = State::new(
                                i_rule,
                                position,
                                Reason::Predict { from_position: position, from_state, from_rule: i_rule + 1 },
                            );
                            let ghost mid = result@;
                            push_fresh(&mut result, grammar, state_sets, input, position, new_state);
                            proof {
                                lemma_present_grows(chart, mid, result@);
                            }
                        }
                        i_rule = i_rule + 1;
                    }
                },
                Some(Symbol::Terminal(terminal)) => {
                    if state.origin < input.len() && state.dot < input.len() - state.origin && position + 1 < state_sets.len() {
                        let token: String = input[state.origin + state.dot].to_owned();
                        if terminal.0 == token {
                            let advanced = state.advanced(grammar, Reason::Scan { from_position: position, from_state });
                            match advanced {
                                Some(new_state) => {
                                    push_fresh(&mut result, grammar, state_sets, input, position + 1, new_state);
                                },
                                None => {},
                            }
                        }
                    }
                },
                None => {
                    let origin = state.origin;
                    let mut j: usize = 0;
                    while j < state_sets[origin].len()
                        invariant
                            chart_wf(g, input@.len() as int, chart),
                            g == grammar@,
                            chart == state_sets@,
                            position < chart.len(),
                            i_state < chart[position as int]@.len(),
                            state == chart[position as int]@[i_state as int],
                            from_state == i_state + 1,
                            origin == state.origin,
                            origin <= position,
                            is_completed(g, state),
                            j <= chart[origin as int]@.len(),
                            extends(before, result@),
                            fresh_batch(g, input@, chart, result@),
                            forall|jj: int| 0 <= jj < j && awaits(g, #[trigger] chart[origin as int]@[jj], lhs_text(g[state.rule as int]))
                                ==> present(chart, result@, position as int, chart[origin as int]@[jj].rule as int,
                                    chart[origin as int]@[jj].dot + 1, chart[origin as int]@[jj].origin as int),
                        decreases chart[origin as int]@.len() - j,
                    {
                        let waiting = state_sets[origin][j];
                        assert(state_wf(g, origin as int, chart[origin as int]@[j as int]));
                        match waiting.dotted_symbol(grammar) {
                            Some(Symbol::NonTerminal(lhs)) => {
                                if lhs.0 == grammar[state.rule].lhs.0 {
                                    let advanced = waiting.advanced(
                                        grammar,
                                        Reason::Complete {
                                            from_position: position,
                                            from_state,
                                            with_position: origin,
                                            with_state: j + 1,
                                        },
                                    );
                                    match advanced {
                                        Some(new_state) => {
                                            let ghost mid = result@;
                                            push_fresh(&mut result, grammar, state_sets, input, position, new_state);
                                            proof {
                                                lemma_present_grows(chart, mid, result@);
                                            }
                                        },
                                        None => {},
                                    }
                                }
                            },
                            _ => {},
                        }
                        j = j + 1;
                    }
                },
            }
            proof {
                lemma_closed_upto_grows(g, input@, chart, before, result@, position as int);
                assert forall|i: int| 0 <= i <= i_state implies state_closed(g, input@, chart, result@, position as int, #[trigger] chart[position as int]@[i]) by {
                    if i < i_state {
                        lemma_state_closed_grows(g, input@, chart, before, result@, position as int, chart[position as int]@[i]);
                    }
                }
            }
            i_state = i_state + 1;
        }
        position = position + 1;
    }
    if result.len() == 0 {
        assert(result@ =~= Seq::<(usize, State)>::empty());
        None
    } else {
        Some(result)
    }
}

/// The length of the longest right-hand side of the grammar.
pub open spec fn max_rhs_len(g: Seq<Rule>) -> nat
    decreases g.len(),
{
    if g.len() == 0 {
        0
    } else if g.last().rhs@.len() > max_rhs_len(g.drop_last()) {
        g.last().rhs@.len()
    } else {
        max_rhs_len(g.drop_last())
    }
}

/// How many states the chart holds over all its columns.
pub open spec fn total_states(chart: Seq<Vec<State>>) -> nat
    decreases chart.len(),
{
    if chart.len() == 0 {
        0
    } else {
        total_states(chart.drop_last()) + chart.last()@.len()
    }
}

/// How many distinct identities a column of a chart over `n` tokens can hold.
pub open spec fn column_capacity(g: Seq<Rule>, n: int) -> int {
    g.len() * (max_rhs_len(g) + 1) * (n + 1)
}

proof fn lemma_max_rhs_len(g: Seq<Rule>)
    ensures
        forall|r: int| 0 <= r < g.len() ==> #[trigger] g[r].rhs@.len() <= max_rhs_len(g),
    decreases g.len(),
{
    if g.len() > 0 {
        lemma_max_rhs_len(g.drop_last());
        assert forall|r: int| 0 <= r < g.len() implies #[trigger] g[r].rhs@.len() <= max_rhs_len(g) by {
            if r < g.len() - 1 {
                assert(g.drop_last()[r] == g[r]);
            }
        }
    }
}

spec fn item_code(st: State, dots: int, cols: int) -> int {
    (st.rule * dots + st.dot) * cols + st.origin
}

proof fn lemma_code_injective(a: State, b: State, dots: int, cols: int)
    requires
        dots > 0,
        cols > 0,
        a.dot < dots,
        b.dot < dots,
        a.origin < cols,
        b.origin < cols,
        item_code(a, dots, cols) == item_code(b, dots, cols),
    ensures
        same_item(a, b),
{
    let x = item_code(a, dots, cols);
    lemma_fundamental_div_mod_converse(x, cols, a.rule * dots + a.dot, a.origin as int);
    lemma_fundamental_div_mod_converse(x, cols, b.rule * dots + b.dot, b.origin as int);
    let y = a.rule * dots + a.dot;
    lemma_fundamental_div_mod_converse(y, dots, a.rule as int, a.dot as int);
    lemma_fundamental_div_mod_converse(y, dots, b.rule as int, b.dot as int);
}

proof fn lemma_code_bound(st: State, rules: int, dots: int, cols: int)
    requires
        st.rule < rules,
        st.dot < dots,
        st.origin < cols,
    ensures
        0 <= item_code(st, dots, cols) < rules * dots * cols,
{
    let r = st.rule as int;
    let d = st.dot as int;
    let o = st.origin as int;
    assert(0 <= r * dots + d <= (rules - 1) * dots + dots - 1) by (nonlinear_arith)
        requires
            0 <= r <= rules - 1,
            0 <= d < dots,
    ;
    assert((rules - 1) * dots + dots - 1 == rules * dots - 1) by (nonlinear_arith);
    assert(0 <= (r * dots + d) * cols + o <= (rules * dots - 1) * cols + cols - 1) by (nonlinear_arith)
        requires
            0 <= r * dots + d <= rules * dots - 1,
            0 <= o < cols,
    ;
    assert((rules * dots - 1) * cols + cols - 1 == rules * dots * cols - 1) by (nonlinear_arith);
}

/// A column without repeated identities holds at most `column_capacity` states.
proof fn lemma_column_bound(g: Seq<Rule>, n: int, k: int, set: Seq<State>)
    requires
        0 <= k <= n,
        no_dup_items(set),
        forall|i: int| 0 <= i < set.len() ==> state_wf(g, k, #[trigger] set[i]),
    ensures
        set.len() <= column_capacity(g, n),
{
    let dots: int = max_rhs_len(g) as int + 1;
    let cols: int = n + 1;
    let bound = g.len() * dots * cols;
    lemma_max_rhs_len(g);
    let codes = set.map_values(|st: State| item_code(st, dots, cols));
    assert forall|i: int, j: int| 0 <= i < codes.len() && 0 <= j < codes.len() && i != j implies codes[i] != codes[j] by {
        assert(state_wf(g, k, set[i]));
        assert(state_wf(g, k, set[j]));
        if codes[i] == codes[j] {
            lemma_code_injective(set[i], set[j], dots, cols);
        }
    }
    assert(codes.no_duplicates());
    codes.unique_seq_to_set();
    assert forall|x: int| codes.to_set().contains(x) implies set_int_range(0, bound).contains(x) by {
        let i = choose|i: int| 0 <= i < codes.len() && codes[i] == x;
        assert(state_wf(g, k, set[i]));
        lemma_code_bound(set[i], g.len() as int, dots, cols);
    }
    lemma_code_bound_nonneg(g.len() as int, dots, cols);
    lemma_int_range(0, bound);
    lemma_len_subset(codes.to_set(), set_int_range(0, bound));
}

proof fn lemma_code_bound_nonneg(rules: int, dots: int, cols: int)
    requires
        rules >= 0,
        dots >= 0,
        cols >= 0,
    ensures
        rules * dots * cols >= 0,
{
    assert(rules * dots * cols >= 0) by (nonlinear_arith)
        requires
            rules >= 0,
            dots >= 0,
            cols >= 0,
    ;
}

proof fn lemma_total_bound(chart: Seq<Vec<State>>, b: int)
    requires
        b >= 0,
        forall|k: int| 0 <= k < chart.len() ==> #[trigger] chart[k]@.len() <= b,
    ensures
        total_states(chart) <= chart.len() * b,
    decreases chart.len(),
{
    if chart.len() > 0 {
        let rest = chart.drop_last();
        assert forall|k: int| 0 <= k < rest.len() implies #[trigger] rest[k]@.len() <= b by {
            assert(rest[k] == chart[k]);
        }
        lemma_total_bound(rest, b);
        assert(rest.len() * b + b == chart.len() * b) by (nonlinear_arith)
            requires
                rest.len() + 1 == chart.len(),
        ;
    }
}

proof fn lemma_total_update(chart: Seq<Vec<State>>, p: int, col: Vec<State>)
    requires
        0 <= p < chart.len(),
    ensures
        total_states(chart.update(p, col)) == total_states(chart) - chart[p]@.len() + col@.len(),
    decreases chart.len(),
{
    let up = chart.update(p, col);
    if p == chart.len() - 1 {
        assert(up.drop_last() =~= chart.drop_last());
    } else {
        assert(up.drop_last() =~= chart.drop_last().update(p, col));
        lemma_total_update(chart.drop_last(), p, col);
    }
}

/// Each column of `new` keeps the states of the same column of `old`, in
/// order, and may only have gained states at its end.
pub open spec fn chart_grows(old: Seq<Vec<State>>, new: Seq<Vec<State>>) -> bool {
    &&& old.len() == new.len()
    &&& forall|k: int| 0 <= k < old.len() ==> extends(#[trigger] old[k]@, new[k]@)
}

proof fn lemma_justified_grows(
    g: Seq<Rule>,
    input: Seq<&str>,
    c1: Seq<Vec<State>>,
    c2: Seq<Vec<State>>,
    k: int,
    b1: int,
    b2: int,
    st: State,
)
    requires
        chart_wf(g, input.len() as int, c1),
        chart_grows(c1, c2),
        0 <= k < c1.len(),
        b1 <= b2,
        b1 <= c1[k]@.len(),
        justified(g, input, c1, k, b1, st),
    ensures
        justified(g, input, c2, k, b2, st),
{
    assert(extends(c1[k]@, c2[k]@));
    match st.reason {
        Reason::Initial => {},
        Reason::Predict { from_position, from_state, from_rule } => {
            assert(c2[k]@[from_state - 1] == c1[k]@[from_state - 1]);
        },
        Reason::Scan { from_position, from_state } => {
            assert(extends(c1[from_position as int]@, c2[from_position as int]@));
            assert(c2[from_position as int]@[from_state - 1] == c1[from_position as int]@[from_state - 1]);
        },
        Reason::Complete { from_position, from_state, with_position, with_state } => {
            assert(c2[k]@[from_state - 1] == c1[k]@[from_state - 1]);
            assert(state_wf(g, k, c1[k]@[from_state - 1]));
            assert(extends(c1[with_position as int]@, c2[with_position as int]@));
            assert(c2[with_position as int]@[with_state - 1] == c1[with_position as int]@[with_state - 1]);
        },
    }
}

/// The chart after `st` was pushed on column `p`.
pub open spec fn pushed(cur: Seq<Vec<State>>, next: Seq<Vec<State>>, p: int, st: State) -> bool {
    &&& 0 <= p < cur.len()
    &&& next.len() == cur.len()
    &&& next[p]@ == cur[p]@.push(st)
    &&& forall|k: int| 0 <= k < cur.len() && k != p ==> #[trigger] next[k] == cur[k]
}

proof fn lemma_push_grows(orig: Seq<Vec<State>>, cur: Seq<Vec<State>>, next: Seq<Vec<State>>, p: int, st: State)
    requires
        chart_grows(orig, cur),
        pushed(cur, next, p, st),
    ensures
        chart_grows(cur, next),
        chart_grows(orig, next),
{
    assert forall|k: int| 0 <= k < cur.len() implies extends(#[trigger] cur[k]@, next[k]@) by {
        if k != p {
            assert(next[k] == cur[k]);
        }
    }
    assert forall|k: int| 0 <= k < orig.len() implies extends(#[trigger] orig[k]@, next[k]@) by {
        assert(extends(orig[k]@, cur[k]@));
        assert(extends(cur[k]@, next[k]@));
    }
}

proof fn lemma_push_sound(
    g: Seq<Rule>,
    input: Seq<&str>,
    orig: Seq<Vec<State>>,
    cur: Seq<Vec<State>>,
    next: Seq<Vec<State>>,
    p: int,
    st: State,
)
    requires
        chart_wf(g, input.len() as int, orig),
        chart_wf(g, input.len() as int, cur),
        sound(g, input, cur),
        chart_grows(orig, cur),
        pushed(cur, next, p, st),
        state_wf(g, p, st),
        justified(g, input, orig, p, orig[p]@.len() as int, st),
    ensures
        chart_wf(g, input.len() as int, next),
        sound(g, input, next),
{
    lemma_push_grows(orig, cur, next, p, st);
    let last = cur[p]@.len() as int;
    assert forall|k: int, i: int| 0 <= k < next.len() && 0 <= i < next[k]@.len() implies state_wf(g, k, #[trigger] next[k]@[i]) by {
        if k != p || i < last {
            assert(extends(cur[k]@, next[k]@));
            assert(next[k]@[i] == cur[k]@[i]);
        }
    }
    assert forall|k: int, i: int| 0 <= k < next.len() && 0 <= i < next[k]@.len() implies justified(g, input, next, k, i, #[trigger] next[k]@[i]) by {
        if k != p || i < last {
            assert(extends(cur[k]@, next[k]@));
            assert(next[k]@[i] == cur[k]@[i]);
            assert(justified(g, input, cur, k, i, cur[k]@[i]));
            lemma_justified_grows(g, input, cur, next, k, i, i, cur[k]@[i]);
        } else {
            assert(extends(orig[k]@, cur[k]@));
            lemma_justified_grows(g, input, orig, next, k, orig[k]@.len() as int, i, st);
        }
    }
}

/// States that a column gained beyond `orig` came from the first `b` entries of the batch.
pub open spec fn gained_from(orig: Seq<Vec<State>>, cur: Seq<Vec<State>>, batch: Seq<(usize, State)>, b: int) -> bool {
    forall|p: int, i: int| 0 <= p < orig.len() && orig[p]@.len() <= i < cur[p]@.len() ==> in_batch(batch, b, p, #[trigger] cur[p]@[i])
}

/// One of the first `b` entries of the batch is `(p, st)`.
pub open spec fn in_batch(batch: Seq<(usize, State)>, b: int, p: int, st: State) -> bool {
    exists|c: int| 0 <= c < b && batch[c].0 == p && #[trigger] batch[c].1 == st
}

proof fn lemma_push_no_dups(
    g: Seq<Rule>,
    input: Seq<&str>,
    orig: Seq<Vec<State>>,
    cur: Seq<Vec<State>>,
    next: Seq<Vec<State>>,
    batch: Seq<(usize, State)>,
    b: int,
)
    requires
        fresh_batch(g, input, orig, batch),
        0 <= b < batch.len(),
        chart_no_dups(cur),
        chart_grows(orig, cur),
        gained_from(orig, cur, batch, b),
        pushed(cur, next, batch[b].0 as int, batch[b].1),
    ensures
        chart_no_dups(next),
        gained_from(orig, next, batch, b + 1),
{
    let p = batch[b].0 as int;
    let st = batch[b].1;
    let last = cur[p]@.len() as int;
    assert forall|k: int| 0 <= k < next.len() implies no_dup_items(#[trigger] next[k]@) by {
        if k == p {
            assert(no_dup_items(cur[k]@));
            assert forall|i: int, j: int| 0 <= i < next[k]@.len() && 0 <= j < next[k]@.len() && i != j
                implies !same_item(#[trigger] next[k]@[i], #[trigger] next[k]@[j]) by {
                if i == last || j == last {
                    let o = if i == last { j } else { i };
                    assert(next[k]@[o] == cur[k]@[o]);
                    if same_item(next[k]@[i], next[k]@[j]) {
                        if o < orig[k]@.len() {
                            assert(extends(orig[k]@, cur[k]@));
                            assert(is_item(orig[k]@[o], st.rule as int, st.dot as int, st.origin as int));
                        } else {
                            assert(in_batch(batch, b, k, cur[k]@[o]));
                            let c = choose|c: int| 0 <= c < b && batch[c].0 == k && #[trigger] batch[c].1 == cur[k]@[o];
                            assert(same_item(batch[c].1, batch[b].1));
                        }
                    }
                } else {
                    assert(next[k]@[i] == cur[k]@[i]);
                    assert(next[k]@[j] == cur[k]@[j]);
                }
            }
        } else {
            assert(next[k] == cur[k]);
        }
    }
    assert forall|q: int, i: int| 0 <= q < orig.len() && orig[q]@.len() <= i < next[q]@.len()
        implies in_batch(batch, b + 1, q, #[trigger] next[q]@[i]) by {
        if q == p && i == last {
            assert(batch[b].0 == q && batch[b].1 == next[q]@[i]);
        } else {
            if q != p {
                assert(next[q] == cur[q]);
            }
            assert(next[q]@[i] == cur[q]@[i]);
            assert(in_batch(batch, b, q, cur[q]@[i]));
            let c = choose|c: int| 0 <= c < b && batch[c].0 == q && #[trigger] batch[c].1 == cur[q]@[i];
            assert(batch[c].0 == q && batch[c].1 == next[q]@[i]);
        }
    }
}

/// Appends each state of a fresh batch to its column.
fn extend_chart(state_sets: &mut Vec<Vec<State>>, new_states: &Vec<(usize, State)>, grammar: &[Rule], input: &[&str])
    requires
        chart_wf(grammar@, input@.len() as int, old(state_sets)@),
        chart_no_dups(old(state_sets)@),
        sound(grammar@, input@, old(state_sets)@),
        fresh_batch(grammar@, input@, old(state_sets)@, new_states@),
    ensures
        chart_grows(old(state_sets)@, final(state_sets)@),
        chart_wf(grammar@, input@.len() as int, final(state_sets)@),
        chart_no_dups(final(state_sets)@),
        sound(grammar@, input@, final(state_sets)@),
        total_states(final(state_sets)@) == total_states(old(state_sets)@) + new_states@.len(),
{
    let ghost g = grammar@;
    let ghost n = input@.len() as int;
    let ghost orig = state_sets@;
    let ghost batch = new_states@;
    let mut b: usize = 0;
    while b < new_states.len()
        invariant
            g == grammar@,
            n == input@.len(),
            batch == new_states@,
            chart_wf(g, n, orig),
            fresh_batch(g, input@, orig, batch),
            b <= batch.len(),
            chart_grows(orig, state_sets@),
            chart_wf(g, n, state_sets@),
            chart_no_dups(state_sets@),
            sound(g, input@, state_sets@),
            total_states(state_sets@) == total_states(orig) + b,
            gained_from(orig, state_sets@, batch, b as int),
        decreases batch.len() - b,
    {
        let (p, st) = new_states[b];
        let ghost cur = state_sets@;
        assert(p < orig.len() && state_wf(g, p as int, st));
        state_sets[p].push(st);
        let ghost next = state_sets@;
        proof {
            assert(next =~= cur.update(p as int, next[p as int]));
            assert(pushed(cur, next, p as int, st));
            lemma_total_update(cur, p as int, next[p as int]);
            lemma_push_sound(g, input@, orig, cur, next, p as int, st);
            lemma_push_no_dups(g, input@, orig, cur, next, batch, b as int);
            lemma_push_grows(orig, cur, next, p as int, st);
        }
        b = b + 1;
    }
}

/// The state that seeds column 0: the start rule, nothing matched, from position 0.
pub open spec fn initial_state() -> State {
    State { rule: 0, dot: 0, origin: 0, reason: Reason::Initial }
}

/// Builds the Earley chart of `input` for the grammar whose start rule is
/// `grammar[0]`: `n + 1` columns, the first seeded with the start rule, grown
/// by predict, scan and complete until none of them adds a state.
///
/// The chart is the least such fixpoint: it holds no repeated identity, is
/// closed under the three operations, and every state follows by its
/// recorded reason from states that come before it.
pub fn parse(grammar: &[Rule], input: &[&str]) -> (chart: Vec<Vec<State>>)
    requires
        grammar@.len() > 0,
        input@.len() < usize::MAX,
    ensures
        chart_wf(grammar@, input@.len() as int, chart@),
        chart@[0]@.len() > 0,
        chart@[0]@[0] == initial_state(),
        chart_no_dups(chart@),
        closed(grammar@, input@, chart@),
        sound(grammar@, input@, chart@),
{
    let ghost g = grammar@;
    let ghost n = input@.len() as int;
    let mut state_sets: Vec<Vec<State>> = Vec::new();
    let mut k: usize = 0;
    while k <= input.len()
        invariant
            input@.len() < usize::MAX,
            k <= input@.len() + 1,
            state_sets@.len() == k,
            forall|j: int| 0 <= j < k ==> #[trigger] state_sets@[j]@.len() == 0,
        decreases input@.len() + 1 - k,
    {
        state_sets.push(Vec::new());
        k = k + 1;
    }
    state_sets[0].push(State::new(0, 0, Reason::Initial));
    proof {
        assert(state_sets@[0]@[0] == initial_state());
        assert forall|k: int, i: int| 0 <= k < state_sets@.len() && 0 <= i < state_sets@[k]@.len()
            implies state_wf(g, k, #[trigger] state_sets@[k]@[i]) && justified(g, input@, state_sets@, k, i, state_sets@[k]@[i]) by {
            assert(k == 0 && i == 0);
        }
        assert forall|k: int| 0 <= k < state_sets@.len() implies no_dup_items(#[trigger] state_sets@[k]@) by {
            if k != 0 {
                assert(state_sets@[k]@.len() == 0);
            }
        }
    }
    let ghost cap = (n + 1) * column_capacity(g, n);
    proof {
        lemma_chart_total_bound(g, n, state_sets@);
    }
    loop
        invariant
            g == grammar@,
            n == input@.len(),
            cap == (n + 1) * column_capacity(g, n),
            chart_wf(g, n, state_sets@),
            state_sets@[0]@.len() > 0,
            state_sets@[0]@[0] == initial_state(),
            chart_no_dups(state_sets@),
            sound(g, input@, state_sets@),
            total_states(state_sets@) <= cap,
        ensures
            chart_wf(g, n, state_sets@),
            state_sets@[0]@.len() > 0,
            state_sets@[0]@[0] == initial_state(),
            chart_no_dups(state_sets@),
            sound(g, input@, state_sets@),
            closed(g, input@, state_sets@),
        decreases cap - total_states(state_sets@),
    {
        let new_states = get_new_states(grammar, state_sets.as_slice(), input);
        match new_states {
            None => {
                break;
            },
            Some(new_states) => {
                let ghost before = state_sets@;
                extend_chart(&mut state_sets, &new_states, grammar, input);
                proof {
                    assert(extends(before[0]@, state_sets@[0]@));
                    lemma_chart_total_bound(g, n, state_sets@);
                }
            },
        }
    }
    state_sets
}

/// A chart of well-formed states without repeated identities holds at most
/// `n + 1` columns' capacity of states: the fixpoint loop cannot run forever.
proof fn lemma_chart_total_bound(g: Seq<Rule>, n: int, chart: Seq<Vec<State>>)
    requires
        n >= 0,
        chart_wf(g, n, chart),
        chart_no_dups(chart),
    ensures
        total_states(chart) <= (n + 1) * column_capacity(g, n),
{
    assert forall|k: int| 0 <= k < chart.len() implies #[trigger] chart[k]@.len() <= column_capacity(g, n) by {
        assert(no_dup_items(chart[k]@));
        assert forall|i: int| 0 <= i < chart[k]@.len() implies state_wf(g, k, #[trigger] chart[k]@[i]) by {}
        lemma_column_bound(g, n, k, chart[k]@);
    }
    lemma_code_bound_nonneg(g.len() as int, max_rhs_len(g) as int + 1, n + 1);
    lemma_total_bound(chart, column_capacity(g, n));
}

/// The start rule, fully matched from position 0, stands in the set.
pub open spec fn has_accepting(g: Seq<Rule>, set: Seq<State>) -> bool {
    has_item(set, 0, g[0].rhs@.len() as int, 0)
}

/// Whether the chart accepts its input: its last column holds the start rule
/// fully matched from position 0.
pub fn accepts(grammar: &[Rule], chart: &Vec<Vec<State>>) -> (r: bool)
    requires
        grammar@.len() > 0,
        chart@.len() > 0,
    ensures
        r == has_accepting(grammar@, chart@.last()@),
{
    let last = &chart[chart.len() - 1];
    let goal = State::new(0, 0, Reason::Initial);
    let target = State { dot: grammar[0].rhs.len(), ..goal };
    contains_item(last, &target)
}

/// A scanned state consumed the token at index `origin + dot - 1`, and that
/// token is the terminal just before its dot.
pub proof fn lemma_scan_consumes_matching_token(g: Seq<Rule>, input: Seq<&str>, chart: Seq<Vec<State>>, k: int, i: int)
    requires
        sound(g, input, chart),
        0 <= k < chart.len(),
        0 <= i < chart[k]@.len(),
        chart[k]@[i].reason is Scan,
    ensures
        k >= 1,
        chart[k]@[i].dot >= 1,
        rhs_of(g, chart[k]@[i])[chart[k]@[i].dot - 1] is Terminal,
        chart[k]@[i].origin + chart[k]@[i].dot - 1 < input.len(),
        input[chart[k]@[i].origin + chart[k]@[i].dot - 1]@ == symbol_text(rhs_of(g, chart[k]@[i])[chart[k]@[i].dot - 1]),
{
    let st = chart[k]@[i];
    assert(justified(g, input, chart, k, i, st));
    match st.reason {
        Reason::Scan { from_position, from_state } => {
            let prev = chart[from_position as int]@[from_state - 1];
            assert(token_matches(g, input, prev));
            assert(rhs_of(g, st) == rhs_of(g, prev));
        },
        _ => {},
    }
}

/// The decimal digit for `d < 10`.
pub open spec fn digit_char(d: nat) -> char {
    (48 + d) as u8 as char
}

/// The decimal digits of `n`, most significant first, without leading zeros.
pub open spec fn decimal(n: nat) -> Seq<char>
    decreases n,
{
    if n < 10 {
        seq![digit_char(n)]
    } else {
        decimal(n / 10) + seq![digit_char(n % 10)]
    }
}

/// Relies on `ToString` through the `Display` of `usize`: its decimal digits.
#[verifier::external_body]
fn decimal_string(n: usize) -> (r: String)
    ensures
        r@ == decimal(n as nat),
{
    n.to_string()
}

/// The texts of the symbols, each after a separator: `·` before the symbol at
/// index `dot`, a space before the others.
pub open spec fn dotted_symbols(rhs: Seq<Symbol>, dot: int) -> Seq<char>
    decreases rhs.len(),
{
    if rhs.len() == 0 {
        Seq::empty()
    } else {
        dotted_symbols(rhs.drop_last(), dot) + (if rhs.len() - 1 == dot {
            "·"@
        } else {
            " "@
        }) + symbol_text(rhs.last())
    }
}

/// How a state is shown: `(lhs → symbols, origin)`, with `·` at the dot.
pub open spec fn state_text(g: Seq<Rule>, st: State) -> Seq<char> {
    "("@ + lhs_text(g[st.rule as int]) + " →"@ + dotted_symbols(rhs_of(g, st), st.dot as int) + (if st.dot == rhs_of(g, st).len() {
        "·"@
    } else {
        Seq::empty()
    }) + ", "@ + decimal(st.origin as nat) + ")"@
}

impl State {
    /// The state as text, e.g. `(S → NP·VP, 0)`.
    pub fn to_string(&self, grammar: &[Rule]) -> (r: String)
        requires
            self.rule < grammar@.len(),
        ensures
            r@ == state_text(grammar@, *self),
    {
        let rule = &grammar[self.rule];
        let ghost rhs = rule.rhs@;
        let mut out = String::from_str("(");
        out.append(rule.lhs.as_str());
        out.append(" →");
        let mut i: usize = 0;
        while i < rule.rhs.len()
            invariant
                rhs == rule.rhs@,
                rhs == rhs_of(grammar@, *self),
                i <= rhs.len(),
                out@ == "("@ + lhs_text(grammar@[self.rule as int]) + " →"@ + dotted_symbols(rhs.subrange(0, i as int), self.dot as int),
            decreases rhs.len() - i,
        {
            assert(rhs.subrange(0, i + 1).drop_last() =~= rhs.subrange(0, i as int));
            if i == self.dot {
                out.append("·");
            } else {
                out.append(" ");
            }
            out.append(rule.rhs[i].as_str());
            assert(out@ =~= "("@ + lhs_text(grammar@[self.rule as int]) + " →"@ + dotted_symbols(rhs.subrange(0, i + 1), self.dot as int));
            i = i + 1;
        }
        assert(rhs.subrange(0, rhs.len() as int) =~= rhs);
        if self.dot == rule.rhs.len() {
            out.append("·");
        }
        out.append(", ");
        let origin = decimal_string(self.origin);
        out.append(origin.as_str());
        out.append(")");
        assert(out@ =~= state_text(grammar@, *self));
        out
    }
}

} // verus!
