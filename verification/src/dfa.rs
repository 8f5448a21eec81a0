//! Subset construction of the deterministic automaton, and its minimization.

use vstd::prelude::*;
use vstd::seq_lib::lemma_seq_contains_after_push;
use crate::ast::PatternError;
use crate::common::Tag;
use crate::nfa::{
    accept_view, compile_rules, graph_of, graph_wf, lemma_rules_graph_len, lemma_rules_graph_wf,
    patterns_view, Nfa, StateGraph, Transition,
};
use crate::subset::{
    closure_list, closure_run, explore_upto, explored as explored_work, first_work, lemma_move_list,
    lemma_reach_list, lemma_symbol_range, move_list, position_from, range_upto, reach_list,
    subset_automaton, subset_run, symbol_range, visit_upto, with_transition, Visit, Work,
};

verus! {
#[derive(Debug)]
pub struct DfaState {
    /// At most one target for each character.
    pub transitions: Vec<(char, usize)>,
    /// The states of the nondeterministic automaton that this state stands
    /// for, in rising order.
    pub nfa_states: Vec<usize>,
    pub accept: Option<Tag>,
}

#[derive(Debug)]
pub struct Dfa {
    pub states: Vec<DfaState>,
    pub nfa: Nfa,
}

/// What a state of the deterministic automaton holds, as plain values.
pub struct StateView {
    pub transitions: Seq<(char, usize)>,
    pub nfa_states: Seq<usize>,
    pub accept: Option<Seq<char>>,
}

pub open spec fn tag_view(tag: Option<Tag>) -> Option<Seq<char>> {
    match tag {
        Some(t) => Some(t@),
        None => None,
    }
}

impl View for DfaState {
    type V = StateView;

    open spec fn view(&self) -> StateView {
        StateView {
            transitions: self.transitions@,
            nfa_states: self.nfa_states@,
            accept: tag_view(self.accept),
        }
    }
}

/// A deterministic automaton as plain values: its states, by state number.
pub type Automaton = Seq<StateView>;

pub open spec fn automaton(states: Seq<DfaState>) -> Automaton {
    Seq::new(states.len(), |i: int| states[i]@)
}

/// The target of the first transition in `transitions` that is labelled `c`.
pub open spec fn find_target(transitions: Seq<(char, usize)>, c: char) -> Option<usize>
    decreases transitions.len(),
{
    if transitions.len() == 0 {
        None
    } else if transitions[0].0 == c {
        Some(transitions[0].1)
    } else {
        find_target(transitions.drop_first(), c)
    }
}

/// The state that the automaton `a` enters from `state` on the character `c`.
pub open spec fn next_state(a: Automaton, state: int, c: char) -> Option<usize> {
    find_target(a[state].transitions, c)
}

/// Every transition leads to a state of the automaton.
pub open spec fn targets_in_range(a: Automaton) -> bool {
    forall|s: int, j: int|
        0 <= s < a.len() && 0 <= j < a[s].transitions.len() ==> (#[trigger] a[s].transitions[j]).1
            < a.len()
}

/// No state has two transitions with the same label.
pub open spec fn deterministic(a: Automaton) -> bool {
    forall|s: int, i: int, j: int|
        0 <= s < a.len() && 0 <= i < j < a[s].transitions.len() ==> (#[trigger] a[s].transitions[i]).0
            != (#[trigger] a[s].transitions[j]).0
}

pub proof fn lemma_find_target(transitions: Seq<(char, usize)>, c: char)
    ensures
        match find_target(transitions, c) {
            Some(t) => exists|j: int|
                0 <= j < transitions.len() && #[trigger] transitions[j] == (c, t) && forall|i: int|
                    0 <= i < j ==> (#[trigger] transitions[i]).0 != c,
            None => forall|j: int| 0 <= j < transitions.len() ==> (#[trigger] transitions[j]).0 != c,
        },
    decreases transitions.len(),
{
    if transitions.len() == 0 {
    } else if transitions[0].0 == c {
    } else {
        let rest = transitions.drop_first();
        lemma_find_target(rest, c);
        match find_target(rest, c) {
            Some(t) => {
                let j = choose|j: int|
                    0 <= j < rest.len() && #[trigger] rest[j] == (c, t) && forall|i: int|
                        0 <= i < j ==> (#[trigger] rest[i]).0 != c;
                assert forall|i: int| 0 <= i < j + 1 implies (#[trigger] transitions[i]).0 != c by {
                    if i > 0 {
                        assert(rest[i - 1] == transitions[i]);
                    }
                }
            },
            None => {
                assert forall|j: int| 0 <= j < transitions.len() implies (
                #[trigger] transitions[j]).0 != c by {
                    if j > 0 {
                        assert(rest[j - 1] == transitions[j]);
                    }
                }
            },
        }
    }
}

/// There is an edge without a symbol from `p` to `q`.
pub open spec fn eps_edge(g: StateGraph, p: int, q: int) -> bool {
    &&& 0 <= p < g.len()
    &&& exists|j: int|
        0 <= j < g[p].len() && (#[trigger] g[p][j]).0 == Transition::Epsilon && g[p][j].1 == q
}

/// `to` is reached from `from` over exactly `k` edges without a symbol.
pub open spec fn eps_reach_in(g: StateGraph, from: int, to: int, k: nat) -> bool
    decreases k,
{
    if k == 0 {
        from == to
    } else {
        exists|mid: int| eps_reach_in(g, from, mid, (k - 1) as nat) && #[trigger] eps_edge(g, mid, to)
    }
}

/// `to` is reached from `from` over edges without a symbol alone.
pub open spec fn eps_reach(g: StateGraph, from: int, to: int) -> bool {
    exists|k: nat| eps_reach_in(g, from, to, k)
}

/// A set that holds `from` and is closed under edges without a symbol holds
/// every state reached from `from` over such edges.
pub proof fn lemma_closed_holds_reach(g: StateGraph, s: Set<int>, from: int, to: int, k: nat)
    requires
        s.contains(from),
        forall|p: int, q: int| s.contains(p) && eps_edge(g, p, q) ==> s.contains(q),
        eps_reach_in(g, from, to, k),
    ensures
        s.contains(to),
    decreases k,
{
    if k > 0 {
        let mid = choose|mid: int|
            eps_reach_in(g, from, mid, (k - 1) as nat) && #[trigger] eps_edge(g, mid, to);
        lemma_closed_holds_reach(g, s, from, mid, (k - 1) as nat);
    }
}

/// Reaching `mid` and then following one more edge without a symbol reaches its target.
pub proof fn lemma_reach_step(g: StateGraph, from: int, mid: int, to: int)
    requires
        eps_reach(g, from, mid),
        eps_edge(g, mid, to),
    ensures
        eps_reach(g, from, to),
{
    let k = choose|k: nat| eps_reach_in(g, from, mid, k);
    assert(eps_reach_in(g, from, to, (k + 1) as nat));
}

pub proof fn lemma_reach_self(g: StateGraph, p: int)
    ensures
        eps_reach(g, p, p),
{
    assert(eps_reach_in(g, p, p, 0));
}

/// The sequence rises strictly.
pub open spec fn strictly_increasing(s: Seq<usize>) -> bool {
    forall|i: int, j: int| 0 <= i < j < s.len() ==> s[i] < s[j]
}

/// A list without repetition of numbers below `n` has at most `n` entries.
pub proof fn lemma_distinct_bounded_len(s: Seq<usize>, n: nat)
    requires
        s.no_duplicates(),
        forall|i: int| 0 <= i < s.len() ==> s[i] < n,
    ensures
        s.len() <= n,
{
    let ints = s.map_values(|x: usize| x as int);
    assert(ints.no_duplicates()) by {}
    ints.unique_seq_to_set();
    vstd::set_lib::lemma_int_range(0, n as int);
    assert(ints.to_set().subset_of(vstd::set_lib::set_int_range(0, n as int))) by {
        assert forall|x: int| ints.to_set().contains(x) implies vstd::set_lib::set_int_range(
            0,
            n as int,
        ).contains(x) by {}
    }
    vstd::set_lib::lemma_len_subset(ints.to_set(), vstd::set_lib::set_int_range(0, n as int));
}

fn contains_state(v: &Vec<usize>, x: usize) -> (r: bool)
    ensures
        r == v@.contains(x),
{
    let mut i: usize = 0;
    while i < v.len()
        invariant
            i <= v.len(),
            forall|j: int| 0 <= j < i ==> v@[j] != x,
        decreases v.len() - i,
    {
        if v[i] == x {
            return true;
        }
        i += 1;
    }
    false
}

fn contains_char(v: &Vec<char>, x: char) -> (r: bool)
    ensures
        r == v@.contains(x),
{
    let mut i: usize = 0;
    while i < v.len()
        invariant
            i <= v.len(),
            forall|j: int| 0 <= j < i ==> v@[j] != x,
        decreases v.len() - i,
    {
        if v[i] == x {
            return true;
        }
        i += 1;
    }
    false
}

/// The tag of the first entry of the accept list that names the state `q`.
pub open spec fn tag_of(accept: Seq<(usize, Seq<char>)>, q: usize) -> Option<Seq<char>>
    decreases accept.len(),
{
    if accept.len() == 0 {
        None
    } else if accept[0].0 == q {
        Some(accept[0].1)
    } else {
        tag_of(accept.drop_first(), q)
    }
}

/// The tag of the first member of `states` that the accept list names.
pub open spec fn first_accept(accept: Seq<(usize, Seq<char>)>, states: Seq<usize>) -> Option<
    Seq<char>,
>
    decreases states.len(),
{
    if states.len() == 0 {
        None
    } else {
        match tag_of(accept, states[0]) {
            Some(t) => Some(t),
            None => first_accept(accept, states.drop_first()),
        }
    }
}

/// Some member of `states` has an edge labelled `c`.
pub open spec fn has_symbol(g: StateGraph, states: Seq<usize>, c: char) -> bool {
    exists|i: int, j: int|
        0 <= i < states.len() && 0 <= j < g[states[i] as int].len() && (
        #[trigger] g[states[i] as int][j]).0 == Transition::Symbol(c)
}

/// Every member of `states` is a state of the graph.
pub open spec fn members_in_range(g: StateGraph, states: Seq<usize>) -> bool {
    forall|i: int| 0 <= i < states.len() ==> states[i] < g.len()
}

impl Dfa {
    /// The edges of the nondeterministic automaton, by state number.
    pub open spec fn graph(&self) -> StateGraph {
        graph_of(self.nfa.states@, self.nfa.states@.len() as int)
    }

    /// The states of the deterministic automaton as plain values.
    pub open spec fn model(&self) -> Automaton {
        automaton(self.states@)
    }

    /// Compiles the rules into their nondeterministic automaton; the
    /// deterministic one has no states yet.
    pub fn new(pattern: Vec<(String, Tag)>) -> (r: Result<Dfa, PatternError>)
        ensures
            match compile_rules(patterns_view(pattern@), pattern@.len() as int) {
                Ok(rules) => r is Ok && r->Ok_0.nfa.rules() == rules && r->Ok_0.nfa.is_built()
                    && r->Ok_0.states@.len() == 0,
                Err(e) => r is Err && r->Err_0 == e,
            },
    {
        let mut nfa = match Nfa::new(pattern) {
            Ok(nfa) => nfa,
            Err(e) => {
                return Err(e);
            },
        };
        nfa.construct();
        Ok(Dfa { states: Vec::new(), nfa })
    }

    /// The state entered from `state` on the character `c`, if there is one.
    pub fn get_next_state(&self, state: usize, c: char) -> (r: Option<usize>)
        requires
            state < self.states@.len(),
        ensures
            r == next_state(self.model(), state as int, c),
    {
        let transitions = &self.states[state].transitions;
        let mut i: usize = 0;
        proof {
            assert(transitions@.skip(0) == transitions@);
        }
        while i < transitions.len()
            invariant
                i <= transitions.len(),
                transitions@ == self.model()[state as int].transitions,
                find_target(transitions@, c) == find_target(transitions@.skip(i as int), c),
            decreases transitions.len() - i,
        {
            if transitions[i].0 == c {
                return Some(transitions[i].1);
            }
            proof {
                assert(transitions@.skip(i as int).drop_first() == transitions@.skip(i + 1));
            }
            i += 1;
        }
        None
    }

    /// The states reached from `state` over edges without a symbol alone,
    /// `state` first.
    pub fn get_epsilon_closure(&self, state: usize) -> (closure: Vec<usize>)
        requires
            graph_wf(self.graph()),
            state < self.nfa.states@.len(),
        ensures
            closure@ == closure_list(self.graph(), state),
            is_closure(self.graph(), state, closure@),
    {
        let ghost g = self.graph();
        let n = self.nfa.states.len();
        let mut closure: Vec<usize> = Vec::new();
        let mut stack: Vec<usize> = Vec::new();
        closure.push(state);
        stack.push(state);
        proof {
            lemma_reach_self(g, state as int);
        }
        while stack.len() > 0
            invariant
                g == self.graph(),
                graph_wf(g),
                n == g.len(),
                closure@.no_duplicates(),
                closure@.len() > 0 && closure@[0] == state,
                members_in_range(g, closure@),
                forall|i: int| 0 <= i < stack@.len() ==> closure@.contains(stack@[i]),
                all_reached(g, state, closure@),
                closed_but(g, closure@, stack@, -1),
                closure_run(g, Visit { closure: closure@, stack: stack@ }) == closure_list(g, state),
            decreases n - closure@.len(), stack@.len(),
        {
            proof {
                assert forall|i: int| 0 <= i < stack@.len() implies stack@[i] < g.len() by {}
            }
            let ghost stack_before = stack@;
            let ghost closure_before = closure@;
            let ghost rest = Visit { closure: closure@, stack: stack@.drop_last() };
            let s = stack.pop().unwrap();
            let transitions = &self.nfa.states[s].transitions;
            assert(closed_but(g, closure@, stack@, s as int)) by {
                assert forall|x: usize| stack_before.contains(x) implies x == s || stack@.contains(
                    x,
                ) by {
                    let i = choose|i: int| 0 <= i < stack_before.len() && stack_before[i] == x;
                    if i < stack@.len() {
                        assert(stack@[i] == x);
                    }
                }
            }
            let mut k: usize = 0;
            while k < transitions.len()
                invariant
                    k <= transitions.len(),
                    transitions@ == g[s as int],
                    s < n,
                    g == self.graph(),
                    graph_wf(g),
                    n == g.len(),
                    closure@.no_duplicates(),
                    closure@.len() > 0 && closure@[0] == state,
                    members_in_range(g, closure@),
                    closure@.contains(s),
                    closure@.len() >= closure_before.len(),
                    stack@.len() - (stack_before.len() - 1) == closure@.len() - closure_before.len(),
                    forall|i: int| 0 <= i < stack@.len() ==> closure@.contains(stack@[i]),
                    all_reached(g, state, closure@),
                    closed_but(g, closure@, stack@, s as int),
                    forall|j: int|
                        0 <= j < k && (#[trigger] g[s as int][j]).0 == Transition::Epsilon
                            ==> closure@.contains(g[s as int][j].1),
                    (Visit { closure: closure@, stack: stack@ }) == visit_upto(
                        g,
                        rest,
                        s as int,
                        k as int,
                    ),
                decreases transitions.len() - k,
            {
                let t = transitions[k].0;
                let next = transitions[k].1;
                if t == Transition::Epsilon {
                    if !contains_state(&closure, next) {
                        proof {
                            lemma_reach_step(g, state as int, s as int, next as int);
                        }
                        let ghost closure_old = closure@;
                        let ghost stack_old = stack@;
                        closure.push(next);
                        stack.push(next);
                        proof {
                            assert forall|x: usize| closure_old.contains(x) implies closure@.contains(x) by {
                                lemma_seq_contains_after_push(closure_old, next, x);
                            }
                            assert forall|x: usize| stack_old.contains(x) implies stack@.contains(x) by {
                                lemma_seq_contains_after_push(stack_old, next, x);
                            }
                            lemma_seq_contains_after_push(closure_old, next, next);
                            lemma_seq_contains_after_push(stack_old, next, next);
                        }
                    }
                }
                k += 1;
            }
            proof {
                lemma_distinct_bounded_len(closure@, n as nat);
            }
        }
        proof {
            let set = Set::new(|x: int| 0 <= x <= usize::MAX && closure@.contains(x as usize));
            assert forall|p: int, q: int| set.contains(p) && eps_edge(g, p, q) implies set.contains(
                q,
            ) by {}
            assert forall|q: usize| eps_reach(g, state as int, q as int) implies closure@.contains(
                q,
            ) by {
                let k = choose|k: nat| eps_reach_in(g, state as int, q as int, k);
                lemma_closed_holds_reach(g, set, state as int, q as int, k);
            }
        }
        closure
    }
}

/// Every entry of `closure` is reached from `state` over edges without a symbol.
pub open spec fn all_reached(g: StateGraph, state: usize, closure: Seq<usize>) -> bool {
    forall|i: int| 0 <= i < closure.len() ==> eps_reach(g, state as int, #[trigger] closure[i] as int)
}

/// Every entry of `closure` other than `current` either waits on the stack or has the
/// targets of its edges without a symbol in `closure`.
pub open spec fn closed_but(g: StateGraph, closure: Seq<usize>, stack: Seq<usize>, current: int) -> bool {
    forall|i: int, j: int|
        0 <= i < closure.len() && 0 <= j < g[closure[i] as int].len() && (
        #[trigger] g[closure[i] as int][j]).0 == Transition::Epsilon ==> closure[i] == current
            || stack.contains(closure[i]) || closure.contains(g[closure[i] as int][j].1)
}

/// `closure` lists, without repetition and `state` first, exactly the states
/// reached from `state` over edges without a symbol.
pub open spec fn is_closure(g: StateGraph, state: usize, closure: Seq<usize>) -> bool {
    &&& closure.no_duplicates()
    &&& closure.len() > 0
    &&& closure[0] == state
    &&& members_in_range(g, closure)
    &&& forall|q: usize| closure.contains(q) <==> eps_reach(g, state as int, q as int)
}

/// The edge `b` of the member `a` comes before the edge `k` of the member `i`.
pub open spec fn edge_before(a: int, b: int, i: int, k: int) -> bool {
    a < i || (a == i && b < k)
}

/// Some edge of a member of `states` that comes before the edge `k` of the
/// member `i` is labelled `c`.
pub open spec fn has_symbol_before(g: StateGraph, states: Seq<usize>, i: int, k: int, c: char) -> bool {
    exists|a: int, b: int|
        0 <= a < states.len() && 0 <= b < g[states[a] as int].len() && edge_before(a, b, i, k) && (
        #[trigger] g[states[a] as int][b]).0 == Transition::Symbol(c)
}

/// `q` is reached from a member of `states` over one edge labelled `c`, taken
/// from those before the edge `k` of the member `i`, and then over edges
/// without a symbol.
pub open spec fn in_move_before(g: StateGraph, states: Seq<usize>, c: char, i: int, k: int, q: int) -> bool {
    exists|a: int, b: int|
        0 <= a < states.len() && 0 <= b < g[states[a] as int].len() && edge_before(a, b, i, k) && (
        #[trigger] g[states[a] as int][b]).0 == Transition::Symbol(c) && eps_reach(
            g,
            g[states[a] as int][b].1 as int,
            q,
        )
}

/// `q` is reached from a member of `states` over one edge labelled `c` and
/// then over edges without a symbol.
pub open spec fn in_move(g: StateGraph, states: Seq<usize>, c: char, q: int) -> bool {
    in_move_before(g, states, c, states.len() as int, 0, q)
}

/// The same numbers occur in `a` and in `b`.
pub open spec fn same_members(a: Seq<usize>, b: Seq<usize>) -> bool {
    forall|x: usize| a.contains(x) <==> b.contains(x)
}

/// Two strictly rising lists of the same numbers are one list.
pub proof fn lemma_canonical_unique(a: Seq<usize>, b: Seq<usize>)
    requires
        strictly_increasing(a),
        strictly_increasing(b),
        same_members(a, b),
    ensures
        a == b,
    decreases a.len(),
{
    if a.len() == 0 {
        if b.len() > 0 {
            assert(b.contains(b[0]));
        }
    } else {
        assert(a.contains(a.last()));
        assert(b.contains(b.last()));
        let a0 = a.drop_last();
        let b0 = b.drop_last();
        assert forall|x: usize| a0.contains(x) <==> b0.contains(x) by {
            if a0.contains(x) {
                assert(a.contains(x));
                let j = choose|j: int| 0 <= j < b.len() && b[j] == x;
                assert(b0[j] == x);
            }
            if b0.contains(x) {
                assert(b.contains(x));
                let j = choose|j: int| 0 <= j < a.len() && a[j] == x;
                assert(a0[j] == x);
            }
        }
        lemma_canonical_unique(a0, b0);
        assert(a =~= a0.push(a.last()));
    }
}

/// The numbers of `v`, each once, in rising order.
fn canonical(v: &Vec<usize>, n: usize) -> (r: Vec<usize>)
    requires
        forall|i: int| 0 <= i < v@.len() ==> v@[i] < n,
    ensures
        strictly_increasing(r@),
        same_members(r@, v@),
        forall|i: int| 0 <= i < r@.len() ==> r@[i] < n,
{
    let mut marks: Vec<bool> = Vec::new();
    let mut i: usize = 0;
    while i < n
        invariant
            i <= n,
            marks@.len() == i,
            forall|j: int| 0 <= j < i ==> !marks@[j],
        decreases n - i,
    {
        marks.push(false);
        i += 1;
    }
    i = 0;
    while i < v.len()
        invariant
            i <= v@.len(),
            marks@.len() == n,
            forall|j: int| 0 <= j < v@.len() ==> v@[j] < n,
            forall|x: int| 0 <= x < n ==> (marks@[x] <==> v@.take(i as int).contains(x as usize)),
        decreases v.len() - i,
    {
        let x = v[i];
        marks[x] = true;
        proof {
            let before = v@.take(i as int);
            let after = v@.take(i + 1);
            assert(after == before.push(x));
            assert forall|y: usize| after.contains(y) <==> y == x || before.contains(y) by {
                lemma_seq_contains_after_push(before, x, y);
            }
        }
        i += 1;
    }
    proof {
        assert(v@.take(i as int) == v@);
    }
    let mut r: Vec<usize> = Vec::new();
    i = 0;
    while i < n
        invariant
            i <= n,
            marks@.len() == n,
            strictly_increasing(r@),
            forall|j: int| 0 <= j < r@.len() ==> r@[j] < i,
            forall|x: usize| r@.contains(x) <==> x < i && marks@[x as int],
        decreases n - i,
    {
        if marks[i] {
            let ghost before = r@;
            r.push(i);
            proof {
                assert forall|y: usize| r@.contains(y) <==> y == i || before.contains(y) by {
                    lemma_seq_contains_after_push(before, i, y);
                }
            }
        }
        i += 1;
    }
    proof {
        assert forall|x: usize| r@.contains(x) <==> v@.contains(x) by {}
    }
    r
}

fn copy_list(v: &Vec<usize>) -> (r: Vec<usize>)
    ensures
        r@ == v@,
{
    let mut r: Vec<usize> = Vec::new();
    let mut i: usize = 0;
    while i < v.len()
        invariant
            i <= v@.len(),
            r@ == v@.take(i as int),
        decreases v.len() - i,
    {
        r.push(v[i]);
        i += 1;
    }
    r
}

fn same_list(a: &Vec<usize>, b: &Vec<usize>) -> (r: bool)
    ensures
        r == (a@ == b@),
{
    if a.len() != b.len() {
        return false;
    }
    let mut i: usize = 0;
    while i < a.len()
        invariant
            i <= a@.len(),
            a@.len() == b@.len(),
            forall|j: int| 0 <= j < i ==> a@[j] == b@[j],
        decreases a.len() - i,
    {
        if a[i] != b[i] {
            return false;
        }
        i += 1;
    }
    proof {
        assert(a@ =~= b@);
    }
    true
}

impl Dfa {
    /// The distinct symbols on the edges that leave a member of `states`,
    /// each where it comes first.
    pub fn compute_nfa_transition_range(&self, states: Vec<usize>) -> (range: Vec<char>)
        requires
            members_in_range(self.graph(), states@),
        ensures
            range@ == symbol_range(self.graph(), states@),
            range@.no_duplicates(),
            forall|c: char| range@.contains(c) <==> has_symbol(self.graph(), states@, c),
    {
        let ghost g = self.graph();
        let mut range: Vec<char> = Vec::new();
        let mut i: usize = 0;
        while i < states.len()
            invariant
                i <= states@.len(),
                g == self.graph(),
                members_in_range(g, states@),
                range@ == range_upto(g, states@, i as int, 0),
            decreases states.len() - i,
        {
            let s = states[i];
            let transitions = &self.nfa.states[s].transitions;
            let mut k: usize = 0;
            while k < transitions.len()
                invariant
                    k <= transitions@.len(),
                    i < states@.len(),
                    s == states@[i as int],
                    transitions@ == g[s as int],
                    range@ == range_upto(g, states@, i as int, k as int),
                decreases transitions.len() - k,
            {
                match transitions[k].0 {
                    Transition::Symbol(c) => {
                        if !contains_char(&range, c) {
                            range.push(c);
                        }
                    },
                    Transition::Epsilon => {},
                }
                k += 1;
            }
            i += 1;
        }
        proof {
            lemma_symbol_range(g, states@);
        }
        range
    }

    /// The tag of the first member of `states` that the accept list names.
    /// With the members in rising order this is the tag of the first rule,
    /// in the order of the rules, that accepts.
    pub fn calculate_accept(nfa_accept: &Vec<(usize, Tag)>, states: &Vec<usize>) -> (r: Option<Tag>)
        ensures
            tag_view(r) == first_accept(accept_view(nfa_accept@), states@),
    {
        let ghost accept = accept_view(nfa_accept@);
        let mut i: usize = 0;
        proof {
            assert(states@.skip(0) == states@);
        }
        while i < states.len()
            invariant
                i <= states@.len(),
                accept == accept_view(nfa_accept@),
                first_accept(accept, states@) == first_accept(accept, states@.skip(i as int)),
            decreases states.len() - i,
        {
            let state = states[i];
            let mut k: usize = 0;
            let ghost rest = first_accept(accept, states@.skip(i + 1));
            proof {
                assert(accept.skip(0) == accept);
                assert(states@.skip(i as int).drop_first() == states@.skip(i + 1));
            }
            while k < nfa_accept.len()
                invariant
                    k <= nfa_accept@.len(),
                    accept == accept_view(nfa_accept@),
                    tag_of(accept, state) == tag_of(accept.skip(k as int), state),
                    first_accept(accept, states@) == match tag_of(accept, state) {
                        Some(t) => Some(t),
                        None => rest,
                    },
                decreases nfa_accept.len() - k,
            {
                proof {
                    assert(accept.skip(k as int).drop_first() == accept.skip(k + 1));
                }
                if nfa_accept[k].0 == state {
                    return Some(nfa_accept[k].1.clone());
                }
                k += 1;
            }
            i += 1;
        }
        None
    }
}

impl Dfa {
    /// The states reached from a member of `members` over one edge labelled
    /// `c` and then over edges without a symbol, each once, in rising order.
    pub fn move_on(&self, members: &Vec<usize>, c: char) -> (next: Vec<usize>)
        requires
            graph_wf(self.graph()),
            members_in_range(self.graph(), members@),
        ensures
            next@ == move_list(self.graph(), members@, c, self.graph().len() as int),
            strictly_increasing(next@),
            members_in_range(self.graph(), next@),
            forall|q: usize| next@.contains(q) <==> in_move(self.graph(), members@, c, q as int),
    {
        let ghost g = self.graph();
        let mut next: Vec<usize> = Vec::new();
        let mut i: usize = 0;
        while i < members.len()
            invariant
                i <= members@.len(),
                g == self.graph(),
                graph_wf(g),
                members_in_range(g, members@),
                members_in_range(g, next@),
                forall|q: usize|
                    next@.contains(q) <==> in_move_before(g, members@, c, i as int, 0, q as int),
            decreases members.len() - i,
        {
            let s = members[i];
            let transitions = &self.nfa.states[s].transitions;
            let mut k: usize = 0;
            while k < transitions.len()
                invariant
                    k <= transitions@.len(),
                    i < members@.len(),
                    s == members@[i as int],
                    transitions@ == g[s as int],
                    g == self.graph(),
                    graph_wf(g),
                    members_in_range(g, members@),
                    members_in_range(g, next@),
                    forall|q: usize|
                        next@.contains(q) <==> in_move_before(
                            g,
                            members@,
                            c,
                            i as int,
                            k as int,
                            q as int,
                        ),
                decreases transitions.len() - k,
            {
                let ghost before = next@;
                let t = transitions[k].0;
                let target = transitions[k].1;
                if t == Transition::Symbol(c) {
                    let mut closure = self.get_epsilon_closure(target);
                    let ghost added = closure@;
                    next.append(&mut closure);
                    proof {
                        assert forall|q: usize| next@.contains(q) <==> in_move_before(
                            g,
                            members@,
                            c,
                            i as int,
                            k + 1,
                            q as int,
                        ) by {
                            vstd::seq_lib::lemma_seq_concat_contains_all_elements(before, added, q);
                        }
                  assert forall|q: usize| next@.contains(q) <==> in_move_before(
                            g,
                            members@,
                            c,
                            i as int,
                            k + 1,
                            q as int,
                        ) by {}
                    }
                }
                k += 1;
            }
            proof {
                assert forall|q: usize| next@.contains(q) <==> in_move_before(
                    g,
                    members@,
                    c,
                    i + 1,
                    0,
                    q as int,
                ) by {}
            }
            i += 1;
        }
        let r = canonical(&next, self.nfa.states.len());
        proof {
            let list = move_list(g, members@, c, g.len() as int);
            lemma_move_list(g, members@, c, g.len() as int);
            assert forall|q: usize| r@.contains(q) <==> list.contains(q) by {
                assert(next@.contains(q) <==> in_move(g, members@, c, q as int));
            }
            lemma_canonical_unique(r@, list);
        }
        r
    }

    /// The number of the state that stands for exactly the members `set`.
    pub fn find_state(&self, set: &Vec<usize>) -> (r: Option<usize>)
        ensures
            match r {
                Some(pos) => pos < self.states@.len() && self.states@[pos as int].nfa_states@
                    == set@ && position_from(self.model(), set@, 0) == Some(pos as int),
                None => position_from(self.model(), set@, 0) is None && forall|s: int|
                    0 <= s < self.states@.len() ==> (#[trigger] self.states@[s]).nfa_states@
                        != set@,
            },
    {
        let mut i: usize = 0;
        while i < self.states.len()
            invariant
                i <= self.states@.len(),
                forall|s: int| 0 <= s < i ==> (#[trigger] self.states@[s]).nfa_states@ != set@,
                position_from(self.model(), set@, 0) == position_from(self.model(), set@, i as int),
            decreases self.states.len() - i,
        {
            if same_list(&self.states[i].nfa_states, set) {
                return Some(i);
            }
            i += 1;
        }
        None
    }
}

/// The strictly rising lists of numbers below `n`.
pub open spec fn canonical_sets(n: nat) -> Set<Seq<usize>> {
    Set::new(|v: Seq<usize>| strictly_increasing(v) && forall|i: int| 0 <= i < v.len() ==> v[i] < n)
}

/// There are finitely many strictly rising lists of numbers below `n`.
pub proof fn lemma_canonical_sets_finite(n: nat)
    ensures
        canonical_sets(n).finite(),
    decreases n,
{
    if n == 0 {
        assert(canonical_sets(0) =~= set![Seq::<usize>::empty()]) by {
            assert forall|v: Seq<usize>| canonical_sets(0).contains(v) implies v
                == Seq::<usize>::empty() by {
                if v.len() > 0 {
                    assert(v[0] < 0);
                }
            }
        }
    } else {
        let m = (n - 1) as nat;
        lemma_canonical_sets_finite(m);
        let base = canonical_sets(m);
        if m > usize::MAX {
            assert(canonical_sets(n) =~= base);
        } else {
            let top = m as usize;
            let f = |v: Seq<usize>| v.push(top);
            let ext = base.map(f);
            base.lemma_map_finite(f);
            assert(canonical_sets(n) =~= base.union(ext)) by {
                assert forall|v: Seq<usize>| canonical_sets(n).contains(v) implies base.union(
                    ext,
                ).contains(v) by {
                    if v.len() > 0 && v.last() == top {
                        let w = v.drop_last();
                        assert(base.contains(w));
                        assert(f(w) =~= v);
                    } else {
                        assert forall|i: int| 0 <= i < v.len() implies v[i] < m by {}
                    }
                }
                assert forall|v: Seq<usize>| base.union(ext).contains(v) implies canonical_sets(
                    n,
                ).contains(v) by {}
            }
        }
    }
}

/// The members of a state are numbered in rising order and are states of the graph.
pub open spec fn canonical_state(g: StateGraph, st: StateView) -> bool {
    strictly_increasing(st.nfa_states) && members_in_range(g, st.nfa_states)
}

/// The transition `j` of the state `s` carries a symbol that leaves a member
/// of `s`, and leads to the state whose members are exactly those reached on
/// that symbol.
pub open spec fn edge_ok(g: StateGraph, a: Automaton, s: int, j: int) -> bool {
    let c = a[s].transitions[j].0;
    let t = a[s].transitions[j].1;
    &&& t < a.len()
    &&& has_symbol(g, a[s].nfa_states, c)
    &&& forall|q: usize|
        a[t as int].nfa_states.contains(q) <==> in_move(g, a[s].nfa_states, c, q as int)
}

/// The state `s` has exactly one transition for every symbol that leaves one
/// of its members, and each is as `edge_ok` says.
pub open spec fn explored(g: StateGraph, a: Automaton, s: int) -> bool {
    &&& forall|j: int| 0 <= j < a[s].transitions.len() ==> edge_ok(g, a, s, j)
    &&& forall|i: int, j: int|
        0 <= i < j < a[s].transitions.len() ==> (#[trigger] a[s].transitions[i]).0 != (
        #[trigger] a[s].transitions[j]).0
    &&& forall|c: char|
        has_symbol(g, a[s].nfa_states, c) ==> exists|j: int|
            0 <= j < a[s].transitions.len() && (#[trigger] a[s].transitions[j]).0 == c
}

/// Some state with a smaller number has a transition to `t`.
pub open spec fn has_parent(a: Automaton, t: int) -> bool {
    exists|s: int, j: int|
        0 <= s < t && 0 <= j < a[s].transitions.len() && (#[trigger] a[s].transitions[j]).1 == t
}

pub open spec fn distinct_states(a: Automaton) -> bool {
    forall|s: int, t: int| 0 <= s < t < a.len() ==> (#[trigger] a[s]).nfa_states != (#[trigger] a[t]).nfa_states
}

/// `a` is the automaton of the subset construction on the graph `g` from the
/// state `start`, but for its tags: state 0 stands for the states reached
/// from `start` without a symbol; no two states stand for the same members;
/// every state has its transitions; every state but state 0 is entered from
/// a state with a smaller number.
pub open spec fn subset_structure(g: StateGraph, start: usize, a: Automaton) -> bool {
    &&& a.len() > 0
    &&& forall|s: int| 0 <= s < a.len() ==> canonical_state(g, #[trigger] a[s])
    &&& forall|q: usize| a[0].nfa_states.contains(q) <==> eps_reach(g, start as int, q as int)
    &&& distinct_states(a)
    &&& forall|s: int| 0 <= s < a.len() ==> explored(g, a, s)
    &&& forall|t: int| 0 < t < a.len() ==> has_parent(a, t)
}

/// `a` is the automaton of the subset construction on the graph `g` from the
/// state `start`, and every state carries the tag of its first member that
/// the accept list names.
pub open spec fn is_subset_automaton(
    g: StateGraph,
    accept: Seq<(usize, Seq<char>)>,
    start: usize,
    a: Automaton,
) -> bool {
    &&& subset_structure(g, start, a)
    &&& forall|s: int|
        0 <= s < a.len() ==> (#[trigger] a[s]).accept == first_accept(accept, a[s].nfa_states)
}

/// There are no more states than there are lists of members.
pub proof fn lemma_state_count_bounded(g: StateGraph, a: Automaton)
    requires
        forall|s: int| 0 <= s < a.len() ==> canonical_state(g, #[trigger] a[s]),
        distinct_states(a),
    ensures
        canonical_sets(g.len()).finite(),
        a.len() <= canonical_sets(g.len()).len(),
{
    let universe = canonical_sets(g.len());
    lemma_canonical_sets_finite(g.len());
    let lists = Seq::new(a.len(), |i: int| a[i].nfa_states);
    assert(lists.no_duplicates()) by {}
    lists.unique_seq_to_set();
    assert(lists.to_set().subset_of(universe)) by {
        assert forall|v: Seq<usize>| lists.to_set().contains(v) implies universe.contains(v) by {}
    }
    vstd::set_lib::lemma_len_subset(lists.to_set(), universe);
}

/// A transition stays as `edge_ok` says while states are added and the
/// members of the states stay as they are.
pub proof fn lemma_edge_ok_stable(g: StateGraph, a: Automaton, b: Automaton, s: int, j: int)
    requires
        a.len() <= b.len(),
        forall|x: int| 0 <= x < a.len() ==> (#[trigger] b[x]).nfa_states == a[x].nfa_states,
        0 <= s < a.len(),
        0 <= j < a[s].transitions.len(),
        j < b[s].transitions.len(),
        b[s].transitions[j] == a[s].transitions[j],
        edge_ok(g, a, s, j),
    ensures
        edge_ok(g, b, s, j),
{
}

pub proof fn lemma_explored_stable(g: StateGraph, a: Automaton, b: Automaton, s: int)
    requires
        a.len() <= b.len(),
        forall|x: int| 0 <= x < a.len() ==> (#[trigger] b[x]).nfa_states == a[x].nfa_states,
        0 <= s < a.len(),
        b[s].transitions == a[s].transitions,
        explored(g, a, s),
    ensures
        explored(g, b, s),
{
    assert forall|j: int| 0 <= j < b[s].transitions.len() implies edge_ok(g, b, s, j) by {
        lemma_edge_ok_stable(g, a, b, s, j);
    }
}

pub proof fn lemma_has_parent_stable(a: Automaton, b: Automaton, t: int)
    requires
        a.len() <= b.len(),
        forall|x: int, j: int|
            0 <= x < a.len() && 0 <= j < a[x].transitions.len() ==> j < b[x].transitions.len()
                && (#[trigger] b[x].transitions[j]) == a[x].transitions[j],
        0 < t < a.len(),
        has_parent(a, t),
    ensures
        has_parent(b, t),
{
    let (s, j) = choose|s: int, j: int|
        0 <= s < t && 0 <= j < a[s].transitions.len() && (#[trigger] a[s].transitions[j]).1 == t;
    assert(b[s].transitions[j].1 == t);
}

/// What holds of the automaton while states wait to be explored: the states
/// on the stack have no transitions yet, every other state but `current`
/// has all of its transitions, and every state but state 0 and `orphan` is
/// entered from a state with a smaller number.
pub open spec fn worklist_inv(
    g: StateGraph,
    start: usize,
    a: Automaton,
    stack: Seq<usize>,
    current: int,
    orphan: int,
) -> bool {
    &&& a.len() > 0
    &&& forall|s: int| 0 <= s < a.len() ==> canonical_state(g, #[trigger] a[s])
    &&& forall|q: usize| a[0].nfa_states.contains(q) <==> eps_reach(g, start as int, q as int)
    &&& distinct_states(a)
    &&& stack.no_duplicates()
    &&& forall|i: int|
        0 <= i < stack.len() ==> (#[trigger] stack[i]) < a.len() && a[stack[i] as int].transitions.len()
            == 0
    &&& forall|s: int|
        0 <= s < a.len() && s != current ==> stack.contains(s as usize) || #[trigger] explored(
            g,
            a,
            s,
        )
    &&& forall|t: int| 0 < t < a.len() && t != orphan ==> #[trigger] has_parent(a, t)
}

/// The state `s` has its transitions for the first `r` symbols of `range`.
pub open spec fn current_ok(g: StateGraph, a: Automaton, s: int, range: Seq<char>, r: int) -> bool {
    &&& a[s].transitions.len() == r
    &&& forall|j: int|
        0 <= j < r ==> edge_ok(g, a, s, j) && (#[trigger] a[s].transitions[j]).0 == range[j]
}

/// Adding a state that waits on the stack keeps what holds of the automaton.
pub proof fn lemma_push_state(
    g: StateGraph,
    start: usize,
    a: Automaton,
    stack: Seq<usize>,
    s: int,
    range: Seq<char>,
    r: int,
    st: StateView,
)
    requires
        worklist_inv(g, start, a, stack, s, -1),
        0 <= s < a.len(),
        current_ok(g, a, s, range, r),
        !stack.contains(s as usize),
        canonical_state(g, st),
        st.transitions.len() == 0,
        forall|x: int| 0 <= x < a.len() ==> (#[trigger] a[x]).nfa_states != st.nfa_states,
        a.len() < usize::MAX,
    ensures
        worklist_inv(g, start, a.push(st), stack.push(a.len() as usize), s, a.len() as int),
        current_ok(g, a.push(st), s, range, r),
        !stack.push(a.len() as usize).contains(s as usize),
{
    let b = a.push(st);
    let fresh = a.len() as usize;
    let stack2 = stack.push(fresh);
    assert forall|x: usize| stack2.contains(x) <==> x == fresh || stack.contains(x) by {
        lemma_seq_contains_after_push(stack, fresh, x);
    }
    assert(stack2.no_duplicates()) by {
        assert forall|i: int, j: int| 0 <= i < stack2.len() && 0 <= j < stack2.len() && i != j implies stack2[i]
            != stack2[j] by {}
    }
    assert forall|i: int| 0 <= i < stack2.len() implies (#[trigger] stack2[i]) < b.len()
        && b[stack2[i] as int].transitions.len() == 0 by {}
    assert forall|x: int| 0 <= x < b.len() && x != s implies stack2.contains(x as usize)
        || #[trigger] explored(g, b, x) by {
        if x < a.len() {
            if !stack.contains(x as usize) {
                lemma_explored_stable(g, a, b, x);
            }
        }
    }
    assert forall|t: int| 0 < t < b.len() && t != a.len() implies #[trigger] has_parent(b, t) by {
        lemma_has_parent_stable(a, b, t);
    }
    assert forall|j: int| 0 <= j < r implies edge_ok(g, b, s, j) && (#[trigger] b[s].transitions[j]).0
        == range[j] by {}
    assert forall|x: int| 0 <= x < b.len() implies canonical_state(g, #[trigger] b[x]) by {}
}

/// Giving the state `s` its transition for the next symbol of `range`
/// keeps what holds of the automaton.
pub proof fn lemma_push_transition(
    g: StateGraph,
    start: usize,
    a: Automaton,
    b: Automaton,
    stack: Seq<usize>,
    s: int,
    range: Seq<char>,
    r: int,
    pos: usize,
    orphan: int,
)
    requires
        worklist_inv(g, start, a, stack, s, orphan),
        orphan == -1 || orphan == pos,
        0 <= s < a.len(),
        current_ok(g, a, s, range, r),
        0 <= r < range.len(),
        !stack.contains(s as usize),
        has_symbol(g, a[s].nfa_states, range[r]),
        pos < a.len(),
        pos == orphan ==> s < pos,
        forall|q: usize|
            a[pos as int].nfa_states.contains(q) <==> in_move(
                g,
                a[s].nfa_states,
                range[r],
                q as int,
            ),
        b.len() == a.len(),
        forall|x: int| 0 <= x < a.len() && x != s ==> #[trigger] b[x] == a[x],
        b[s].nfa_states == a[s].nfa_states,
        b[s].transitions == a[s].transitions.push((range[r], pos)),
    ensures
        worklist_inv(g, start, b, stack, s, -1),
        current_ok(g, b, s, range, r + 1),
{
    assert(distinct_states(b)) by {}
    assert forall|x: int| 0 <= x < b.len() && x != s implies stack.contains(x as usize)
        || #[trigger] explored(g, b, x) by {
        if !stack.contains(x as usize) {
            lemma_explored_stable(g, a, b, x);
        }
    }
    assert forall|t: int| 0 < t < b.len() implies #[trigger] has_parent(b, t) by {
        if t == orphan {
            assert(b[s].transitions[r].1 == t);
        } else {
            assert forall|x: int, j: int|
                0 <= x < a.len() && 0 <= j < a[x].transitions.len() implies j
                < b[x].transitions.len() && (#[trigger] b[x].transitions[j])
                == a[x].transitions[j] by {}
            lemma_has_parent_stable(a, b, t);
        }
    }
    assert forall|j: int| 0 <= j < r + 1 implies edge_ok(g, b, s, j) && (
    #[trigger] b[s].transitions[j]).0 == range[j] by {}
}

/// A state that has its transitions for every symbol of `range`, the symbols
/// that leave its members, has all of its transitions.
pub proof fn lemma_current_explored(g: StateGraph, a: Automaton, s: int, range: Seq<char>)
    requires
        0 <= s < a.len(),
        current_ok(g, a, s, range, range.len() as int),
        range.no_duplicates(),
        forall|c: char| range.contains(c) <==> has_symbol(g, a[s].nfa_states, c),
    ensures
        explored(g, a, s),
{
    assert forall|c: char| has_symbol(g, a[s].nfa_states, c) implies exists|j: int|
        0 <= j < a[s].transitions.len() && (#[trigger] a[s].transitions[j]).0 == c by {
        assert(range.contains(c));
        let j = choose|j: int| 0 <= j < range.len() && range[j] == c;
        assert(a[s].transitions[j].0 == c);
    }
}

/// The structure of the automaton rests on the members and the transitions
/// of its states alone.
pub proof fn lemma_structure_transfer(g: StateGraph, start: usize, a: Automaton, b: Automaton)
    requires
        subset_structure(g, start, a),
        a.len() == b.len(),
        forall|x: int|
            0 <= x < a.len() ==> (#[trigger] b[x]).nfa_states == a[x].nfa_states
                && b[x].transitions == a[x].transitions,
    ensures
        subset_structure(g, start, b),
{
    assert(distinct_states(b)) by {}
    assert forall|x: int| 0 <= x < b.len() implies explored(g, b, x) by {
        lemma_explored_stable(g, a, b, x);
    }
    assert forall|t: int| 0 < t < b.len() implies has_parent(b, t) by {
        lemma_has_parent_stable(a, b, t);
    }
}

impl Dfa {
    /// The nondeterministic automaton is built and the deterministic one has
    /// no states yet.
    pub open spec fn ready(&self) -> bool {
        self.nfa.is_built() && self.states@.len() == 0
    }

    /// The deterministic automaton is that of the subset construction on
    /// the nondeterministic one.
    pub open spec fn constructed(&self) -> bool {
        is_subset_automaton(
            self.graph(),
            accept_view(self.nfa.accept@),
            self.nfa.start,
            self.model(),
        )
    }

    /// Explores the state `s`, which has no transitions yet: gives it one
    /// transition for every symbol that leaves one of its members, and puts
    /// the states that are new on the stack.
    fn explore(&mut self, s: usize, stack: &mut Vec<usize>)
        requires
            graph_wf(old(self).graph()),
            worklist_inv(
                old(self).graph(),
                old(self).nfa.start,
                old(self).model(),
                old(stack)@,
                s as int,
                -1,
            ),
            s < old(self).states@.len(),
            old(self).states@[s as int].transitions@.len() == 0,
            !old(stack)@.contains(s),
        ensures
            final(self).nfa == old(self).nfa,
            worklist_inv(
                final(self).graph(),
                final(self).nfa.start,
                final(self).model(),
                final(stack)@,
                -1,
                -1,
            ),
            final(self).states@.len() >= old(self).states@.len(),
            final(stack)@.len() - old(stack)@.len() == final(self).states@.len() - old(
                self,
            ).states@.len(),
            (Work { automaton: final(self).model(), stack: final(stack)@ }) == explored_work(
                old(self).graph(),
                Work { automaton: old(self).model(), stack: old(stack)@ },
                s as int,
            ),
    {
        let ghost g = self.graph();
        let ghost start = self.nfa.start;
        let ghost first = Work { automaton: self.model(), stack: stack@ };
        let members = copy_list(&self.states[s].nfa_states);
        let range = self.compute_nfa_transition_range(members);
        let mut r: usize = 0;
        while r < range.len()
            invariant
                r <= range@.len(),
                self.nfa == old(self).nfa,
                g == self.graph(),
                start == self.nfa.start,
                graph_wf(g),
                s < self.states@.len(),
                worklist_inv(g, start, self.model(), stack@, s as int, -1),
                current_ok(g, self.model(), s as int, range@, r as int),
                !stack@.contains(s),
                range@.no_duplicates(),
                forall|c: char|
                    range@.contains(c) <==> has_symbol(g, self.model()[s as int].nfa_states, c),
                self.states@.len() >= old(self).states@.len(),
                stack@.len() - old(stack)@.len() == self.states@.len() - old(self).states@.len(),
                range@ == symbol_range(g, first.automaton[s as int].nfa_states),
                (Work { automaton: self.model(), stack: stack@ }) == explore_upto(
                    g,
                    first,
                    s as int,
                    range@,
                    r as int,
                ),
            decreases range.len() - r,
        {
            let c = range[r];
            let ghost a = self.model();
            proof {
                assert(range@.contains(c));
            }
            let next = self.move_on(&self.states[s].nfa_states, c);
            match self.find_state(&next) {
                Some(pos) => {
                    self.states[s].transitions.push((c, pos));
                    proof {
                        let b = self.model();
                        lemma_push_transition(g, start, a, b, stack@, s as int, range@, r as int, pos, -1);
                        assert(b =~= with_transition(a, s as int, c, pos));
                    }
                },
                None => {
                    let ghost stack_before = stack@;
                    self.states.push(
                        DfaState { transitions: Vec::new(), nfa_states: next, accept: None },
                    );
                    let pos = self.states.len() - 1;
                    stack.push(pos);
                    let ghost a1 = self.model();
                    proof {
                        let st = a1[pos as int];
                        assert(a1 == a.push(st));
                        lemma_push_state(g, start, a, stack_before, s as int, range@, r as int, st);
                    }
                    self.states[s].transitions.push((c, pos));
                    proof {
                        let b = self.model();
                        lemma_push_transition(
                            g,
                            start,
                            a1,
                            b,
                            stack@,
                            s as int,
                            range@,
                            r as int,
                            pos,
                            pos as int,
                        );
                        let st = StateView {
                            transitions: Seq::empty(),
                            nfa_states: next@,
                            accept: None,
                        };
                        assert(b =~= with_transition(a.push(st), s as int, c, pos));
                    }
                },
            }
            r += 1;
        }
        proof {
            lemma_current_explored(g, self.model(), s as int, range@);
        }
    }
}

impl Dfa {
    /// The subset construction: one state for every set of states of the
    /// nondeterministic automaton that some input reaches, state 0 for the
    /// input without a character.
    pub fn construct(&mut self)
        requires
            old(self).ready(),
        ensures
            final(self).nfa == old(self).nfa,
            final(self).constructed(),
            final(self).model() == subset_automaton(
                final(self).graph(),
                accept_view(final(self).nfa.accept@),
                final(self).nfa.start,
            ),
    {
        let ghost g = self.graph();
        let ghost start = self.nfa.start;
        let n = self.nfa.states.len();
        proof {
            let rules = self.nfa.rules();
            lemma_rules_graph_len(rules, rules.len() as int);
            lemma_rules_graph_wf(rules, rules.len() as int);
            crate::nfa::lemma_rules_states_monotone(rules, 0, rules.len() as int);
        }
        let mut stack: Vec<usize> = Vec::new();
        let closure = self.get_epsilon_closure(self.nfa.start);
        let members = canonical(&closure, n);
        self.states.push(DfaState { transitions: Vec::new(), nfa_states: members, accept: None });
        stack.push(self.states.len() - 1);
        proof {
            let a = self.model();
            let list = reach_list(g, start, g.len() as int);
            lemma_reach_list(g, start, g.len() as int);
            assert forall|q: usize| a[0].nfa_states.contains(q) <==> list.contains(q) by {}
            lemma_canonical_unique(a[0].nfa_states, list);
            assert(a =~= first_work(g, start).automaton);
        }
        while stack.len() > 0
            invariant
                self.nfa == old(self).nfa,
                g == self.graph(),
                start == self.nfa.start,
                graph_wf(g),
                g.len() <= usize::MAX,
                worklist_inv(g, start, self.model(), stack@, -1, -1),
                subset_run(g, Work { automaton: self.model(), stack: stack@ }) == subset_run(
                    g,
                    first_work(g, start),
                ),
            decreases canonical_sets(g.len()).len() - self.states@.len(), stack@.len(),
        {
            let ghost stack_before = stack@;
            let count = self.states.len();
            let s = stack.pop().unwrap();
            proof {
                let a = self.model();
                assert(!stack@.contains(s)) by {}
                assert forall|x: int| 0 <= x < a.len() && x != s implies stack@.contains(x as usize)
                    || #[trigger] explored(g, a, x) by {
                    if stack_before.contains(x as usize) {
                        let i = choose|i: int|
                            0 <= i < stack_before.len() && stack_before[i] == x as usize;
                        assert(stack@[i] == x as usize);
                    }
                }
            }
            self.explore(s, &mut stack);
            proof {
                lemma_state_count_bounded(g, self.model());
            }
        }
        let ghost built = self.model();
        let mut i: usize = 0;
        while i < self.states.len()
            invariant
                i <= self.states@.len(),
                self.nfa == old(self).nfa,
                built.len() == self.states@.len(),
                forall|x: int|
                    0 <= x < built.len() ==> (#[trigger] self.model()[x]).nfa_states
                        == built[x].nfa_states && self.model()[x].transitions
                        == built[x].transitions,
                forall|x: int|
                    0 <= x < i ==> (#[trigger] self.model()[x]).accept == first_accept(
                        accept_view(self.nfa.accept@),
                        self.model()[x].nfa_states,
                    ),
            decreases self.states.len() - i,
        {
            let ghost before = self.model();
            let tag = Dfa::calculate_accept(&self.nfa.accept, &self.states[i].nfa_states);
            self.states[i].accept = tag;
            proof {
                let after = self.model();
                assert forall|x: int| 0 <= x < built.len() implies (#[trigger] after[x]).nfa_states
                    == built[x].nfa_states && after[x].transitions == built[x].transitions by {
                    assert(before[x].nfa_states == built[x].nfa_states);
                }
                assert forall|x: int| 0 <= x < i + 1 implies (#[trigger] after[x]).accept
                    == first_accept(accept_view(self.nfa.accept@), after[x].nfa_states) by {
                    if x < i {
                        assert(after[x] == before[x]);
                    }
                }
            }
            i += 1;
        }
        proof {
            let a = self.model();
            lemma_structure_transfer(g, start, built, a);
        }
    }
}

/// The automaton of the subset construction has transitions to its own
/// states only, and one transition for a symbol at most.
pub proof fn lemma_subset_wf(g: StateGraph, accept: Seq<(usize, Seq<char>)>, start: usize, a: Automaton)
    requires
        is_subset_automaton(g, accept, start, a),
    ensures
        a.len() > 0,
        targets_in_range(a),
        deterministic(a),
{
    assert forall|s: int, j: int| 0 <= s < a.len() && 0 <= j < a[s].transitions.len() implies (
    #[trigger] a[s].transitions[j]).1 < a.len() by {
        assert(explored(g, a, s));
        assert(edge_ok(g, a, s, j));
    }
    assert forall|s: int, i: int, j: int|
        0 <= s < a.len() && 0 <= i < j < a[s].transitions.len() implies (
    #[trigger] a[s].transitions[i]).0 != (#[trigger] a[s].transitions[j]).0 by {
        assert(explored(g, a, s));
    }
}

} // verus!
