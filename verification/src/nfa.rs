//! Thompson construction of one nondeterministic automaton for a whole rule set.

use vstd::prelude::*;
use crate::ast::{pattern_tree, AstNode, Parser, PatternError};
use crate::common::Tag;

pub mod ast;
pub mod nfa_construct;

verus! {
#[derive(Clone, Copy, Debug, PartialEq, Eq, Structural)]
pub enum Transition {
    Epsilon,
    Symbol(char),
}

#[derive(Debug)]
pub struct NfaState {
    pub transitions: Vec<(Transition, usize)>,
}

#[derive(Debug)]
pub struct Nfa {
    pub states: Vec<NfaState>,
    pub start: usize,
    pub accept: Vec<(usize, Tag)>,
    /// The number of states handed out so far.
    pub new_state: usize,
    /// The tree and the tag of every rule, in rule order.
    pub asts: Vec<(AstNode, Tag)>,
}

/// The outgoing edges of every state, by state number.
pub type StateGraph = Seq<Seq<(Transition, usize)>>;

/// The edges of the first `n` states, of which those past the end of `states`
/// have none yet.
pub open spec fn graph_of(states: Seq<NfaState>, n: int) -> StateGraph {
    Seq::new(
        n as nat,
        |i: int|
            if i < states.len() {
                states[i].transitions@
            } else {
                Seq::empty()
            },
    )
}

/// The graph with one more edge leaving `from`.
pub open spec fn add_edge(g: StateGraph, from: int, t: Transition, to: int) -> StateGraph {
    g.update(from, g[from].push((t, to as usize)))
}

/// The graph with two more states, which have no edges.
pub open spec fn add_pair(g: StateGraph) -> StateGraph {
    g.push(Seq::empty()).push(Seq::empty())
}

/// Whether `code` is the number of a character.
pub open spec fn is_char_code(code: int) -> bool {
    0 <= code <= 0xD7FF || 0xE000 <= code <= 0x10FFFF
}

/// One edge to `to` for every character whose code lies in `lo..end`, in rising order.
pub open spec fn span_edges(lo: int, end: int, to: usize) -> Seq<(Transition, usize)>
    decreases end - lo,
{
    if end <= lo {
        Seq::empty()
    } else if is_char_code(end - 1) {
        span_edges(lo, end - 1, to).push((Transition::Symbol((end - 1) as char), to))
    } else {
        span_edges(lo, end - 1, to)
    }
}

/// A sub-automaton: the graph that holds it, its entry state and its exit state.
pub struct Fragment {
    pub graph: StateGraph,
    pub start: int,
    pub accept: int,
}

/// The number of states that the construction adds for `node`: two for every
/// node but a concatenation.
pub open spec fn state_count(node: AstNode) -> nat
    decreases node,
{
    match node {
        AstNode::And(l, r) => state_count(*l) + state_count(*r),
        AstNode::Or(l, r) => 2 + state_count(*l) + state_count(*r),
        AstNode::Star(x) => 2 + state_count(*x),
        AstNode::Plus(x) => 2 + state_count(*x),
        AstNode::Question(x) => 2 + state_count(*x),
        AstNode::Char(_) => 2,
        AstNode::Span(_, _) => 2,
    }
}

/// Thompson's construction of `node` on top of the graph `g`: new states are
/// numbered from `g.len()` on, and the states of `g` keep their edges.
pub open spec fn thompson(g: StateGraph, node: AstNode) -> Fragment
    decreases node,
{
    let start = g.len() as int;
    let accept = start + 1;
    match node {
        AstNode::And(l, r) => {
            let a = thompson(g, *l);
            let b = thompson(a.graph, *r);
            Fragment {
                graph: add_edge(b.graph, a.accept, Transition::Epsilon, b.start),
                start: a.start,
                accept: b.accept,
            }
        },
        AstNode::Or(l, r) => {
            let a = thompson(add_pair(g), *l);
            let b = thompson(a.graph, *r);
            let g1 = add_edge(b.graph, start, Transition::Epsilon, a.start);
            let g2 = add_edge(g1, start, Transition::Epsilon, b.start);
            let g3 = add_edge(g2, a.accept, Transition::Epsilon, accept);
            Fragment { graph: add_edge(g3, b.accept, Transition::Epsilon, accept), start, accept }
        },
        AstNode::Star(x) => {
            let a = thompson(add_pair(g), *x);
            let g1 = add_edge(a.graph, start, Transition::Epsilon, a.start);
            let g2 = add_edge(g1, start, Transition::Epsilon, accept);
            let g3 = add_edge(g2, a.accept, Transition::Epsilon, a.start);
            Fragment { graph: add_edge(g3, a.accept, Transition::Epsilon, accept), start, accept }
        },
        AstNode::Plus(x) => {
            let a = thompson(add_pair(g), *x);
            let g1 = add_edge(a.graph, start, Transition::Epsilon, a.start);
            let g2 = add_edge(g1, a.accept, Transition::Epsilon, a.start);
            Fragment { graph: add_edge(g2, a.accept, Transition::Epsilon, accept), start, accept }
        },
        AstNode::Question(x) => {
            let a = thompson(add_pair(g), *x);
            let g1 = add_edge(a.graph, start, Transition::Epsilon, a.start);
            let g2 = add_edge(g1, start, Transition::Epsilon, accept);
            Fragment { graph: add_edge(g2, a.accept, Transition::Epsilon, accept), start, accept }
        },
        AstNode::Char(c) => Fragment {
            graph: add_edge(add_pair(g), start, Transition::Symbol(c), accept),
            start,
            accept,
        },
        AstNode::Span(lo, hi) => Fragment {
            graph: add_pair(g).update(start, span_edges(lo as int, hi as int + 1, accept as usize)),
            start,
            accept,
        },
    }
}

/// The construction adds exactly `state_count(node)` states, and the entry and
/// exit of the fragment are among them.
pub proof fn lemma_thompson_shape(g: StateGraph, node: AstNode)
    ensures
        thompson(g, node).graph.len() == g.len() + state_count(node),
        g.len() <= thompson(g, node).start < thompson(g, node).graph.len(),
        g.len() <= thompson(g, node).accept < thompson(g, node).graph.len(),
    decreases node,
{
    match node {
        AstNode::And(l, r) => {
            lemma_thompson_shape(g, *l);
            lemma_thompson_shape(thompson(g, *l).graph, *r);
        },
        AstNode::Or(l, r) => {
            lemma_thompson_shape(add_pair(g), *l);
            lemma_thompson_shape(thompson(add_pair(g), *l).graph, *r);
        },
        AstNode::Star(x) => {
            lemma_thompson_shape(add_pair(g), *x);
        },
        AstNode::Plus(x) => {
            lemma_thompson_shape(add_pair(g), *x);
        },
        AstNode::Question(x) => {
            lemma_thompson_shape(add_pair(g), *x);
        },
        AstNode::Char(_) => {},
        AstNode::Span(_, _) => {},
    }
}

/// Every edge of the graph leads to a state of the graph.
pub open spec fn graph_wf(g: StateGraph) -> bool {
    forall|p: int, j: int|
        0 <= p < g.len() && 0 <= j < g[p].len() ==> (#[trigger] g[p][j]).1 < g.len()
}

pub proof fn lemma_span_edges_target(lo: int, end: int, to: usize, j: int)
    requires
        0 <= j < span_edges(lo, end, to).len(),
    ensures
        span_edges(lo, end, to)[j].1 == to,
    decreases end - lo,
{
    if end > lo {
        if j < span_edges(lo, end - 1, to).len() {
            lemma_span_edges_target(lo, end - 1, to, j);
        }
    }
}

/// The construction keeps every edge inside the graph.
pub proof fn lemma_thompson_wf(g: StateGraph, node: AstNode)
    requires
        graph_wf(g),
        g.len() + state_count(node) <= usize::MAX,
    ensures
        graph_wf(thompson(g, node).graph),
    decreases node,
{
    let start = g.len() as int;
    let accept = start + 1;
    match node {
        AstNode::And(l, r) => {
            let a = thompson(g, *l);
            lemma_thompson_shape(g, *l);
            lemma_thompson_wf(g, *l);
            lemma_thompson_shape(a.graph, *r);
            lemma_thompson_wf(a.graph, *r);
        },
        AstNode::Or(l, r) => {
            let a = thompson(add_pair(g), *l);
            lemma_thompson_shape(add_pair(g), *l);
            lemma_thompson_wf(add_pair(g), *l);
            let b = thompson(a.graph, *r);
            lemma_thompson_shape(a.graph, *r);
            lemma_thompson_wf(a.graph, *r);
            let g1 = add_edge(b.graph, start, Transition::Epsilon, a.start);
        },
        AstNode::Star(x) => {
            let a = thompson(add_pair(g), *x);
            lemma_thompson_shape(add_pair(g), *x);
            lemma_thompson_wf(add_pair(g), *x);
            let g1 = add_edge(a.graph, start, Transition::Epsilon, a.start);
        },
        AstNode::Plus(x) => {
            let a = thompson(add_pair(g), *x);
            lemma_thompson_shape(add_pair(g), *x);
            lemma_thompson_wf(add_pair(g), *x);
        },
        AstNode::Question(x) => {
            let a = thompson(add_pair(g), *x);
            lemma_thompson_shape(add_pair(g), *x);
            lemma_thompson_wf(add_pair(g), *x);
        },
        AstNode::Char(c) => {
        },
        AstNode::Span(lo, hi) => {
            let h = thompson(g, node).graph;
            assert forall|p: int, j: int| 0 <= p < h.len() && 0 <= j < h[p].len() implies (
            #[trigger] h[p][j]).1 < h.len() by {
                if p == start {
                    lemma_span_edges_target(lo as int, hi as int + 1, accept as usize, j);
                } else {
                }
            }
        },
    }
}

/// A rule as the automaton sees it: the tree of its pattern and its tag.
pub type Rule = (AstNode, Seq<char>);

pub open spec fn rules_view(asts: Seq<(AstNode, Tag)>) -> Seq<Rule> {
    Seq::new(asts.len(), |i: int| (asts[i].0, asts[i].1@))
}

pub open spec fn accept_view(accept: Seq<(usize, Tag)>) -> Seq<(usize, Seq<char>)> {
    Seq::new(accept.len(), |i: int| (accept[i].0, accept[i].1@))
}

/// The graph after the first `k` rules: state 0 alone, then the fragment of
/// each rule in turn, each joined to state 0 by an edge without a symbol.
pub open spec fn rules_graph(rules: Seq<Rule>, k: int) -> StateGraph
    decreases k,
{
    if k <= 0 {
        seq![Seq::empty()]
    } else {
        let f = thompson(rules_graph(rules, k - 1), rules[k - 1].0);
        add_edge(f.graph, 0, Transition::Epsilon, f.start)
    }
}

/// The fragment of rule `i` within the automaton of the whole rule set.
pub open spec fn rule_fragment(rules: Seq<Rule>, i: int) -> Fragment {
    thompson(rules_graph(rules, i), rules[i].0)
}

/// The accepting states of the first `k` rules, in rule order, with their tags.
pub open spec fn rules_accept(rules: Seq<Rule>, k: int) -> Seq<(usize, Seq<char>)> {
    Seq::new(k as nat, |i: int| (rule_fragment(rules, i).accept as usize, rules[i].1))
}

/// The number of states of the automaton of the first `k` rules.
pub open spec fn rules_states(rules: Seq<Rule>, k: int) -> nat
    decreases k,
{
    if k <= 0 {
        1
    } else {
        rules_states(rules, k - 1) + state_count(rules[k - 1].0)
    }
}

pub proof fn lemma_rules_graph_len(rules: Seq<Rule>, k: int)
    requires
        0 <= k <= rules.len(),
    ensures
        rules_graph(rules, k).len() == rules_states(rules, k),
    decreases k,
{
    if k > 0 {
        lemma_rules_graph_len(rules, k - 1);
        lemma_thompson_shape(rules_graph(rules, k - 1), rules[k - 1].0);
    }
}

/// Every edge of the automaton of a rule set leads to one of its states.
pub proof fn lemma_rules_graph_wf(rules: Seq<Rule>, k: int)
    requires
        0 <= k <= rules.len(),
        rules_states(rules, k) <= usize::MAX,
    ensures
        graph_wf(rules_graph(rules, k)),
        rules_graph(rules, k).len() == rules_states(rules, k),
    decreases k,
{
    if k > 0 {
        lemma_rules_graph_wf(rules, k - 1);
        let g = rules_graph(rules, k - 1);
        lemma_thompson_shape(g, rules[k - 1].0);
        lemma_thompson_wf(g, rules[k - 1].0);
    }
}

pub proof fn lemma_rules_states_monotone(rules: Seq<Rule>, i: int, k: int)
    requires
        0 <= i <= k,
    ensures
        rules_states(rules, i) <= rules_states(rules, k),
    decreases k - i,
{
    if i < k {
        lemma_rules_states_monotone(rules, i, k - 1);
    }
}

/// What the patterns of a rule list denote, or the reason why the first
/// rule that cannot be compiled is rejected.
pub open spec fn compile_rules(patterns: Seq<(Seq<char>, Seq<char>)>, k: int) -> Result<
    Seq<Rule>,
    PatternError,
>
    decreases k,
{
    if k <= 0 {
        Ok(Seq::empty())
    } else {
        match compile_rules(patterns, k - 1) {
            Err(e) => Err(e),
            Ok(rules) => match pattern_tree(patterns[k - 1].0) {
                Err(e) => Err(e),
                Ok(tree) => {
                    let next = rules.push((tree, patterns[k - 1].1));
                    if rules_states(next, k) > usize::MAX {
                        Err(PatternError::TooLarge)
                    } else {
                        Ok(next)
                    }
                },
            },
        }
    }
}

pub open spec fn patterns_view(pattern: Seq<(String, Tag)>) -> Seq<(Seq<char>, Seq<char>)> {
    Seq::new(pattern.len(), |i: int| (pattern[i].0@, pattern[i].1@))
}

/// `char::from_u32` gives the character with the code `i`, and nothing where
/// `i` is a surrogate or lies past the last code point.
pub assume_specification[ char::from_u32 ](i: u32) -> (r: Option<char>)
    ensures
        is_char_code(i as int) ==> r == Some(i as char),
        !is_char_code(i as int) ==> r is None,
;

/// Counts the states that the construction adds for `node`, if they can be numbered.
fn count_states(node: &AstNode) -> (r: Option<usize>)
    ensures
        match r {
            Some(n) => n == state_count(*node),
            None => state_count(*node) > usize::MAX,
        },
    decreases *node,
{
    match node {
        AstNode::And(l, r) => {
            match (count_states(l), count_states(r)) {
                (Some(a), Some(b)) => a.checked_add(b),
                _ => None,
            }
        },
        AstNode::Or(l, r) => {
            match (count_states(l), count_states(r)) {
                (Some(a), Some(b)) => match a.checked_add(b) {
                    Some(n) => n.checked_add(2),
                    None => None,
                },
                _ => None,
            }
        },
        AstNode::Star(x) | AstNode::Plus(x) | AstNode::Question(x) => {
            match count_states(x) {
                Some(n) => n.checked_add(2),
                None => None,
            }
        },
        AstNode::Char(_) => Some(2),
        AstNode::Span(_, _) => Some(2),
    }
}

impl Nfa {
    /// The rules that the automaton is built from.
    pub open spec fn rules(&self) -> Seq<Rule> {
        rules_view(self.asts@)
    }

    /// The edges of every state handed out so far.
    pub open spec fn graph(&self) -> StateGraph {
        graph_of(self.states@, self.new_state as int)
    }

    /// Nothing has been built yet.
    pub open spec fn is_fresh(&self) -> bool {
        &&& self.states@.len() == 0
        &&& self.accept@.len() == 0
        &&& self.start == 0
        &&& self.new_state == 0
        &&& rules_states(self.rules(), self.rules().len() as int) <= usize::MAX
    }

    /// The automaton of the whole rule set has been built.
    pub open spec fn is_built(&self) -> bool {
        &&& self.start == 0
        &&& graph_of(self.states@, self.states@.len() as int) == rules_graph(
            self.rules(),
            self.rules().len() as int,
        )
        &&& accept_view(self.accept@) == rules_accept(self.rules(), self.rules().len() as int)
    }

    /// The state with the number `state`, which is created, with every state
    /// before it, if it does not exist yet.
    pub fn get_state(&mut self, state: usize) -> (r: &mut NfaState)
        requires
            state < usize::MAX,
        ensures
            r.transitions@ == graph_of(old(self).states@, state + 1)[state as int],
            state < final(self).states@.len(),
            final(self).states@.len() == old(self).states@.len() || (old(self).states@.len()
                <= state && final(self).states@.len() == state + 1),
            final(self).states@[state as int] == *final(r),
            forall|i: int|
                0 <= i < final(self).states@.len() && i != state ==> (
                #[trigger] final(self).states@[i]).transitions@ == graph_of(
                    old(self).states@,
                    i + 1,
                )[i],
            final(self).start == old(self).start,
            final(self).accept == old(self).accept,
            final(self).new_state == old(self).new_state,
            final(self).asts == old(self).asts,
    {
        while self.states.len() <= state
            invariant
                self.states@.len() <= state + 1 || self.states@.len() == old(self).states@.len(),
                old(self).states@.len() <= self.states@.len(),
                forall|i: int|
                    0 <= i < old(self).states@.len() ==> self.states@[i] == old(self).states@[i],
                forall|i: int|
                    old(self).states@.len() <= i < self.states@.len()
                        ==> self.states@[i].transitions@ == Seq::<(Transition, usize)>::empty(),
                self.start == old(self).start,
                self.accept == old(self).accept,
                self.new_state == old(self).new_state,
                self.asts == old(self).asts,
            decreases state + 1 - self.states.len(),
        {
            self.states.push(NfaState { transitions: Vec::new() });
        }
        &mut self.states[state]
    }

    /// Adds an edge from `from` to `to`.
    fn link(&mut self, from: usize, t: Transition, to: usize)
        requires
            old(self).states@.len() <= old(self).new_state,
            from < old(self).new_state,
        ensures
            final(self).graph() == add_edge(old(self).graph(), from as int, t, to as int),
            final(self).states@.len() <= final(self).new_state,
            final(self).start == old(self).start,
            final(self).accept == old(self).accept,
            final(self).new_state == old(self).new_state,
            final(self).asts == old(self).asts,
    {
        self.get_state(from).transitions.push((t, to));
    }

    /// Hands out the numbers of two new states.
    fn allot_pair(&mut self) -> (r: (usize, usize))
        requires
            old(self).states@.len() <= old(self).new_state,
            old(self).new_state + 2 <= usize::MAX,
        ensures
            r.0 == old(self).new_state,
            r.1 == old(self).new_state + 1,
            final(self).graph() == add_pair(old(self).graph()),
            final(self).states@.len() <= final(self).new_state,
            final(self).start == old(self).start,
            final(self).accept == old(self).accept,
            final(self).new_state == old(self).new_state + 2,
            final(self).asts == old(self).asts,
    {
        let start = self.new_state;
        self.new_state += 1;
        let accept = self.new_state;
        self.new_state += 1;
        (start, accept)
    }

    /// Builds the fragment of `node` and returns its entry and exit states.
    pub fn construct_node(&mut self, node: &AstNode) -> (r: (usize, usize))
        requires
            old(self).states@.len() <= old(self).new_state,
            old(self).new_state + state_count(*node) <= usize::MAX,
        ensures
            final(self).graph() == thompson(old(self).graph(), *node).graph,
            r.0 == thompson(old(self).graph(), *node).start,
            r.1 == thompson(old(self).graph(), *node).accept,
            final(self).new_state == old(self).new_state + state_count(*node),
            final(self).states@.len() <= final(self).new_state,
            final(self).start == old(self).start,
            final(self).accept == old(self).accept,
            final(self).asts == old(self).asts,
        decreases *node,
    {
        let ghost g = self.graph();
        match node {
            AstNode::And(left, right) => {
                let (left_start, left_accept) = self.construct_node(left);
                proof {
                    lemma_thompson_shape(g, **left);
                }
                let (right_start, right_accept) = self.construct_node(right);
                self.link(left_accept, Transition::Epsilon, right_start);
                (left_start, right_accept)
            },
            AstNode::Or(left, right) => {
                let (start, accept) = self.allot_pair();
                let (left_start, left_accept) = self.construct_node(left);
                proof {
                    lemma_thompson_shape(add_pair(g), **left);
                    lemma_thompson_shape(self.graph(), **right);
                }
                let (right_start, right_accept) = self.construct_node(right);
                self.link(start, Transition::Epsilon, left_start);
                self.link(start, Transition::Epsilon, right_start);
                self.link(left_accept, Transition::Epsilon, accept);
                self.link(right_accept, Transition::Epsilon, accept);
                (start, accept)
            },
            AstNode::Star(inner) => {
                let (start, accept) = self.allot_pair();
                let (node_start, node_accept) = self.construct_node(inner);
                proof {
                    lemma_thompson_shape(add_pair(g), **inner);
                }
                self.link(start, Transition::Epsilon, node_start);
                self.link(start, Transition::Epsilon, accept);
                self.link(node_accept, Transition::Epsilon, node_start);
                self.link(node_accept, Transition::Epsilon, accept);
                (start, accept)
            },
            AstNode::Plus(inner) => {
                let (start, accept) = self.allot_pair();
                let (node_start, node_accept) = self.construct_node(inner);
                proof {
                    lemma_thompson_shape(add_pair(g), **inner);
                }
                self.link(start, Transition::Epsilon, node_start);
                self.link(node_accept, Transition::Epsilon, node_start);
                self.link(node_accept, Transition::Epsilon, accept);
                (start, accept)
            },
            AstNode::Question(inner) => {
                let (start, accept) = self.allot_pair();
                let (node_start, node_accept) = self.construct_node(inner);
                proof {
                    lemma_thompson_shape(add_pair(g), **inner);
                }
                self.link(start, Transition::Epsilon, node_start);
                self.link(start, Transition::Epsilon, accept);
                self.link(node_accept, Transition::Epsilon, accept);
                (start, accept)
            },
            AstNode::Char(c) => {
                let (start, accept) = self.allot_pair();
                self.link(start, Transition::Symbol(*c), accept);
                (start, accept)
            },
            AstNode::Span(start_char, end_char) => {
                let (start, accept) = self.allot_pair();
                let last: u32 = *end_char as u32;
                let mut code: u32 = *start_char as u32;
                let ghost base = self.graph();
                while code <= last
                    invariant
                        code == *start_char as u32 || *start_char as u32 <= code <= last + 1,
                        last == *end_char as u32,
                        last <= 0x10FFFF,
                        start < self.new_state,
                        start < base.len(),
                        self.states@.len() <= self.new_state,
                        self.graph() == base.update(
                            start as int,
                            span_edges(*start_char as int, code as int, accept),
                        ),
                        self.start == old(self).start,
                        self.accept == old(self).accept,
                        self.new_state == old(self).new_state + 2,
                        self.asts == old(self).asts,
                    decreases last + 1 - code,
                {
                    match char::from_u32(code) {
                        Some(c) => {
                            self.link(start, Transition::Symbol(c), accept);
                        },
                        None => {},
                    }
                    code += 1;
                }
                (start, accept)
            },
        }
    }

    /// Builds the fragment of one rule, records its exit state with the
    /// rule's tag, and returns its entry state.
    pub fn construct_one(&mut self, ast: &AstNode, tag: Tag) -> (start: usize)
        requires
            old(self).states@.len() <= old(self).new_state,
            old(self).new_state + state_count(*ast) <= usize::MAX,
        ensures
            final(self).graph() == thompson(old(self).graph(), *ast).graph,
            start == thompson(old(self).graph(), *ast).start,
            accept_view(final(self).accept@) == accept_view(old(self).accept@).push(
                (thompson(old(self).graph(), *ast).accept as usize, tag@),
            ),
            final(self).new_state == old(self).new_state + state_count(*ast),
            final(self).states@.len() <= final(self).new_state,
            final(self).start == old(self).start,
            final(self).asts == old(self).asts,
    {
        let (start, accept) = self.construct_node(ast);
        self.accept.push((accept, tag));
        start
    }

    /// Builds the automaton of the whole rule set: state 0, joined to the
    /// fragment of every rule, in rule order.
    pub fn construct(&mut self)
        requires
            old(self).is_fresh(),
        ensures
            final(self).is_built(),
            final(self).rules() == old(self).rules(),
            final(self).states@.len() == rules_states(
                old(self).rules(),
                old(self).rules().len() as int,
            ),
    {
        let ghost rules = self.rules();
        let mut asts: Vec<(AstNode, Tag)> = Vec::new();
        core::mem::swap(&mut asts, &mut self.asts);
        self.get_state(self.start);
        self.new_state += 1;
        let mut i: usize = 0;
        while i < asts.len()
            invariant
                i <= asts.len(),
                rules == rules_view(asts@),
                rules_states(rules, rules.len() as int) <= usize::MAX,
                self.start == 0,
                self.states@.len() <= self.new_state,
                self.new_state == rules_states(rules, i as int),
                self.graph() == rules_graph(rules, i as int),
                accept_view(self.accept@) == rules_accept(rules, i as int),
            decreases asts.len() - i,
        {
            proof {
                lemma_rules_states_monotone(rules, i + 1, rules.len() as int);
                lemma_thompson_shape(self.graph(), asts@[i as int].0);
            }
            let tag = asts[i].1.clone();
            let start = self.construct_one(&asts[i].0, tag);
            self.link(self.start, Transition::Epsilon, start);
            i += 1;
        }
        if self.new_state > 0 {
            self.get_state(self.new_state - 1);
        }
        core::mem::swap(&mut asts, &mut self.asts);
        assert(self.graph() == rules_graph(rules, rules.len() as int));
    }

    /// Parses the pattern of every rule, in rule order.
    pub fn new(pattern: Vec<(String, Tag)>) -> (r: Result<Nfa, PatternError>)
        ensures
            match compile_rules(patterns_view(pattern@), pattern@.len() as int) {
                Ok(rules) => r is Ok && r->Ok_0.rules() == rules && r->Ok_0.is_fresh(),
                Err(e) => r is Err && r->Err_0 == e,
            },
    {
        let mut asts: Vec<(AstNode, Tag)> = Vec::new();
        let mut total: usize = 1;
        let mut i: usize = 0;
        proof {
            assert(rules_view(asts@) == Seq::<Rule>::empty());
        }
        while i < pattern.len()
            invariant
                i <= pattern.len(),
                compile_rules(patterns_view(pattern@), i as int) == Ok::<Seq<Rule>, PatternError>(
                    rules_view(asts@),
                ),
                asts@.len() == i,
                total == rules_states(rules_view(asts@), i as int),
            decreases pattern.len() - i,
        {
            let ghost before = rules_view(asts@);
            let mut parser = Parser::new(pattern[i].0.clone());
            let tree = match parser.parse() {
                Ok(tree) => tree,
                Err(e) => {
                    proof {
                        lemma_compile_error_persists(patterns_view(pattern@), i + 1, pattern@.len() as int);
                    }
                    return Err(e);
                },
            };
            let count = count_states(&tree);
            let tag = pattern[i].1.clone();
            asts.push((tree, tag));
            proof {
                assert(rules_view(asts@) == before.push((tree, pattern@[i as int].1@)));
                lemma_rules_states_prefix(before, rules_view(asts@), i as int);
            }
            let sum = match count {
                Some(n) => total.checked_add(n),
                None => None,
            };
            match sum {
                Some(n) => {
                    total = n;
                },
                None => {
                    proof {
                        lemma_compile_error_persists(patterns_view(pattern@), i + 1, pattern@.len() as int);
                    }
                    return Err(PatternError::TooLarge);
                },
            }
            i += 1;
        }
        Ok(Nfa { states: Vec::new(), start: 0, accept: Vec::new(), new_state: 0, asts })
    }
}

/// The state count of the first `k` rules depends on those rules alone.
pub proof fn lemma_rules_states_prefix(a: Seq<Rule>, b: Seq<Rule>, k: int)
    requires
        0 <= k <= a.len() <= b.len(),
        forall|i: int| 0 <= i < k ==> a[i] == b[i],
    ensures
        rules_states(a, k) == rules_states(b, k),
    decreases k,
{
    if k > 0 {
        lemma_rules_states_prefix(a, b, k - 1);
    }
}

/// Once a rule is rejected, the rule list is rejected for that reason.
pub proof fn lemma_compile_error_persists(patterns: Seq<(Seq<char>, Seq<char>)>, i: int, k: int)
    requires
        0 <= i <= k,
        compile_rules(patterns, i) is Err,
    ensures
        compile_rules(patterns, k) == compile_rules(patterns, i),
    decreases k - i,
{
    if i < k {
        lemma_compile_error_persists(patterns, i, k - 1);
    }
}

} // verus!
