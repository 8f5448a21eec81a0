//! Thompson construction for one pattern of the small language.

use vstd::prelude::*;
use crate::ast::PatternError;
use crate::nfa::ast::{pattern_tree, AstNode, Parser};
use crate::nfa::{
    add_edge, add_pair, graph_of, lemma_thompson_shape, state_count, thompson, NfaState, StateGraph,
    Transition,
};

verus! {
/// The same pattern as a tree of the full pattern language.
pub open spec fn lifted(node: AstNode) -> crate::ast::AstNode
    decreases node,
{
    match node {
        AstNode::And(l, r) => crate::ast::AstNode::And(Box::new(lifted(*l)), Box::new(lifted(*r))),
        AstNode::Or(l, r) => crate::ast::AstNode::Or(Box::new(lifted(*l)), Box::new(lifted(*r))),
        AstNode::Star(x) => crate::ast::AstNode::Star(Box::new(lifted(*x))),
        AstNode::Char(c) => crate::ast::AstNode::Char(c),
    }
}

/// The automaton of one pattern. State 0 is set aside and has no edges.
#[derive(Debug)]
pub struct Nfa {
    pub states: Vec<NfaState>,
    pub start: usize,
    pub accept: usize,
    /// The number of states handed out so far.
    pub new_state: usize,
    pub ast: AstNode,
}

/// Counts the states that the construction adds for `node`, if they can be numbered.
fn count_states(node: &AstNode) -> (r: Option<usize>)
    ensures
        match r {
            Some(n) => n == state_count(lifted(*node)),
            None => state_count(lifted(*node)) > usize::MAX,
        },
    decreases *node,
{
    match node {
        AstNode::And(l, r) => {
            match (count_states(l), count_states(r)) {
                (Some(a), Some(b)) => a.checked_add(b),
                _ => None,
            }
        },
        AstNode::Or(l, r) => {
            match (count_states(l), count_states(r)) {
                (Some(a), Some(b)) => match a.checked_add(b) {
                    Some(n) => n.checked_add(2),
                    None => None,
                },
                _ => None,
            }
        },
        AstNode::Star(x) => {
            match count_states(x) {
                Some(n) => n.checked_add(2),
                None => None,
            }
        },
        AstNode::Char(_) => Some(2),
    }
}

impl Nfa {
    /// The edges of every state handed out so far.
    pub open spec fn graph(&self) -> StateGraph {
        graph_of(self.states@, self.new_state as int)
    }

    /// Nothing has been built yet, and the states of the pattern can be numbered.
    pub open spec fn is_fresh(&self) -> bool {
        &&& self.states@.len() == 0
        &&& self.new_state == 1
        &&& 1 + state_count(lifted(self.ast)) <= usize::MAX
    }

    /// Parses the pattern.
    pub fn new(pattern: String) -> (r: Result<Nfa, PatternError>)
        ensures
            match pattern_tree(pattern@) {
                Ok(tree) => if 1 + state_count(lifted(tree)) <= usize::MAX {
                    r is Ok && r->Ok_0.ast == tree && r->Ok_0.is_fresh() && r->Ok_0.start == 0
                        && r->Ok_0.accept == 0
                } else {
                    r is Err && r->Err_0 == PatternError::TooLarge
                },
                Err(e) => r is Err && r->Err_0 == e,
            },
    {
        let mut parser = Parser::new(pattern);
        let ast = match parser.parse() {
            Ok(ast) => ast,
            Err(e) => {
                return Err(e);
            },
        };
        let fits = match count_states(&ast) {
            Some(n) => n < usize::MAX,
            None => false,
        };
        if !fits {
            return Err(PatternError::TooLarge);
        }
        Ok(Nfa { states: Vec::new(), start: 0, accept: 0, new_state: 1, ast })
    }

    /// The state with the number `state`, which is created, with every state
    /// before it, if it does not exist yet.
    pub fn get_state(&mut self, state: usize) -> (r: &mut NfaState)
        requires
            state < usize::MAX,
        ensures
            r.transitions@ == graph_of(old(self).states@, state + 1)[state as int],
            state < final(self).states@.len(),
            final(self).states@.len() == old(self).states@.len() || (old(self).states@.len()
                <= state && final(self).states@.len() == state + 1),
            final(self).states@[state as int] == *final(r),
            forall|i: int|
                0 <= i < final(self).states@.len() && i != state ==> (
                #[trigger] final(self).states@[i]).transitions@ == graph_of(
                    old(self).states@,
                    i + 1,
                )[i],
            final(self).start == old(self).start,
            final(self).accept == old(self).accept,
            final(self).new_state == old(self).new_state,
            final(self).ast == old(self).ast,
    {
        while self.states.len() <= state
            invariant
                self.states@.len() <= state + 1 || self.states@.len() == old(self).states@.len(),
                old(self).states@.len() <= self.states@.len(),
                forall|i: int|
                    0 <= i < old(self).states@.len() ==> self.states@[i] == old(self).states@[i],
                forall|i: int|
                    old(self).states@.len() <= i < self.states@.len()
                        ==> self.states@[i].transitions@ == Seq::<(Transition, usize)>::empty(),
                self.start == old(self).start,
                self.accept == old(self).accept,
                self.new_state == old(self).new_state,
                self.ast == old(self).ast,
            decreases state + 1 - self.states.len(),
        {
            self.states.push(NfaState { transitions: Vec::new() });
        }
        &mut self.states[state]
    }

    /// Adds an edge from `from` to `to`.
    fn link(&mut self, from: usize, t: Transition, to: usize)
        requires
            old(self).states@.len() <= old(self).new_state,
            from < old(self).new_state,
        ensures
            final(self).graph() == add_edge(old(self).graph(), from as int, t, to as int),
            final(self).states@.len() <= final(self).new_state,
            final(self).start == old(self).start,
            final(self).accept == old(self).accept,
            final(self).new_state == old(self).new_state,
            final(self).ast == old(self).ast,
    {
        self.get_state(from).transitions.push((t, to));
    }

    /// Hands out the numbers of two new states.
    fn allot_pair(&mut self) -> (r: (usize, usize))
        requires
            old(self).states@.len() <= old(self).new_state,
            old(self).new_state + 2 <= usize::MAX,
        ensures
            r.0 == old(self).new_state,
            r.1 == old(self).new_state + 1,
            final(self).graph() == add_pair(old(self).graph()),
            final(self).states@.len() <= final(self).new_state,
            final(self).start == old(self).start,
            final(self).accept == old(self).accept,
            final(self).new_state == old(self).new_state + 2,
            final(self).ast == old(self).ast,
    {
        let start = self.new_state;
        self.new_state += 1;
        let accept = self.new_state;
        self.new_state += 1;
        (start, accept)
    }

    /// Builds the fragment of `node` and returns its entry and exit states.
    pub fn construct_node(&mut self, node: &AstNode) -> (r: (usize, usize))
        requires
            old(self).states@.len() <= old(self).new_state,
            old(self).new_state + state_count(lifted(*node)) <= usize::MAX,
        ensures
            final(self).graph() == thompson(old(self).graph(), lifted(*node)).graph,
            r.0 == thompson(old(self).graph(), lifted(*node)).start,
            r.1 == thompson(old(self).graph(), lifted(*node)).accept,
            final(self).new_state == old(self).new_state + state_count(lifted(*node)),
            final(self).states@.len() <= final(self).new_state,
            final(self).start == old(self).start,
            final(self).accept == old(self).accept,
            final(self).ast == old(self).ast,
        decreases *node,
    {
        let ghost g = self.graph();
        match node {
            AstNode::And(left, right) => {
                let (left_start, left_accept) = self.construct_node(left);
                proof {
                    lemma_thompson_shape(g, lifted(**left));
                    lemma_thompson_shape(self.graph(), lifted(**right));
                }
                let (right_start, right_accept) = self.construct_node(right);
                self.link(left_accept, Transition::Epsilon, right_start);
                (left_start, right_accept)
            },
            AstNode::Or(left, right) => {
                let (start, accept) = self.allot_pair();
                let (left_start, left_accept) = self.construct_node(left);
                proof {
                    lemma_thompson_shape(add_pair(g), lifted(**left));
                    lemma_thompson_shape(self.graph(), lifted(**right));
                }
                let (right_start, right_accept) = self.construct_node(right);
                self.link(start, Transition::Epsilon, left_start);
                self.link(start, Transition::Epsilon, right_start);
                self.link(left_accept, Transition::Epsilon, accept);
                self.link(right_accept, Transition::Epsilon, accept);
                (start, accept)
            },
            AstNode::Star(inner) => {
                let (start, accept) = self.allot_pair();
                let (node_start, node_accept) = self.construct_node(inner);
                proof {
                    lemma_thompson_shape(add_pair(g), lifted(**inner));
                }
                self.link(start, Transition::Epsilon, node_start);
                self.link(start, Transition::Epsilon, accept);
                self.link(node_accept, Transition::Epsilon, node_start);
                self.link(node_accept, Transition::Epsilon, accept);
                (start, accept)
            },
            AstNode::Char(c) => {
                let (start, accept) = self.allot_pair();
                self.link(start, Transition::Symbol(*c), accept);
                (start, accept)
            },
        }
    }

    /// Builds the automaton of the pattern on top of state 0, and records
    /// its entry and exit states.
    pub fn construct(&mut self)
        requires
            old(self).is_fresh(),
        ensures
            final(self).ast == old(self).ast,
            final(self).graph() == thompson(seq![Seq::empty()], lifted(old(self).ast)).graph,
            final(self).start == thompson(seq![Seq::empty()], lifted(old(self).ast)).start,
            final(self).accept == thompson(seq![Seq::empty()], lifted(old(self).ast)).accept,
            final(self).new_state == 1 + state_count(lifted(old(self).ast)),
            final(self).states@.len() <= final(self).new_state,
    {
        let ast = self.ast.clone();
        assert(self.graph() =~= seq![Seq::<(Transition, usize)>::empty()]);
        let (start, accept) = self.construct_node(&ast);
        self.start = start;
        self.accept = accept;
    }
}

} // verus!
