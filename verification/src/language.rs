//! What a pattern matches, and why the automaton of a rule set reads every
//! word that a rule matches.

use vstd::prelude::*;
use crate::ast::AstNode;
use crate::nfa::{
    add_edge, add_pair, is_char_code, lemma_thompson_shape, span_edges, state_count, thompson,
    StateGraph, Transition,
};

verus! {
/// The word `w` is matched by the pattern with the tree `node`.
pub open spec fn word_matches(node: AstNode, w: Seq<char>) -> bool
    decreases node, 0nat, 0nat,
{
    match node {
        AstNode::And(l, r) => exists|k: int|
            0 <= k <= w.len() && word_matches(*l, #[trigger] w.take(k)) && word_matches(*r, w.skip(k)),
        AstNode::Or(l, r) => word_matches(*l, w) || word_matches(*r, w),
        AstNode::Star(x) => word_in_star(*x, w),
        AstNode::Plus(x) => exists|k: int|
            0 <= k <= w.len() && word_matches(*x, #[trigger] w.take(k)) && word_in_star(*x, w.skip(k)),
        AstNode::Question(x) => w.len() == 0 || word_matches(*x, w),
        AstNode::Char(c) => w == seq![c],
        AstNode::Span(lo, hi) => w.len() == 1 && lo as int <= w[0] as int <= hi as int,
    }
}

/// The word `w` is made of words that the pattern with the tree `node`
/// matches, none of them empty.
pub open spec fn word_in_star(node: AstNode, w: Seq<char>) -> bool
    decreases node, 1nat, w.len(),
{
    w.len() == 0 || exists|k: int|
        1 <= k <= w.len() && word_matches(node, #[trigger] w.take(k)) && word_in_star(node, w.skip(k))
}

/// The hops `(state, edge)` lead from `from` to `to`: each takes an edge of
/// the state that the one before it arrives at.
pub open spec fn valid_path(g: StateGraph, from: int, hops: Seq<(int, int)>, to: int) -> bool
    decreases hops.len(),
{
    if hops.len() == 0 {
        from == to
    } else {
        let (p, j) = hops.last();
        &&& valid_path(g, from, hops.drop_last(), p)
        &&& 0 <= p < g.len()
        &&& 0 <= j < g[p].len()
        &&& g[p][j].1 == to
    }
}

/// The symbols on the edges that the hops take, in order.
pub open spec fn label(g: StateGraph, hops: Seq<(int, int)>) -> Seq<char>
    decreases hops.len(),
{
    if hops.len() == 0 {
        Seq::empty()
    } else {
        let (p, j) = hops.last();
        match g[p][j].0 {
            Transition::Epsilon => label(g, hops.drop_last()),
            Transition::Symbol(c) => label(g, hops.drop_last()).push(c),
        }
    }
}

/// The automaton gets from `from` to `to` while it reads the word `w`.
pub open spec fn nfa_reach(g: StateGraph, from: int, w: Seq<char>, to: int) -> bool {
    exists|hops: Seq<(int, int)>| #[trigger] valid_path(g, from, hops, to) && label(g, hops) == w
}

/// The edge `j` of the state `p` of `g` is the edge `j` of the state `p` of `h`.
pub open spec fn edge_kept(g: StateGraph, h: StateGraph, p: int, j: int) -> bool {
    j < h[p].len() && h[p][j] == g[p][j]
}

/// The graph `h` has the states of `g` and, in the same places, their edges.
pub open spec fn extends(g: StateGraph, h: StateGraph) -> bool {
    &&& g.len() <= h.len()
    &&& forall|p: int, j: int|
        0 <= p < g.len() && 0 <= j < g[p].len() ==> #[trigger] edge_kept(g, h, p, j)
}

pub proof fn lemma_extends_trans(a: StateGraph, b: StateGraph, c: StateGraph)
    requires
        extends(a, b),
        extends(b, c),
    ensures
        extends(a, c),
{
    assert forall|p: int, j: int| 0 <= p < a.len() && 0 <= j < a[p].len() implies #[trigger] edge_kept(
        a,
        c,
        p,
        j,
    ) by {
        assert(edge_kept(a, b, p, j));
        assert(edge_kept(b, c, p, j));
    }
}

pub proof fn lemma_path_lift(g: StateGraph, h: StateGraph, from: int, hops: Seq<(int, int)>, to: int)
    requires
        extends(g, h),
        valid_path(g, from, hops, to),
    ensures
        valid_path(h, from, hops, to),
        label(h, hops) == label(g, hops),
    decreases hops.len(),
{
    if hops.len() > 0 {
        let (p, j) = hops.last();
        lemma_path_lift(g, h, from, hops.drop_last(), p);
        assert(edge_kept(g, h, p, j));
    }
}

pub proof fn lemma_reach_lift(g: StateGraph, h: StateGraph, from: int, w: Seq<char>, to: int)
    requires
        extends(g, h),
        nfa_reach(g, from, w, to),
    ensures
        nfa_reach(h, from, w, to),
{
    let hops = choose|hops: Seq<(int, int)>| #[trigger]
        valid_path(g, from, hops, to) && label(g, hops) == w;
    lemma_path_lift(g, h, from, hops, to);
}

pub proof fn lemma_path_concat(
    g: StateGraph,
    a: int,
    first: Seq<(int, int)>,
    b: int,
    second: Seq<(int, int)>,
    c: int,
)
    requires
        valid_path(g, a, first, b),
        valid_path(g, b, second, c),
    ensures
        valid_path(g, a, first + second, c),
        label(g, first + second) == label(g, first) + label(g, second),
    decreases second.len(),
{
    if !(second.len() == 0) {
        let (p, j) = second.last();
        lemma_path_concat(g, a, first, b, second.drop_last(), p);
        assert((first + second).drop_last() == first + second.drop_last());
        match g[p][j].0 {
            Transition::Epsilon => {},
            Transition::Symbol(ch) => {
            },
        }
    }
}

/// Reading `v` from `a` to `b` and then `w` from `b` to `c` is reading `v + w` from `a` to `c`.
pub proof fn lemma_reach_concat(g: StateGraph, a: int, v: Seq<char>, b: int, w: Seq<char>, c: int)
    requires
        nfa_reach(g, a, v, b),
        nfa_reach(g, b, w, c),
    ensures
        nfa_reach(g, a, v + w, c),
{
    let first = choose|hops: Seq<(int, int)>| #[trigger]
        valid_path(g, a, hops, b) && label(g, hops) == v;
    let second = choose|hops: Seq<(int, int)>| #[trigger]
        valid_path(g, b, hops, c) && label(g, hops) == w;
    lemma_path_concat(g, a, first, b, second, c);
}

/// One edge is a way from its state to its target, which reads its symbol.
pub proof fn lemma_reach_edge(g: StateGraph, p: int, j: int)
    requires
        0 <= p < g.len(),
        0 <= j < g[p].len(),
    ensures
        nfa_reach(
            g,
            p,
            match g[p][j].0 {
                Transition::Epsilon => Seq::empty(),
                Transition::Symbol(c) => seq![c],
            },
            g[p][j].1 as int,
        ),
{
    let hops = seq![(p, j)];
    assert(valid_path(g, p, hops.drop_last(), p));
    assert(valid_path(g, p, hops, g[p][j].1 as int));
    assert(label(g, hops.drop_last()) == Seq::<char>::empty());
    match g[p][j].0 {
        Transition::Epsilon => {},
        Transition::Symbol(c) => {
        },
    }
}

/// A new edge without a symbol is a way from its state to its target.
pub proof fn lemma_new_edge(g: StateGraph, from: int, to: int)
    requires
        0 <= from < g.len(),
        0 <= to <= usize::MAX,
    ensures
        extends(g, add_edge(g, from, Transition::Epsilon, to)),
        add_edge(g, from, Transition::Epsilon, to).len() == g.len(),
        nfa_reach(add_edge(g, from, Transition::Epsilon, to), from, Seq::empty(), to),
{
    let h = add_edge(g, from, Transition::Epsilon, to);
    lemma_reach_edge(h, from, g[from].len() as int);
}

/// The construction keeps the states that it finds, and their edges in their places.
pub proof fn lemma_thompson_extends(g: StateGraph, node: AstNode)
    requires
        g.len() + state_count(node) <= usize::MAX,
    ensures
        extends(g, thompson(g, node).graph),
    decreases node,
{
    let start = g.len() as int;
    let accept = start + 1;
    match node {
        AstNode::And(l, r) => {
            let a = thompson(g, *l);
            lemma_thompson_shape(g, *l);
            lemma_thompson_extends(g, *l);
            let b = thompson(a.graph, *r);
            lemma_thompson_extends(a.graph, *r);
            lemma_extends_trans(g, a.graph, b.graph);
            lemma_extends_trans(g, b.graph, thompson(g, node).graph);
        },
        AstNode::Or(l, r) => {
            let g0 = add_pair(g);
            let a = thompson(g0, *l);
            lemma_thompson_shape(g0, *l);
            lemma_thompson_extends(g0, *l);
            let b = thompson(a.graph, *r);
            lemma_thompson_shape(a.graph, *r);
            lemma_thompson_extends(a.graph, *r);
            lemma_extends_trans(g, g0, a.graph);
            lemma_extends_trans(g, a.graph, b.graph);
            let g1 = add_edge(b.graph, start, Transition::Epsilon, a.start);
            let g2 = add_edge(g1, start, Transition::Epsilon, b.start);
            let g3 = add_edge(g2, a.accept, Transition::Epsilon, accept);
            lemma_extends_trans(g, b.graph, g1);
            lemma_extends_trans(g, g1, g2);
            lemma_extends_trans(g, g2, g3);
            lemma_extends_trans(g, g3, thompson(g, node).graph);
        },
        AstNode::Star(x) => {
            let g0 = add_pair(g);
            let a = thompson(g0, *x);
            lemma_thompson_shape(g0, *x);
            lemma_thompson_extends(g0, *x);
            lemma_extends_trans(g, g0, a.graph);
            let g1 = add_edge(a.graph, start, Transition::Epsilon, a.start);
            let g2 = add_edge(g1, start, Transition::Epsilon, accept);
            let g3 = add_edge(g2, a.accept, Transition::Epsilon, a.start);
            lemma_extends_trans(g, a.graph, g1);
            lemma_extends_trans(g, g1, g2);
            lemma_extends_trans(g, g2, g3);
            lemma_extends_trans(g, g3, thompson(g, node).graph);
        },
        AstNode::Plus(x) => {
            let g0 = add_pair(g);
            let a = thompson(g0, *x);
            lemma_thompson_shape(g0, *x);
            lemma_thompson_extends(g0, *x);
            lemma_extends_trans(g, g0, a.graph);
            let g1 = add_edge(a.graph, start, Transition::Epsilon, a.start);
            let g2 = add_edge(g1, a.accept, Transition::Epsilon, a.start);
            lemma_extends_trans(g, a.graph, g1);
            lemma_extends_trans(g, g1, g2);
            lemma_extends_trans(g, g2, thompson(g, node).graph);
        },
        AstNode::Question(x) => {
            let g0 = add_pair(g);
            let a = thompson(g0, *x);
            lemma_thompson_shape(g0, *x);
            lemma_thompson_extends(g0, *x);
            lemma_extends_trans(g, g0, a.graph);
            let g1 = add_edge(a.graph, start, Transition::Epsilon, a.start);
            let g2 = add_edge(g1, start, Transition::Epsilon, accept);
            lemma_extends_trans(g, a.graph, g1);
            lemma_extends_trans(g, g1, g2);
            lemma_extends_trans(g, g2, thompson(g, node).graph);
        },
        AstNode::Char(c) => {
        },
        AstNode::Span(lo, hi) => {
        },
    }
}

/// The code of a character is the code of a character.
pub proof fn lemma_char_code(c: char)
    ensures
        is_char_code(c as int),
        (c as int) as char == c,
{
}

/// The edges of a range hold one for every character of the range.
pub proof fn lemma_span_edges_has(lo: int, end: int, to: usize, code: int) -> (j: int)
    requires
        lo <= code < end,
        is_char_code(code),
    ensures
        0 <= j < span_edges(lo, end, to).len(),
        span_edges(lo, end, to)[j] == (Transition::Symbol(code as char), to),
    decreases end - lo,
{
    if code == end - 1 {
        span_edges(lo, end - 1, to).len() as int
    } else {
        lemma_span_edges_has(lo, end - 1, to, code)
    }
}

/// Adding an edge without a symbol to a graph that extends `base` gives a
/// graph that extends `base`, keeps the ways of the graph it is added to,
/// and has the way of the new edge.
pub proof fn lemma_chain_edge(base: StateGraph, g: StateGraph, from: int, to: int)
    requires
        extends(base, g),
        0 <= from < g.len(),
        0 <= to <= usize::MAX,
    ensures
        extends(base, add_edge(g, from, Transition::Epsilon, to)),
        extends(g, add_edge(g, from, Transition::Epsilon, to)),
        nfa_reach(add_edge(g, from, Transition::Epsilon, to), from, Seq::empty(), to),
{
    lemma_new_edge(g, from, to);
    lemma_extends_trans(base, g, add_edge(g, from, Transition::Epsilon, to));
}

/// The ways that the construction of `x*` adds around the fragment of `x`.
pub proof fn lemma_star_frame(g: StateGraph, x: AstNode)
    requires
        g.len() + 2 + state_count(x) <= usize::MAX,
    ensures
        ({
            let a = thompson(add_pair(g), x);
            let f = thompson(g, AstNode::Star(Box::new(x)));
            &&& f.start == g.len()
            &&& f.accept == g.len() + 1
            &&& extends(a.graph, f.graph)
            &&& nfa_reach(f.graph, f.start, Seq::empty(), a.start)
            &&& nfa_reach(f.graph, f.start, Seq::empty(), f.accept)
            &&& nfa_reach(f.graph, a.accept, Seq::empty(), a.start)
            &&& nfa_reach(f.graph, a.accept, Seq::empty(), f.accept)
        }),
{
    let start = g.len() as int;
    let accept = start + 1;
    let g0 = add_pair(g);
    let a = thompson(g0, x);
    lemma_thompson_shape(g0, x);
    let g1 = add_edge(a.graph, start, Transition::Epsilon, a.start);
    lemma_new_edge(a.graph, start, a.start);
    let g2 = add_edge(g1, start, Transition::Epsilon, accept);
    lemma_chain_edge(a.graph, g1, start, accept);
    let g3 = add_edge(g2, a.accept, Transition::Epsilon, a.start);
    lemma_chain_edge(a.graph, g2, a.accept, a.start);
    let g4 = add_edge(g3, a.accept, Transition::Epsilon, accept);
    lemma_chain_edge(a.graph, g3, a.accept, accept);
    lemma_reach_lift(g1, g4, start, Seq::empty(), a.start);
    lemma_reach_lift(g2, g4, start, Seq::empty(), accept);
    lemma_reach_lift(g3, g4, a.accept, Seq::empty(), a.start);
}

/// The ways that the construction of `x+` adds around the fragment of `x`.
pub proof fn lemma_plus_frame(g: StateGraph, x: AstNode)
    requires
        g.len() + 2 + state_count(x) <= usize::MAX,
    ensures
        ({
            let a = thompson(add_pair(g), x);
            let f = thompson(g, AstNode::Plus(Box::new(x)));
            &&& f.start == g.len()
            &&& f.accept == g.len() + 1
            &&& extends(a.graph, f.graph)
            &&& nfa_reach(f.graph, f.start, Seq::empty(), a.start)
            &&& nfa_reach(f.graph, a.accept, Seq::empty(), a.start)
            &&& nfa_reach(f.graph, a.accept, Seq::empty(), f.accept)
        }),
{
    let start = g.len() as int;
    let accept = start + 1;
    let g0 = add_pair(g);
    let a = thompson(g0, x);
    lemma_thompson_shape(g0, x);
    let g1 = add_edge(a.graph, start, Transition::Epsilon, a.start);
    lemma_new_edge(a.graph, start, a.start);
    let g2 = add_edge(g1, a.accept, Transition::Epsilon, a.start);
    lemma_chain_edge(a.graph, g1, a.accept, a.start);
    let g3 = add_edge(g2, a.accept, Transition::Epsilon, accept);
    lemma_chain_edge(a.graph, g2, a.accept, accept);
    lemma_reach_lift(g1, g3, start, Seq::empty(), a.start);
    lemma_reach_lift(g2, g3, a.accept, Seq::empty(), a.start);
}

/// The ways that the construction of `x?` adds around the fragment of `x`.
pub proof fn lemma_question_frame(g: StateGraph, x: AstNode)
    requires
        g.len() + 2 + state_count(x) <= usize::MAX,
    ensures
        ({
            let a = thompson(add_pair(g), x);
            let f = thompson(g, AstNode::Question(Box::new(x)));
            &&& f.start == g.len()
            &&& f.accept == g.len() + 1
            &&& extends(a.graph, f.graph)
            &&& nfa_reach(f.graph, f.start, Seq::empty(), a.start)
            &&& nfa_reach(f.graph, f.start, Seq::empty(), f.accept)
            &&& nfa_reach(f.graph, a.accept, Seq::empty(), f.accept)
        }),
{
    let start = g.len() as int;
    let accept = start + 1;
    let g0 = add_pair(g);
    let a = thompson(g0, x);
    lemma_thompson_shape(g0, x);
    let g1 = add_edge(a.graph, start, Transition::Epsilon, a.start);
    lemma_new_edge(a.graph, start, a.start);
    let g2 = add_edge(g1, start, Transition::Epsilon, accept);
    lemma_chain_edge(a.graph, g1, start, accept);
    let g3 = add_edge(g2, a.accept, Transition::Epsilon, accept);
    lemma_chain_edge(a.graph, g2, a.accept, accept);
    lemma_reach_lift(g1, g3, start, Seq::empty(), a.start);
    lemma_reach_lift(g2, g3, start, Seq::empty(), accept);
}

/// The ways that the construction of `l|r` adds around the fragments of `l` and `r`.
pub proof fn lemma_or_frame(g: StateGraph, l: AstNode, r: AstNode)
    requires
        g.len() + 2 + state_count(l) + state_count(r) <= usize::MAX,
    ensures
        ({
            let a = thompson(add_pair(g), l);
            let b = thompson(a.graph, r);
            let f = thompson(g, AstNode::Or(Box::new(l), Box::new(r)));
            &&& f.start == g.len()
            &&& f.accept == g.len() + 1
            &&& extends(a.graph, f.graph)
            &&& extends(b.graph, f.graph)
            &&& nfa_reach(f.graph, f.start, Seq::empty(), a.start)
            &&& nfa_reach(f.graph, f.start, Seq::empty(), b.start)
            &&& nfa_reach(f.graph, a.accept, Seq::empty(), f.accept)
            &&& nfa_reach(f.graph, b.accept, Seq::empty(), f.accept)
        }),
{
    let start = g.len() as int;
    let accept = start + 1;
    let g0 = add_pair(g);
    let a = thompson(g0, l);
    lemma_thompson_shape(g0, l);
    let b = thompson(a.graph, r);
    lemma_thompson_shape(a.graph, r);
    lemma_thompson_extends(a.graph, r);
    let g1 = add_edge(b.graph, start, Transition::Epsilon, a.start);
    lemma_new_edge(b.graph, start, a.start);
    let g2 = add_edge(g1, start, Transition::Epsilon, b.start);
    lemma_chain_edge(b.graph, g1, start, b.start);
    let g3 = add_edge(g2, a.accept, Transition::Epsilon, accept);
    lemma_chain_edge(b.graph, g2, a.accept, accept);
    let g4 = add_edge(g3, b.accept, Transition::Epsilon, accept);
    lemma_chain_edge(b.graph, g3, b.accept, accept);
    lemma_extends_trans(a.graph, b.graph, g4);
    lemma_reach_lift(g1, g4, start, Seq::empty(), a.start);
    lemma_reach_lift(g2, g4, start, Seq::empty(), b.start);
    lemma_reach_lift(g3, g4, a.accept, Seq::empty(), accept);
}

/// The way that the construction of `l r` adds between the fragments of `l` and `r`.
pub proof fn lemma_and_frame(g: StateGraph, l: AstNode, r: AstNode)
    requires
        g.len() + state_count(l) + state_count(r) <= usize::MAX,
    ensures
        ({
            let a = thompson(g, l);
            let b = thompson(a.graph, r);
            let f = thompson(g, AstNode::And(Box::new(l), Box::new(r)));
            &&& f.start == a.start
            &&& f.accept == b.accept
            &&& extends(a.graph, f.graph)
            &&& extends(b.graph, f.graph)
            &&& nfa_reach(f.graph, a.accept, Seq::empty(), b.start)
        }),
{
    let a = thompson(g, l);
    lemma_thompson_shape(g, l);
    let b = thompson(a.graph, r);
    lemma_thompson_shape(a.graph, r);
    lemma_thompson_extends(a.graph, r);
    lemma_new_edge(b.graph, a.accept, b.start);
    lemma_extends_trans(a.graph, b.graph, thompson(g, AstNode::And(Box::new(l), Box::new(r))).graph);
}

/// Three ways in a row, the middle one without a symbol.
pub proof fn lemma_reach_three(
    g: StateGraph,
    a: int,
    v: Seq<char>,
    b: int,
    c: int,
    w: Seq<char>,
    d: int,
)
    requires
        nfa_reach(g, a, v, b),
        nfa_reach(g, b, Seq::empty(), c),
        nfa_reach(g, c, w, d),
    ensures
        nfa_reach(g, a, v + w, d),
{
    lemma_reach_concat(g, a, v, b, Seq::empty(), c);
    lemma_reach_concat(g, a, v, c, w, d);
}

/// The fragment of a pattern reads every word that the pattern matches,
/// from its entry to its exit.
pub proof fn lemma_thompson_complete(g: StateGraph, node: AstNode, w: Seq<char>)
    requires
        word_matches(node, w),
        g.len() + state_count(node) <= usize::MAX,
    ensures
        nfa_reach(thompson(g, node).graph, thompson(g, node).start, w, thompson(g, node).accept),
    decreases node, w.len(), 0nat,
{
    let f = thompson(g, node);
    let none = Seq::<char>::empty();
    match node {
        AstNode::And(l, r) => {
            let k = choose|k: int|
                0 <= k <= w.len() && word_matches(*l, #[trigger] w.take(k)) && word_matches(*r, w.skip(k));
            let a = thompson(g, *l);
            let b = thompson(a.graph, *r);
            lemma_thompson_shape(g, *l);
            lemma_and_frame(g, *l, *r);
            lemma_thompson_complete(g, *l, w.take(k));
            lemma_thompson_complete(a.graph, *r, w.skip(k));
            lemma_reach_lift(a.graph, f.graph, a.start, w.take(k), a.accept);
            lemma_reach_lift(b.graph, f.graph, b.start, w.skip(k), b.accept);
            lemma_reach_three(f.graph, a.start, w.take(k), a.accept, b.start, w.skip(k), b.accept);
            assert(w.take(k) + w.skip(k) == w);
        },
        AstNode::Or(l, r) => {
            let a = thompson(add_pair(g), *l);
            let b = thompson(a.graph, *r);
            lemma_thompson_shape(add_pair(g), *l);
            lemma_or_frame(g, *l, *r);
            if word_matches(*l, w) {
                lemma_thompson_complete(add_pair(g), *l, w);
                lemma_reach_lift(a.graph, f.graph, a.start, w, a.accept);
                lemma_reach_concat(f.graph, f.start, none, a.start, w, a.accept);
                lemma_reach_concat(f.graph, f.start, w, a.accept, none, f.accept);
            } else {
                lemma_thompson_complete(a.graph, *r, w);
                lemma_reach_lift(b.graph, f.graph, b.start, w, b.accept);
                lemma_reach_concat(f.graph, f.start, none, b.start, w, b.accept);
                lemma_reach_concat(f.graph, f.start, w, b.accept, none, f.accept);
            }
        },
        AstNode::Star(x) => {
            let a = thompson(add_pair(g), *x);
            lemma_star_frame(g, *x);
            if w.len() == 0 {
                assert(w == none);
            } else {
                lemma_loop_tail(f.graph, add_pair(g), *x, f.accept, w);
                lemma_reach_concat(f.graph, f.start, none, a.start, w, f.accept);
            }
        },
        AstNode::Plus(x) => {
            let a = thompson(add_pair(g), *x);
            lemma_plus_frame(g, *x);
            let k = choose|k: int|
                0 <= k <= w.len() && word_matches(*x, #[trigger] w.take(k)) && word_in_star(
                    *x,
                    w.skip(k),
                );
            lemma_thompson_complete(add_pair(g), *x, w.take(k));
            lemma_reach_lift(a.graph, f.graph, a.start, w.take(k), a.accept);
            lemma_reach_concat(f.graph, f.start, none, a.start, w.take(k), a.accept);
            if w.skip(k).len() == 0 {
                lemma_reach_concat(f.graph, f.start, w.take(k), a.accept, none, f.accept);
                assert(w.take(k) + none == w);
            } else {
                lemma_loop_tail(f.graph, add_pair(g), *x, f.accept, w.skip(k));
                lemma_reach_three(
                    f.graph,
                    f.start,
                    w.take(k),
                    a.accept,
                    a.start,
                    w.skip(k),
                    f.accept,
                );
                assert(w.take(k) + w.skip(k) == w);
            }
        },
        AstNode::Question(x) => {
            let a = thompson(add_pair(g), *x);
            lemma_question_frame(g, *x);
            if w.len() == 0 {
                assert(w == none);
            } else {
                lemma_thompson_complete(add_pair(g), *x, w);
                lemma_reach_lift(a.graph, f.graph, a.start, w, a.accept);
                lemma_reach_concat(f.graph, f.start, none, a.start, w, a.accept);
                lemma_reach_concat(f.graph, f.start, w, a.accept, none, f.accept);
            }
        },
        AstNode::Char(c) => {
            lemma_reach_edge(f.graph, f.start, 0);
        },
        AstNode::Span(lo, hi) => {
            let c = w[0];
            lemma_char_code(c);
            let j = lemma_span_edges_has(lo as int, hi as int + 1, f.accept as usize, c as int);
            lemma_reach_edge(f.graph, f.start, j);
            assert(w == seq![c]);
        },
    }
}

/// In a graph `h` that holds the fragment of `x`, built on `base`, and has
/// the ways from its exit back to its entry and on to `exit`, a word made
/// of words that `x` matches, and not empty, is read from the entry of the
/// fragment to `exit`.
pub proof fn lemma_loop_tail(h: StateGraph, base: StateGraph, x: AstNode, exit: int, w: Seq<char>)
    requires
        word_in_star(x, w),
        w.len() > 0,
        base.len() + state_count(x) <= usize::MAX,
        extends(thompson(base, x).graph, h),
        nfa_reach(h, thompson(base, x).accept, Seq::empty(), thompson(base, x).start),
        nfa_reach(h, thompson(base, x).accept, Seq::empty(), exit),
    ensures
        nfa_reach(h, thompson(base, x).start, w, exit),
    decreases x, w.len(), 1nat,
{
    let a = thompson(base, x);
    let none = Seq::<char>::empty();
    let k = choose|k: int|
        1 <= k <= w.len() && word_matches(x, #[trigger] w.take(k)) && word_in_star(x, w.skip(k));
    lemma_thompson_complete(base, x, w.take(k));
    lemma_reach_lift(a.graph, h, a.start, w.take(k), a.accept);
    if w.skip(k).len() == 0 {
        lemma_reach_concat(h, a.start, w.take(k), a.accept, none, exit);
    } else {
        lemma_loop_tail(h, base, x, exit, w.skip(k));
        lemma_reach_three(h, a.start, w.take(k), a.accept, a.start, w.skip(k), exit);
        assert(w.take(k) + w.skip(k) == w);
    }
}

} // verus!
