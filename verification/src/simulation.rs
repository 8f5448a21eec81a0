//! The deterministic automaton follows the nondeterministic one, and the
//! minimized automaton follows the one that it is made from.

use vstd::prelude::*;
use crate::dfa::{
    deterministic, edge_before, edge_ok, eps_edge, eps_reach, explored, find_target, first_accept,
    has_parent, has_symbol, is_subset_automaton, lemma_find_target, lemma_reach_self,
    lemma_reach_step, next_state, tag_of, targets_in_range, Automaton,
};
use crate::language::{label, valid_path};
use crate::lexer::run;
use crate::minimize::{is_quotient, lemma_class_bound, signature};
use crate::nfa::{StateGraph, Transition};

verus! {
/// The members of a state are closed under edges without a symbol.
pub proof fn lemma_state_closed(
    g: StateGraph,
    accept: Seq<(usize, Seq<char>)>,
    start: usize,
    d: Automaton,
    s: int,
    p: usize,
    q: usize,
)
    requires
        is_subset_automaton(g, accept, start, d),
        0 <= s < d.len(),
        d[s].nfa_states.contains(p),
        eps_edge(g, p as int, q as int),
    ensures
        d[s].nfa_states.contains(q),
{
    if s == 0 {
        lemma_reach_step(g, start as int, p as int, q as int);
    } else {
        assert(has_parent(d, s));
        let (s0, j0) = choose|s0: int, j0: int|
            0 <= s0 < s && 0 <= j0 < d[s0].transitions.len() && (#[trigger] d[s0].transitions[j0]).1
                == s;
        assert(explored(g, d, s0));
        assert(edge_ok(g, d, s0, j0));
        let c = d[s0].transitions[j0].0;
        let members = d[s0].nfa_states;
        let (a, b) = choose|a: int, b: int|
            0 <= a < members.len() && 0 <= b < g[members[a] as int].len() && edge_before(
                a,
                b,
                members.len() as int,
                0,
            ) && (#[trigger] g[members[a] as int][b]).0 == Transition::Symbol(c) && eps_reach(
                g,
                g[members[a] as int][b].1 as int,
                p as int,
            );
        lemma_reach_step(g, g[members[a] as int][b].1 as int, p as int, q as int);
    }
}

/// From a state that holds `p`, the automaton follows an edge of `p` that
/// is labelled `c` into a state that holds the target of the edge.
pub proof fn lemma_state_step(
    g: StateGraph,
    accept: Seq<(usize, Seq<char>)>,
    start: usize,
    d: Automaton,
    s: int,
    p: usize,
    j: int,
    c: char,
)
    requires
        is_subset_automaton(g, accept, start, d),
        0 <= s < d.len(),
        d[s].nfa_states.contains(p),
        0 <= j < g[p as int].len(),
        g[p as int][j].0 == Transition::Symbol(c),
    ensures
        next_state(d, s, c) is Some,
        next_state(d, s, c)->0 < d.len(),
        d[next_state(d, s, c)->0 as int].nfa_states.contains(g[p as int][j].1),
{
    let members = d[s].nfa_states;
    let q = g[p as int][j].1;
    assert(has_symbol(g, members, c));
    assert(explored(g, d, s));
    let k = choose|k: int| 0 <= k < d[s].transitions.len() && (#[trigger] d[s].transitions[k]).0 == c;
    assert(edge_ok(g, d, s, k));
    lemma_reach_self(g, q as int);
    lemma_find_target(d[s].transitions, c);
    match find_target(d[s].transitions, c) {
        Some(t2) => {
            let k2 = choose|k2: int|
                0 <= k2 < d[s].transitions.len() && #[trigger] d[s].transitions[k2] == (c, t2)
                    && forall|x: int| 0 <= x < k2 ==> (#[trigger] d[s].transitions[x]).0 != c;
            if k2 < k {
            } else if k < k2 {
            }
        },
        None => {
        },
    }
}

/// The deterministic automaton follows every way of the nondeterministic
/// one: after the symbols of a way from the start it is in a state that
/// holds the end of the way.
pub proof fn lemma_subset_follows(
    g: StateGraph,
    accept: Seq<(usize, Seq<char>)>,
    start: usize,
    d: Automaton,
    hops: Seq<(int, int)>,
    q: int,
)
    requires
        is_subset_automaton(g, accept, start, d),
        valid_path(g, start as int, hops, q),
    ensures
        run(d, label(g, hops)) is Some,
        run(d, label(g, hops))->0 < d.len(),
        0 <= q <= usize::MAX,
        d[run(d, label(g, hops))->0 as int].nfa_states.contains(q as usize),
    decreases hops.len(),
{
    if hops.len() == 0 {
        lemma_reach_self(g, start as int);
    } else {
        let (p, j) = hops.last();
        let before = hops.drop_last();
        lemma_subset_follows(g, accept, start, d, before, p);
        let s = run(d, label(g, before))->0 as int;
        match g[p][j].0 {
            Transition::Epsilon => {
                lemma_state_closed(g, accept, start, d, s, p as usize, q as usize);
            },
            Transition::Symbol(c) => {
                lemma_state_step(g, accept, start, d, s, p as usize, j, c);
                let w = label(g, before).push(c);
                assert(w.drop_last() == label(g, before));
            },
        }
    }
}

/// Where the accept list names a state, it has a tag for it.
pub proof fn lemma_tag_of_some(accept: Seq<(usize, Seq<char>)>, k: int)
    requires
        0 <= k < accept.len(),
    ensures
        tag_of(accept, accept[k].0) is Some,
    decreases accept.len(),
{
    if accept[0].0 != accept[k].0 {
        lemma_tag_of_some(accept.drop_first(), k - 1);
    }
}

/// A tag of the accept list is the tag of one of its entries.
pub proof fn lemma_tag_of_listed(accept: Seq<(usize, Seq<char>)>, q: usize) -> (k: int)
    requires
        tag_of(accept, q) is Some,
    ensures
        0 <= k < accept.len(),
        accept[k] == (q, tag_of(accept, q)->0),
    decreases accept.len(),
{
    if accept[0].0 == q {
        0
    } else {
        let k = lemma_tag_of_listed(accept.drop_first(), q);
        k + 1
    }
}

/// A state that holds a state that the accept list names has a tag, which
/// is the tag of an entry of the list that names one of its members.
pub proof fn lemma_first_accept_some(
    accept: Seq<(usize, Seq<char>)>,
    states: Seq<usize>,
    i: int,
) -> (k: int)
    requires
        0 <= i < states.len(),
        tag_of(accept, states[i]) is Some,
    ensures
        first_accept(accept, states) is Some,
        0 <= k < accept.len(),
        accept[k].1 == first_accept(accept, states)->0,
        states.contains(accept[k].0),
    decreases states.len(),
{
    match tag_of(accept, states[0]) {
        Some(t) => lemma_tag_of_listed(accept, states[0]),
        None => {
            let k = lemma_first_accept_some(accept, states.drop_first(), i - 1);
            k
        },
    }
}

/// The merged automaton follows a transition of the automaton it is made
/// from into the group of the target.
pub proof fn lemma_quotient_step(d: Automaton, m: Automaton, cls: Seq<usize>, s: int, c: char)
    requires
        is_quotient(d, m, cls),
        targets_in_range(d),
        deterministic(d),
        0 <= s < d.len(),
        next_state(d, s, c) is Some,
    ensures
        next_state(d, s, c)->0 < d.len(),
        next_state(m, cls[s] as int, c) == Some(cls[next_state(d, s, c)->0 as int]),
{
    lemma_class_bound(cls, s);
    lemma_find_target(d[s].transitions, c);
    let t = next_state(d, s, c)->0;
    let j = choose|j: int|
        0 <= j < d[s].transitions.len() && #[trigger] d[s].transitions[j] == (c, t) && forall|
            i: int,
        | 0 <= i < j ==> (#[trigger] d[s].transitions[i]).0 != c;
    let group = cls[s] as int;
    let merged = m[group].transitions;
    let sig = signature(d, cls, s);
    assert(sig[j] == (c, cls[t as int]));
    let k = choose|k: int| 0 <= k < merged.len() && merged[k] == (c, cls[t as int]);
    lemma_find_target(merged, c);
    match find_target(merged, c) {
        Some(t2) => {
            let k2 = choose|k2: int|
                0 <= k2 < merged.len() && #[trigger] merged[k2] == (c, t2) && forall|x: int|
                    0 <= x < k2 ==> (#[trigger] merged[x]).0 != c;
            if k2 < k {
            } else if k < k2 {
            }
        },
        None => {
        },
    }
}

/// The merged automaton reads every word that the automaton it is made from
/// reads, and is then in the group of the state that the other is in.
pub proof fn lemma_quotient_follows(d: Automaton, m: Automaton, cls: Seq<usize>, w: Seq<char>)
    requires
        is_quotient(d, m, cls),
        d.len() > 0,
        targets_in_range(d),
        deterministic(d),
        run(d, w) is Some,
    ensures
        run(d, w)->0 < d.len(),
        run(m, w) == Some(cls[run(d, w)->0 as int]),
    decreases w.len(),
{
    if w.len() > 0 {
        lemma_quotient_follows(d, m, cls, w.drop_last());
        let s = run(d, w.drop_last())->0 as int;
        lemma_quotient_step(d, m, cls, s, w.last());
    }
}

} // verus!
