//! The subset construction as a function of the nondeterministic automaton.

use vstd::prelude::*;
use vstd::seq_lib::lemma_seq_contains_after_push;
use crate::dfa::{
    canonical_sets, canonical_state, distinct_states, eps_reach, first_accept, has_symbol,
    has_symbol_before, in_move, lemma_distinct_bounded_len, lemma_state_count_bounded,
    members_in_range, strictly_increasing, Automaton, StateView,
};
use crate::nfa::{graph_wf, StateGraph, Transition};

verus! {
/// The distinct symbols on the edges of the members of `members` that come
/// before the edge `k` of the member `i`, each where it comes first.
pub open spec fn range_upto(g: StateGraph, members: Seq<usize>, i: int, k: int) -> Seq<char>
    decreases i, k,
{
    if i < 0 || k < 0 {
        Seq::empty()
    } else if k > 0 {
        let before = range_upto(g, members, i, k - 1);
        match g[members[i] as int][k - 1].0 {
            Transition::Symbol(c) => if before.contains(c) {
                before
            } else {
                before.push(c)
            },
            Transition::Epsilon => before,
        }
    } else if i > 0 {
        range_upto(g, members, i - 1, g[members[i - 1] as int].len() as int)
    } else {
        Seq::empty()
    }
}

/// The distinct symbols on the edges of the members of `members`, each
/// where it comes first.
pub open spec fn symbol_range(g: StateGraph, members: Seq<usize>) -> Seq<char> {
    range_upto(g, members, members.len() as int, 0)
}

/// The symbols listed are those on the edges, each once.
pub proof fn lemma_range_upto(g: StateGraph, members: Seq<usize>, i: int, k: int)
    requires
        0 <= i <= members.len(),
        i < members.len() ==> 0 <= k <= g[members[i] as int].len(),
        i == members.len() ==> k == 0,
    ensures
        range_upto(g, members, i, k).no_duplicates(),
        forall|c: char|
            range_upto(g, members, i, k).contains(c) <==> has_symbol_before(g, members, i, k, c),
    decreases i, k,
{
    let range = range_upto(g, members, i, k);
    if k > 0 {
        lemma_range_upto(g, members, i, k - 1);
        let before = range_upto(g, members, i, k - 1);
        let t = g[members[i] as int][k - 1].0;
        assert forall|c: char| range.contains(c) <==> has_symbol_before(g, members, i, k, c) by {
            if range != before {
                lemma_seq_contains_after_push(before, t->Symbol_0, c);
            }
            if has_symbol_before(g, members, i, k - 1, c) {
            }
        }
    } else if i > 0 {
        let last = g[members[i - 1] as int].len() as int;
        lemma_range_upto(g, members, i - 1, last);
        assert forall|c: char| range.contains(c) <==> has_symbol_before(g, members, i, 0, c) by {
            if has_symbol_before(g, members, i - 1, last, c) {
            }
        }
    } else {
        assert forall|c: char| !has_symbol_before(g, members, 0, 0, c) by {}
    }
}

/// The symbols of the range are those that leave a member, each once.
pub proof fn lemma_symbol_range(g: StateGraph, members: Seq<usize>)
    ensures
        symbol_range(g, members).no_duplicates(),
        forall|c: char| symbol_range(g, members).contains(c) <==> has_symbol(g, members, c),
{
    let n = members.len() as int;
    lemma_range_upto(g, members, n, 0);
    assert forall|c: char| has_symbol_before(g, members, n, 0, c) <==> has_symbol(
        g,
        members,
        c,
    ) by {}
}

/// The states below `n` that are reached from a member of `members` over
/// one edge labelled `c` and then over edges without a symbol, in rising order.
pub open spec fn move_list(g: StateGraph, members: Seq<usize>, c: char, n: int) -> Seq<usize>
    decreases n,
{
    if n <= 0 {
        Seq::empty()
    } else if in_move(g, members, c, n - 1) {
        move_list(g, members, c, n - 1).push((n - 1) as usize)
    } else {
        move_list(g, members, c, n - 1)
    }
}

pub proof fn lemma_move_list(g: StateGraph, members: Seq<usize>, c: char, n: int)
    requires
        0 <= n <= usize::MAX,
    ensures
        strictly_increasing(move_list(g, members, c, n)),
        forall|i: int|
            0 <= i < move_list(g, members, c, n).len() ==> (#[trigger] move_list(
                g,
                members,
                c,
                n,
            )[i]) < n,
        forall|q: usize|
            move_list(g, members, c, n).contains(q) <==> q < n && in_move(g, members, c, q as int),
    decreases n,
{
    if n > 0 {
        lemma_move_list(g, members, c, n - 1);
        let before = move_list(g, members, c, n - 1);
        let list = move_list(g, members, c, n);
        if in_move(g, members, c, n - 1) {
            assert forall|q: usize| list.contains(q) <==> q < n && in_move(
                g,
                members,
                c,
                q as int,
            ) by {
                lemma_seq_contains_after_push(before, (n - 1) as usize, q);
            }
        }
    }
}

/// The states below `n` that are reached from `start` over edges without a
/// symbol, in rising order.
pub open spec fn reach_list(g: StateGraph, start: usize, n: int) -> Seq<usize>
    decreases n,
{
    if n <= 0 {
        Seq::empty()
    } else if eps_reach(g, start as int, n - 1) {
        reach_list(g, start, n - 1).push((n - 1) as usize)
    } else {
        reach_list(g, start, n - 1)
    }
}

pub proof fn lemma_reach_list(g: StateGraph, start: usize, n: int)
    requires
        0 <= n <= usize::MAX,
    ensures
        strictly_increasing(reach_list(g, start, n)),
        forall|i: int|
            0 <= i < reach_list(g, start, n).len() ==> (#[trigger] reach_list(g, start, n)[i]) < n,
        forall|q: usize|
            reach_list(g, start, n).contains(q) <==> q < n && eps_reach(g, start as int, q as int),
    decreases n,
{
    if n > 0 {
        lemma_reach_list(g, start, n - 1);
        let before = reach_list(g, start, n - 1);
        let list = reach_list(g, start, n);
        if eps_reach(g, start as int, n - 1) {
            assert forall|q: usize| list.contains(q) <==> q < n && eps_reach(
                g,
                start as int,
                q as int,
            ) by {
                lemma_seq_contains_after_push(before, (n - 1) as usize, q);
            }
        }
    }
}

/// The number of the first state, from the state `i` on, that stands for
/// exactly the members `set`.
pub open spec fn position_from(a: Automaton, set: Seq<usize>, i: int) -> Option<int>
    decreases a.len() - i,
{
    if i < 0 || i >= a.len() {
        None
    } else if a[i].nfa_states == set {
        Some(i)
    } else {
        position_from(a, set, i + 1)
    }
}

pub proof fn lemma_position_from(a: Automaton, set: Seq<usize>, i: int)
    requires
        0 <= i <= a.len(),
    ensures
        match position_from(a, set, i) {
            Some(pos) => i <= pos < a.len() && a[pos].nfa_states == set,
            None => forall|x: int| i <= x < a.len() ==> (#[trigger] a[x]).nfa_states != set,
        },
    decreases a.len() - i,
{
    if i < a.len() && a[i].nfa_states != set {
        lemma_position_from(a, set, i + 1);
    }
}

/// The automaton under construction and the states that wait to be explored.
pub struct Work {
    pub automaton: Automaton,
    pub stack: Seq<usize>,
}

/// The automaton with one more transition of the state `s`.
pub open spec fn with_transition(a: Automaton, s: int, c: char, t: usize) -> Automaton {
    a.update(
        s,
        StateView {
            transitions: a[s].transitions.push((c, t)),
            nfa_states: a[s].nfa_states,
            accept: a[s].accept,
        },
    )
}

/// The work after the state `s` has got its transition for the symbol `c`:
/// to the state that stands for the members reached on `c`, which is new,
/// and waits on the stack, where no state stands for them yet.
pub open spec fn explore_step(g: StateGraph, w: Work, s: int, c: char) -> Work {
    let next = move_list(g, w.automaton[s].nfa_states, c, g.len() as int);
    match position_from(w.automaton, next, 0) {
        Some(pos) => Work {
            automaton: with_transition(w.automaton, s, c, pos as usize),
            stack: w.stack,
        },
        None => {
            let pos = w.automaton.len() as usize;
            let added = w.automaton.push(
                StateView { transitions: Seq::empty(), nfa_states: next, accept: None },
            );
            Work { automaton: with_transition(added, s, c, pos), stack: w.stack.push(pos) }
        },
    }
}

/// The work after the state `s` has got its transitions for the first `r`
/// symbols of `range`.
pub open spec fn explore_upto(g: StateGraph, w: Work, s: int, range: Seq<char>, r: int) -> Work
    decreases r,
{
    if r <= 0 {
        w
    } else {
        explore_step(g, explore_upto(g, w, s, range, r - 1), s, range[r - 1])
    }
}

/// The work after the state `s` has been explored.
pub open spec fn explored(g: StateGraph, w: Work, s: int) -> Work {
    let range = symbol_range(g, w.automaton[s].nfa_states);
    explore_upto(g, w, s, range, range.len() as int)
}

/// The members of every state are in rising order and states of the graph,
/// and no two states stand for the same members.
pub open spec fn sound(g: StateGraph, a: Automaton) -> bool {
    &&& g.len() <= usize::MAX
    &&& forall|s: int| 0 <= s < a.len() ==> canonical_state(g, #[trigger] a[s])
    &&& distinct_states(a)
}

pub proof fn lemma_explore_step_sound(g: StateGraph, w: Work, s: int, c: char)
    requires
        sound(g, w.automaton),
        0 <= s < w.automaton.len(),
    ensures
        sound(g, explore_step(g, w, s, c).automaton),
        explore_step(g, w, s, c).automaton.len() >= w.automaton.len(),
        explore_step(g, w, s, c).stack.len() - w.stack.len() == explore_step(
            g,
            w,
            s,
            c,
        ).automaton.len() - w.automaton.len(),
        explore_step(g, w, s, c).automaton[s].nfa_states == w.automaton[s].nfa_states,
{
    let a = w.automaton;
    let next = move_list(g, a[s].nfa_states, c, g.len() as int);
    lemma_move_list(g, a[s].nfa_states, c, g.len() as int);
    lemma_position_from(a, next, 0);
}

pub proof fn lemma_explore_upto_sound(g: StateGraph, w: Work, s: int, range: Seq<char>, r: int)
    requires
        sound(g, w.automaton),
        0 <= s < w.automaton.len(),
    ensures
        sound(g, explore_upto(g, w, s, range, r).automaton),
        explore_upto(g, w, s, range, r).automaton.len() >= w.automaton.len(),
        explore_upto(g, w, s, range, r).stack.len() - w.stack.len() == explore_upto(
            g,
            w,
            s,
            range,
            r,
        ).automaton.len() - w.automaton.len(),
        explore_upto(g, w, s, range, r).automaton[s].nfa_states == w.automaton[s].nfa_states,
    decreases r,
{
    if r > 0 {
        lemma_explore_upto_sound(g, w, s, range, r - 1);
        lemma_explore_step_sound(g, explore_upto(g, w, s, range, r - 1), s, range[r - 1]);
    }
}

/// What is left to do: twice the number of lists of members that no state
/// stands for yet, and the number of states that wait.
pub open spec fn work_left(g: StateGraph, w: Work) -> int {
    2 * (canonical_sets(g.len()).len() - w.automaton.len()) + w.stack.len()
}

/// Exploring the state on top of the stack leaves less to do.
pub proof fn lemma_explored_leaves_less(g: StateGraph, w: Work)
    requires
        sound(g, w.automaton),
        w.stack.len() > 0,
        w.stack.last() < w.automaton.len(),
    ensures
        0 <= work_left(
            g,
            explored(g, Work { automaton: w.automaton, stack: w.stack.drop_last() }, w.stack.last() as int),
        ) < work_left(g, w),
{
    let s = w.stack.last() as int;
    let rest = Work { automaton: w.automaton, stack: w.stack.drop_last() };
    let range = symbol_range(g, w.automaton[s].nfa_states);
    lemma_explore_upto_sound(g, rest, s, range, range.len() as int);
    lemma_state_count_bounded(g, explored(g, rest, s).automaton);
}

/// The automaton when every state that waits, and every state found
/// since, has been explored, the one on top of the stack first.
pub open spec fn subset_run(g: StateGraph, w: Work) -> Automaton
    decreases work_left(g, w),
    when sound(g, w.automaton)
{
    if w.stack.len() == 0 || w.stack.last() >= w.automaton.len() {
        w.automaton
    } else {
        proof {
            lemma_explored_leaves_less(g, w);
        }
        subset_run(
            g,
            explored(
                g,
                Work { automaton: w.automaton, stack: w.stack.drop_last() },
                w.stack.last() as int,
            ),
        )
    }
}

/// The automaton with every state carrying the tag of its first member
/// that the accept list names.
pub open spec fn with_accepts(accept: Seq<(usize, Seq<char>)>, a: Automaton) -> Automaton {
    Seq::new(
        a.len(),
        |i: int|
            StateView {
                transitions: a[i].transitions,
                nfa_states: a[i].nfa_states,
                accept: first_accept(accept, a[i].nfa_states),
            },
    )
}

/// The work at the start: state 0 alone, which stands for the states
/// reached from `start` without a symbol, and waits.
pub open spec fn first_work(g: StateGraph, start: usize) -> Work {
    Work {
        automaton: seq![
            StateView {
                transitions: Seq::empty(),
                nfa_states: reach_list(g, start, g.len() as int),
                accept: None,
            },
        ],
        stack: seq![0usize],
    }
}

/// The automaton of the subset construction on the graph `g` from the
/// state `start`, with the tags of the accept list.
pub open spec fn subset_automaton(
    g: StateGraph,
    accept: Seq<(usize, Seq<char>)>,
    start: usize,
) -> Automaton {
    with_accepts(accept, subset_run(g, first_work(g, start)))
}

/// The states found so far on the way over edges without a symbol, in the
/// order in which they were found, and those of them whose edges have not
/// been followed yet.
pub struct Visit {
    pub closure: Seq<usize>,
    pub stack: Seq<usize>,
}

/// The visit after the first `k` edges of the state `s` have been
/// followed: the target of an edge without a symbol is found, and waits,
/// unless it was found before.
pub open spec fn visit_upto(g: StateGraph, v: Visit, s: int, k: int) -> Visit
    decreases k,
{
    if k <= 0 {
        v
    } else {
        let before = visit_upto(g, v, s, k - 1);
        let edge = g[s][k - 1];
        if edge.0 == Transition::Epsilon && !before.closure.contains(edge.1) {
            Visit { closure: before.closure.push(edge.1), stack: before.stack.push(edge.1) }
        } else {
            before
        }
    }
}

/// No state is found twice, and every state found or waiting is a state of the graph.
pub open spec fn visit_sound(g: StateGraph, v: Visit) -> bool {
    &&& graph_wf(g)
    &&& v.closure.no_duplicates()
    &&& members_in_range(g, v.closure)
    &&& members_in_range(g, v.stack)
}

pub proof fn lemma_visit_upto(g: StateGraph, v: Visit, s: int, k: int)
    requires
        visit_sound(g, v),
        0 <= s < g.len(),
        0 <= k <= g[s].len(),
    ensures
        visit_sound(g, visit_upto(g, v, s, k)),
        visit_upto(g, v, s, k).closure.len() >= v.closure.len(),
        visit_upto(g, v, s, k).stack.len() - v.stack.len() == visit_upto(g, v, s, k).closure.len()
            - v.closure.len(),
    decreases k,
{
    if k > 0 {
        lemma_visit_upto(g, v, s, k - 1);
    }
}

/// What is left to do: twice the number of states not found yet, and the
/// number of states that wait.
pub open spec fn visit_left(g: StateGraph, v: Visit) -> int {
    2 * (g.len() - v.closure.len()) + v.stack.len()
}

pub proof fn lemma_visit_leaves_less(g: StateGraph, v: Visit)
    requires
        visit_sound(g, v),
        v.stack.len() > 0,
    ensures
        visit_sound(
            g,
            visit_upto(
                g,
                Visit { closure: v.closure, stack: v.stack.drop_last() },
                v.stack.last() as int,
                g[v.stack.last() as int].len() as int,
            ),
        ),
        0 <= visit_left(
            g,
            visit_upto(
                g,
                Visit { closure: v.closure, stack: v.stack.drop_last() },
                v.stack.last() as int,
                g[v.stack.last() as int].len() as int,
            ),
        ) < visit_left(g, v),
{
    let s = v.stack.last() as int;
    let rest = Visit { closure: v.closure, stack: v.stack.drop_last() };
    lemma_visit_upto(g, rest, s, g[s].len() as int);
    lemma_distinct_bounded_len(visit_upto(g, rest, s, g[s].len() as int).closure, g.len());
}

/// The states found when the edges of every state that waits, and of
/// every state found since, have been followed, those of the state on top
/// of the stack first.
pub open spec fn closure_run(g: StateGraph, v: Visit) -> Seq<usize>
    decreases visit_left(g, v),
    when visit_sound(g, v)
{
    if v.stack.len() == 0 {
        v.closure
    } else {
        proof {
            lemma_visit_leaves_less(g, v);
        }
        closure_run(
            g,
            visit_upto(
                g,
                Visit { closure: v.closure, stack: v.stack.drop_last() },
                v.stack.last() as int,
                g[v.stack.last() as int].len() as int,
            ),
        )
    }
}

/// The states reached from `state` over edges without a symbol, in the
/// order in which a search finds them that starts at `state` and goes on
/// from the state found last.
pub open spec fn closure_list(g: StateGraph, state: usize) -> Seq<usize> {
    closure_run(g, Visit { closure: seq![state], stack: seq![state] })
}

} // verus!
