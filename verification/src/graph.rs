//! Rendering of the automata as Graphviz text, by way of a directed graph
//! with labelled nodes and edges.

use vstd::prelude::*;
use crate::common::{chars_of, string_of};
use crate::dfa::{Automaton, Dfa};
use crate::nfa::{accept_view, graph_of, Nfa, StateGraph, Transition};

verus! {
/// The graph type of petgraph, of which nothing is seen here.
#[verifier::external_type_specification]
#[verifier::external_body]
#[verifier::reject_recursive_types(N)]
#[verifier::reject_recursive_types(E)]
#[verifier::reject_recursive_types(Ty)]
#[verifier::reject_recursive_types(Ix)]
pub struct ExGraph<N, E, Ty, Ix>(petgraph::graph::Graph<N, E, Ty, Ix>);

/// The marker of petgraph for graphs with directed edges.
#[verifier::external_type_specification]
#[verifier::external_body]
pub struct ExDirected(petgraph::Directed);

/// The labels of the nodes of the graph, in the order in which the nodes were added.
pub uninterp spec fn graph_nodes(g: petgraph::graph::Graph<String, String, petgraph::Directed, u32>) -> Seq<Seq<char>>;

/// The edges of the graph, in the order in which they were added: source,
/// target and label.
pub uninterp spec fn graph_edges(g: petgraph::graph::Graph<String, String, petgraph::Directed, u32>) -> Seq<
    (int, int, Seq<char>),
>;

/// The Graphviz text that petgraph writes, with `{:?}`, for the graph with
/// these nodes and edges.
pub uninterp spec fn dot_text(nodes: Seq<Seq<char>>, edges: Seq<(int, int, Seq<char>)>) -> Seq<char>;

/// `Graph::new` of petgraph: a graph without nodes and edges.
#[verifier::external_body]
fn graph_new() -> (g: petgraph::graph::Graph<String, String, petgraph::Directed, u32>)
    ensures
        graph_nodes(g) == Seq::<Seq<char>>::empty(),
        graph_edges(g) == Seq::<(int, int, Seq<char>)>::empty(),
{
    petgraph::graph::Graph::new()
}

/// `Graph::add_node` of petgraph: the node is added behind the others, the
/// edges stay, and the index of the node is the number of nodes before.
/// The graph numbers its nodes in 32 bits and refuses the last number.
#[verifier::external_body]
fn graph_add_node(g: &mut petgraph::graph::Graph<String, String, petgraph::Directed, u32>, label: String) -> (index: usize)
    requires
        graph_nodes(*old(g)).len() < u32::MAX,
    ensures
        graph_nodes(*final(g)) == graph_nodes(*old(g)).push(label@),
        graph_edges(*final(g)) == graph_edges(*old(g)),
        index == graph_nodes(*old(g)).len(),
{
    g.add_node(label).index()
}

/// `Graph::add_edge` of petgraph: the edge is added behind the others and
/// the nodes stay. Both ends must be nodes of the graph; the graph numbers
/// its edges in 32 bits and refuses the last number.
#[verifier::external_body]
fn graph_add_edge(g: &mut petgraph::graph::Graph<String, String, petgraph::Directed, u32>, a: usize, b: usize, label: String)
    requires
        a < graph_nodes(*old(g)).len(),
        b < graph_nodes(*old(g)).len(),
        graph_nodes(*old(g)).len() <= u32::MAX,
        graph_edges(*old(g)).len() < u32::MAX,
    ensures
        graph_nodes(*final(g)) == graph_nodes(*old(g)),
        graph_edges(*final(g)) == graph_edges(*old(g)).push((a as int, b as int, label@)),
{
    g.add_edge(petgraph::graph::NodeIndex::new(a), petgraph::graph::NodeIndex::new(b), label);
}

/// `Dot::new` of petgraph, written with `{:?}`: the Graphviz text of the graph.
#[verifier::external_body]
fn graph_dot(g: &petgraph::graph::Graph<String, String, petgraph::Directed, u32>) -> (text: String)
    ensures
        text@ == dot_text(graph_nodes(*g), graph_edges(*g)),
{
    format!("{:?}", petgraph::dot::Dot::new(g))
}

pub open spec fn labels_view(labels: Seq<String>) -> Seq<Seq<char>> {
    Seq::new(labels.len(), |i: int| labels[i]@)
}

pub open spec fn edges_view(edges: Seq<(usize, usize, String)>) -> Seq<(int, int, Seq<char>)> {
    Seq::new(edges.len(), |i: int| (edges[i].0 as int, edges[i].1 as int, edges[i].2@))
}

/// The graph can be held with nodes and edges numbered in 32 bits, and
/// every edge joins two of its nodes.
pub open spec fn fits(nodes: Seq<Seq<char>>, edges: Seq<(int, int, Seq<char>)>) -> bool {
    &&& nodes.len() < u32::MAX
    &&& edges.len() < u32::MAX
    &&& forall|i: int|
        0 <= i < edges.len() ==> 0 <= (#[trigger] edges[i]).0 < nodes.len() && 0 <= edges[i].1
            < nodes.len()
}

/// The Graphviz text of the directed graph with these node labels and
/// these edges, where the graph can be held.
fn render_dot(labels: &Vec<String>, edges: &Vec<(usize, usize, String)>) -> (r: Option<String>)
    ensures
        match r {
            Some(text) => fits(labels_view(labels@), edges_view(edges@)) && text@ == dot_text(
                labels_view(labels@),
                edges_view(edges@),
            ),
            None => !fits(labels_view(labels@), edges_view(edges@)),
        },
{
    let limit: usize = 0xffff_ffff;
    if labels.len() >= limit || edges.len() >= limit {
        return None;
    }
    let mut k: usize = 0;
    while k < edges.len()
        invariant
            k <= edges@.len(),
            forall|i: int|
                0 <= i < k ==> (#[trigger] edges_view(edges@)[i]).0 < labels@.len() && edges_view(
                    edges@,
                )[i].1 < labels@.len(),
        decreases edges.len() - k,
    {
        if edges[k].0 >= labels.len() || edges[k].1 >= labels.len() {
            assert(!(edges_view(edges@)[k as int].0 < labels@.len() && edges_view(
                edges@,
            )[k as int].1 < labels@.len()));
            return None;
        }
        k += 1;
    }
    let mut graph = graph_new();
    let mut i: usize = 0;
    while i < labels.len()
        invariant
            i <= labels@.len(),
            labels@.len() < u32::MAX,
            graph_nodes(graph) == labels_view(labels@).take(i as int),
            graph_edges(graph) == Seq::<(int, int, Seq<char>)>::empty(),
        decreases labels.len() - i,
    {
        graph_add_node(&mut graph, labels[i].clone());
        i += 1;
    }
    k = 0;
    while k < edges.len()
        invariant
            k <= edges@.len(),
            labels@.len() < u32::MAX,
            edges@.len() < u32::MAX,
            fits(labels_view(labels@), edges_view(edges@)),
            graph_nodes(graph) == labels_view(labels@),
            graph_edges(graph) == edges_view(edges@).take(k as int),
        decreases edges.len() - k,
    {
        proof {
            assert(edges_view(edges@)[k as int].0 < labels@.len());
        }
        graph_add_edge(&mut graph, edges[k].0, edges[k].1, edges[k].2.clone());
        k += 1;
    }
    proof {
        assert(edges_view(edges@).take(k as int) == edges_view(edges@));
    }
    Some(graph_dot(&graph))
}

/// The character of the digit `d`.
pub open spec fn digit_char(d: int) -> char {
    (48 + d) as char
}

/// The number `n` in decimal digits.
pub open spec fn decimal(n: nat) -> Seq<char>
    decreases n,
{
    if n < 10 {
        seq![digit_char(n as int)]
    } else {
        decimal(n / 10).push(digit_char((n % 10) as int))
    }
}

/// Appends the number `n` in decimal digits.
fn push_decimal(out: &mut Vec<char>, n: usize)
    ensures
        final(out)@ == old(out)@ + decimal(n as nat),
    decreases n,
{
    if n >= 10 {
        push_decimal(out, n / 10);
    }
    let d: u8 = (n % 10) as u8;
    let c: char = (48u8 + d) as char;
    out.push(c);
}

/// Appends the characters of `text`.
fn push_text(out: &mut Vec<char>, text: &str)
    ensures
        final(out)@ == old(out)@ + text@,
{
    let mut chars = chars_of(text);
    out.append(&mut chars);
}

/// Appends the characters of `text`.
fn push_chars(out: &mut Vec<char>, text: &Vec<char>)
    ensures
        final(out)@ == old(out)@ + text@,
{
    let mut i: usize = 0;
    while i < text.len()
        invariant
            i <= text@.len(),
            out@ == old(out)@ + text@.take(i as int),
        decreases text.len() - i,
    {
        out.push(text[i]);
        i += 1;
    }
}

/// ` (accept: tag)` for every entry of the accept list that names the state `i`.
pub open spec fn accept_suffix(accept: Seq<(usize, Seq<char>)>, i: int) -> Seq<char>
    decreases accept.len(),
{
    if accept.len() == 0 {
        Seq::empty()
    } else if accept.last().0 == i {
        accept_suffix(accept.drop_last(), i) + " (accept: "@ + accept.last().1 + ")"@
    } else {
        accept_suffix(accept.drop_last(), i)
    }
}

/// The label of the state `i` of the nondeterministic automaton.
pub open spec fn nfa_label(i: int, start: usize, accept: Seq<(usize, Seq<char>)>) -> Seq<char> {
    let head = "State "@ + decimal(i as nat);
    if i == start {
        head + " (start)"@ + accept_suffix(accept, i)
    } else {
        head + accept_suffix(accept, i)
    }
}

/// The label of an edge: its symbol, or a small epsilon.
pub open spec fn edge_text(t: Transition) -> Seq<char> {
    match t {
        Transition::Epsilon => seq!['\u{3b5}'],
        Transition::Symbol(c) => seq![c],
    }
}

/// The first `j` edges of the state `p`.
pub open spec fn state_edges(g: StateGraph, p: int, j: int) -> Seq<(int, int, Seq<char>)>
    decreases j,
{
    if j <= 0 {
        Seq::empty()
    } else {
        state_edges(g, p, j - 1).push((p, g[p][j - 1].1 as int, edge_text(g[p][j - 1].0)))
    }
}

/// The edges of the first `k` states, state by state.
pub open spec fn edge_list(g: StateGraph, k: int) -> Seq<(int, int, Seq<char>)>
    decreases k,
{
    if k <= 0 {
        Seq::empty()
    } else {
        edge_list(g, k - 1) + state_edges(g, k - 1, g[k - 1].len() as int)
    }
}

/// The label of the state `i` of the deterministic automaton.
pub open spec fn dfa_label(a: Automaton, i: int, start: usize) -> Seq<char> {
    let head = "State "@ + decimal(i as nat);
    let mid = if a[i].nfa_states.contains(start) {
        head + " (start)"@
    } else {
        head
    };
    match a[i].accept {
        Some(tag) => mid + " (accept: "@ + tag + ")"@,
        None => mid,
    }
}

/// The first `j` transitions of the state `p`.
pub open spec fn dfa_state_edges(a: Automaton, p: int, j: int) -> Seq<(int, int, Seq<char>)>
    decreases j,
{
    if j <= 0 {
        Seq::empty()
    } else {
        dfa_state_edges(a, p, j - 1).push(
            (p, a[p].transitions[j - 1].1 as int, seq![a[p].transitions[j - 1].0]),
        )
    }
}

/// The transitions of the first `k` states, state by state.
pub open spec fn dfa_edge_list(a: Automaton, k: int) -> Seq<(int, int, Seq<char>)>
    decreases k,
{
    if k <= 0 {
        Seq::empty()
    } else {
        dfa_edge_list(a, k - 1) + dfa_state_edges(a, k - 1, a[k - 1].transitions.len() as int)
    }
}

fn holds_state(v: &Vec<usize>, x: usize) -> (r: bool)
    ensures
        r == v@.contains(x),
{
    let mut i: usize = 0;
    while i < v.len()
        invariant
            i <= v.len(),
            forall|j: int| 0 <= j < i ==> v@[j] != x,
        decreases v.len() - i,
    {
        if v[i] == x {
            return true;
        }
        i += 1;
    }
    false
}

impl Nfa {
    /// The labels of the states, as the Graphviz text shows them.
    pub open spec fn dot_labels(&self) -> Seq<Seq<char>> {
        Seq::new(
            self.states@.len(),
            |i: int| nfa_label(i, self.start, accept_view(self.accept@)),
        )
    }

    /// The Graphviz text of the automaton: every state with its number and
    /// its role, every edge with its symbol. There is none where the
    /// automaton is too large for a graph numbered in 32 bits or an edge
    /// leads out of it.
    pub fn to_graphviz(&self) -> (r: Option<String>)
        ensures
            ({
                let g = graph_of(self.states@, self.states@.len() as int);
                let edges = edge_list(g, g.len() as int);
                match r {
                    Some(text) => fits(self.dot_labels(), edges) && text@ == dot_text(
                        self.dot_labels(),
                        edges,
                    ),
                    None => !fits(self.dot_labels(), edges),
                }
            }),
    {
        let ghost g = graph_of(self.states@, self.states@.len() as int);
        let ghost accept = accept_view(self.accept@);
        let n = self.states.len();
        let mut labels: Vec<String> = Vec::new();
        let mut i: usize = 0;
        while i < n
            invariant
                i <= n,
                n == self.states@.len(),
                accept == accept_view(self.accept@),
                labels@.len() == i,
                forall|k: int|
                    0 <= k < i ==> (#[trigger] labels@[k])@ == nfa_label(k, self.start, accept),
            decreases n - i,
        {
            let mut label: Vec<char> = Vec::new();
            push_text(&mut label, "State ");
            push_decimal(&mut label, i);
            if i == self.start {
                push_text(&mut label, " (start)");
            }
            let ghost head = label@;
            let mut k: usize = 0;
            while k < self.accept.len()
                invariant
                    k <= self.accept@.len(),
                    accept == accept_view(self.accept@),
                    label@ == head + accept_suffix(accept.take(k as int), i as int),
                decreases self.accept.len() - k,
            {
                proof {
                    assert(accept.take(k + 1).drop_last() == accept.take(k as int));
                }
                if i == self.accept[k].0 {
                    push_text(&mut label, " (accept: ");
                    let tag = chars_of(self.accept[k].1.0.as_str());
                    push_chars(&mut label, &tag);
                    push_text(&mut label, ")");
                }
                k += 1;
            }
            proof {
                assert(accept.take(k as int) == accept);
            }
            labels.push(string_of(&label));
            i += 1;
        }
        let mut edges: Vec<(usize, usize, String)> = Vec::new();
        i = 0;
        while i < n
            invariant
                i <= n,
                n == self.states@.len(),
                g == graph_of(self.states@, self.states@.len() as int),
                edges_view(edges@) == edge_list(g, i as int),
            decreases n - i,
        {
            let transitions = &self.states[i].transitions;
            let ghost done = edges_view(edges@);
            let mut j: usize = 0;
            while j < transitions.len()
                invariant
                    j <= transitions@.len(),
                    i < n,
                    transitions@ == g[i as int],
                    edges_view(edges@) == done + state_edges(g, i as int, j as int),
                decreases transitions.len() - j,
            {
                let mut label: Vec<char> = Vec::new();
                match transitions[j].0 {
                    Transition::Epsilon => {
                        label.push('\u{3b5}');
                    },
                    Transition::Symbol(c) => {
                        label.push(c);
                    },
                }
                let ghost before = edges_view(edges@);
                edges.push((i, transitions[j].1, string_of(&label)));
                proof {
                    let e = (i as int, g[i as int][j as int].1 as int, edge_text(g[i as int][j as int].0));
                    assert(edges_view(edges@) == before.push(e));
                }
                j += 1;
            }
            i += 1;
        }
        proof {
            assert(labels_view(labels@) == self.dot_labels());
        }
        render_dot(&labels, &edges)
    }
}

impl Dfa {
    /// The labels of the states, as the Graphviz text shows them.
    pub open spec fn dot_labels(&self) -> Seq<Seq<char>> {
        Seq::new(self.states@.len(), |i: int| dfa_label(self.model(), i, self.nfa.start))
    }

    /// The Graphviz text of the automaton: every state with its number and
    /// its role, every transition with its symbol. There is none where the
    /// automaton is too large for a graph numbered in 32 bits or a
    /// transition leads out of it.
    pub fn to_graphviz(&self) -> (r: Option<String>)
        ensures
            ({
                let edges = dfa_edge_list(self.model(), self.states@.len() as int);
                match r {
                    Some(text) => fits(self.dot_labels(), edges) && text@ == dot_text(
                        self.dot_labels(),
                        edges,
                    ),
                    None => !fits(self.dot_labels(), edges),
                }
            }),
    {
        let ghost a = self.model();
        let n = self.states.len();
        let mut labels: Vec<String> = Vec::new();
        let mut i: usize = 0;
        while i < n
            invariant
                i <= n,
                n == self.states@.len(),
                a == self.model(),
                labels@.len() == i,
                forall|k: int|
                    0 <= k < i ==> (#[trigger] labels@[k])@ == dfa_label(a, k, self.nfa.start),
            decreases n - i,
        {
            let mut label: Vec<char> = Vec::new();
            push_text(&mut label, "State ");
            push_decimal(&mut label, i);
            if holds_state(&self.states[i].nfa_states, self.nfa.start) {
                push_text(&mut label, " (start)");
            }
            match &self.states[i].accept {
                Some(tag) => {
                    push_text(&mut label, " (accept: ");
                    let text = chars_of(tag.0.as_str());
                    push_chars(&mut label, &text);
                    push_text(&mut label, ")");
                },
                None => {},
            }
            labels.push(string_of(&label));
            i += 1;
        }
        let mut edges: Vec<(usize, usize, String)> = Vec::new();
        i = 0;
        while i < n
            invariant
                i <= n,
                n == self.states@.len(),
                a == self.model(),
                edges_view(edges@) == dfa_edge_list(a, i as int),
            decreases n - i,
        {
            let transitions = &self.states[i].transitions;
            let ghost done = edges_view(edges@);
            let mut j: usize = 0;
            while j < transitions.len()
                invariant
                    j <= transitions@.len(),
                    i < n,
                    transitions@ == a[i as int].transitions,
                    edges_view(edges@) == done + dfa_state_edges(a, i as int, j as int),
                decreases transitions.len() - j,
            {
                let mut label: Vec<char> = Vec::new();
                label.push(transitions[j].0);
                let ghost before = edges_view(edges@);
                edges.push((i, transitions[j].1, string_of(&label)));
                proof {
                    let e = (
                        i as int,
                        a[i as int].transitions[j as int].1 as int,
                        seq![a[i as int].transitions[j as int].0],
                    );
                    assert(edges_view(edges@) == before.push(e));
                }
                j += 1;
            }
            i += 1;
        }
        proof {
            assert(labels_view(labels@) == self.dot_labels());
        }
        render_dot(&labels, &edges)
    }
}

} // verus!
