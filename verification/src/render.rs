//! Patterns written out from their trees, and the parser read back on them.

use vstd::prelude::*;
use crate::ast::{
    apply_op, close_group, dotted, needs_dot, pattern_tree, run, step, tree_of, AstNode, ParseState,
    PatternError,
};

verus! {
/// The character has no meaning of its own in a pattern.
pub open spec fn is_plain(c: char) -> bool {
    c != '(' && c != ')' && c != '[' && c != ']' && c != '*' && c != '+' && c != '?' && c != '.'
        && c != '|' && c != '-'
}

/// Every character of the tree has no meaning of its own in a pattern.
pub open spec fn plain_tree(t: AstNode) -> bool
    decreases t,
{
    match t {
        AstNode::And(l, r) => plain_tree(*l) && plain_tree(*r),
        AstNode::Or(l, r) => plain_tree(*l) && plain_tree(*r),
        AstNode::Star(x) => plain_tree(*x),
        AstNode::Plus(x) => plain_tree(*x),
        AstNode::Question(x) => plain_tree(*x),
        AstNode::Char(c) => is_plain(c),
        AstNode::Span(lo, hi) => is_plain(lo) && is_plain(hi),
    }
}

/// The pattern of a tree with every operator in parentheses of its own;
/// `marker` stands between the two sides of a concatenation.
pub open spec fn written(t: AstNode, marker: Seq<char>) -> Seq<char>
    decreases t,
{
    match t {
        AstNode::And(l, r) => seq!['('] + written(*l, marker) + marker + written(*r, marker) + seq![
            ')',
        ],
        AstNode::Or(l, r) => seq!['('] + written(*l, marker) + seq!['|'] + written(*r, marker)
            + seq![')'],
        AstNode::Star(x) => seq!['('] + written(*x, marker) + seq!['*', ')'],
        AstNode::Plus(x) => seq!['('] + written(*x, marker) + seq!['+', ')'],
        AstNode::Question(x) => seq!['('] + written(*x, marker) + seq!['?', ')'],
        AstNode::Char(c) => seq![c],
        AstNode::Span(lo, hi) => seq!['[', lo, '-', hi, ']'],
    }
}

/// The pattern of a tree as one writes it, concatenation left implicit.
pub open spec fn pattern_of(t: AstNode) -> Seq<char> {
    written(t, Seq::empty())
}

/// The pattern of a tree with its concatenation markers.
pub open spec fn marked_pattern_of(t: AstNode) -> Seq<char> {
    written(t, seq!['.'])
}

/// The stacks after the characters `s`, read from the stacks `st`.
pub open spec fn run_from(st: ParseState, s: Seq<char>) -> Result<ParseState, PatternError>
    decreases s.len(),
{
    if s.len() == 0 {
        Ok(st)
    } else {
        match run_from(st, s.drop_last()) {
            Ok(mid) => step(mid, s.last()),
            Err(e) => Err(e),
        }
    }
}

pub proof fn lemma_run_is_run_from(s: Seq<char>)
    ensures
        run(s) == run_from(
            ParseState { nodes: Seq::empty(), ops: Seq::empty(), span: Seq::empty() },
            s,
        ),
    decreases s.len(),
{
    if s.len() > 0 {
        lemma_run_is_run_from(s.drop_last());
    }
}

/// Reading `a + b` is reading `a` and then `b`.
pub proof fn lemma_run_from_concat(st: ParseState, a: Seq<char>, b: Seq<char>)
    ensures
        run_from(st, a + b) == match run_from(st, a) {
            Ok(mid) => run_from(mid, b),
            Err(e) => Err(e),
        },
    decreases b.len(),
{
    if !(b.len() == 0) {
        lemma_run_from_concat(st, a, b.drop_last());
        assert((a + b).drop_last() == a + b.drop_last());
    }
}

pub proof fn lemma_run_from_one(st: ParseState, c: char)
    ensures
        run_from(st, seq![c]) == step(st, c),
{
    assert(seq![c].drop_last() == Seq::<char>::empty());
    assert(run_from(st, Seq::<char>::empty()) == Ok::<ParseState, PatternError>(st));
}

/// Reading `a`, which leads to `mid`, and then the character `c`.
pub proof fn lemma_run_from_then(st: ParseState, a: Seq<char>, mid: ParseState, c: char)
    requires
        run_from(st, a) == Ok::<ParseState, PatternError>(mid),
    ensures
        run_from(st, a + seq![c]) == step(mid, c),
{
    lemma_run_from_concat(st, a, seq![c]);
    lemma_run_from_one(mid, c);
}

/// Reading `a`, which leads to `mid`, and then `b`.
pub proof fn lemma_run_from_join(st: ParseState, a: Seq<char>, mid: ParseState, b: Seq<char>)
    requires
        run_from(st, a) == Ok::<ParseState, PatternError>(mid),
    ensures
        run_from(st, a + b) == run_from(mid, b),
{
    lemma_run_from_concat(st, a, b);
}

/// The stacks with one more node.
pub open spec fn with_node(st: ParseState, t: AstNode) -> ParseState {
    ParseState { nodes: st.nodes.push(t), ops: st.ops, span: st.span }
}

/// The stacks with one more waiting operator.
pub open spec fn with_op(st: ParseState, c: char) -> ParseState {
    ParseState { nodes: st.nodes, ops: st.ops.push(c), span: st.span }
}

/// Read from any stacks outside a range, the marked pattern of a tree
/// leaves the tree on the node stack and the operator stack as it was.
pub proof fn lemma_reads_back(st: ParseState, t: AstNode)
    requires
        plain_tree(t),
        st.span.len() == 0,
    ensures
        run_from(st, marked_pattern_of(t)) == Ok::<ParseState, PatternError>(with_node(st, t)),
    decreases t, 0nat,
{
    let dot = seq!['.'];
    let open = with_op(st, '(');
    match t {
        AstNode::And(l, r) => {
            let a = seq!['('];
            let b = a + written(*l, dot);
            let c = b + dot;
            let d = c + written(*r, dot);
            lemma_run_from_one(st, '(');
            lemma_reads_back(open, *l);
            lemma_run_from_join(st, a, open, written(*l, dot));
            let s1 = with_node(open, *l);
            lemma_run_from_then(st, b, s1, '.');
            let s2 = with_op(s1, '.');
            lemma_reads_back(s2, *r);
            lemma_run_from_join(st, c, s2, written(*r, dot));
            let s3 = with_node(s2, *r);
            lemma_run_from_then(st, d, s3, ')');
            assert(s3.ops.drop_last() == s1.ops);
            assert(s1.ops.drop_last() == st.ops);
            let merged = apply_op(s3.nodes, '.')->Ok_0;
            assert(merged == st.nodes.push(t)) by {}
            assert(close_group(merged, s1.ops) == Ok::<(Seq<AstNode>, Seq<char>), PatternError>(
                (merged, st.ops),
            ));
            assert(marked_pattern_of(t) == d + seq![')']);
        },
        AstNode::Or(l, r) => {
            let a = seq!['('];
            let b = a + written(*l, dot);
            let c = b + seq!['|'];
            let d = c + written(*r, dot);
            lemma_run_from_one(st, '(');
            lemma_reads_back(open, *l);
            lemma_run_from_join(st, a, open, written(*l, dot));
            let s1 = with_node(open, *l);
            lemma_run_from_then(st, b, s1, '|');
            let s2 = with_op(s1, '|');
            lemma_reads_back(s2, *r);
            lemma_run_from_join(st, c, s2, written(*r, dot));
            let s3 = with_node(s2, *r);
            lemma_run_from_then(st, d, s3, ')');
            assert(s3.ops.drop_last() == s1.ops);
            assert(s1.ops.drop_last() == st.ops);
            let merged = apply_op(s3.nodes, '|')->Ok_0;
            assert(merged == st.nodes.push(t)) by {}
            assert(close_group(merged, s1.ops) == Ok::<(Seq<AstNode>, Seq<char>), PatternError>(
                (merged, st.ops),
            ));
            assert(marked_pattern_of(t) == d + seq![')']);
        },
        AstNode::Star(x) => {
            lemma_reads_back_unary(st, t, *x, '*');
        },
        AstNode::Plus(x) => {
            lemma_reads_back_unary(st, t, *x, '+');
        },
        AstNode::Question(x) => {
            lemma_reads_back_unary(st, t, *x, '?');
        },
        AstNode::Char(c) => {
            lemma_run_from_one(st, c);
        },
        AstNode::Span(lo, hi) => {
            let s1 = ParseState { span: seq!['['], ..st };
            let s2 = ParseState { span: seq!['[', lo], ..st };
            let s3 = ParseState { span: seq!['[', lo, hi], ..st };
            lemma_run_from_one(st, '[');
            assert(st.span.push('[') == seq!['[']);
            lemma_run_from_then(st, seq!['['], s1, lo);
            assert(s1.span.push(lo) == seq!['[', lo]);
            assert(seq!['['] + seq![lo] == seq!['[', lo]);
            lemma_run_from_then(st, seq!['[', lo], s2, '-');
            assert(seq!['[', lo] + seq!['-'] == seq!['[', lo, '-']);
            lemma_run_from_then(st, seq!['[', lo, '-'], s2, hi);
            assert(s2.span.push(hi) == seq!['[', lo, hi]);
            assert(seq!['[', lo, '-'] + seq![hi] == seq!['[', lo, '-', hi]);
            lemma_run_from_then(st, seq!['[', lo, '-', hi], s3, ']');
            assert(seq!['[', lo, '-', hi] + seq![']'] == seq!['[', lo, '-', hi, ']']);
            assert(st.span == Seq::<char>::empty());
        },
    }
}

/// The case of `lemma_reads_back` for a tree `t` that is the operator
/// `op` on the tree `x`.
pub proof fn lemma_reads_back_unary(st: ParseState, t: AstNode, x: AstNode, op: char)
    requires
        plain_tree(x),
        st.span.len() == 0,
        (op == '*' && t == AstNode::Star(Box::new(x))) || (op == '+' && t == AstNode::Plus(
            Box::new(x),
        )) || (op == '?' && t == AstNode::Question(Box::new(x))),
    ensures
        run_from(st, marked_pattern_of(t)) == Ok::<ParseState, PatternError>(with_node(st, t)),
    decreases x, 1nat,
{
    let dot = seq!['.'];
    let open = with_op(st, '(');
    let a = seq!['('];
    let b = a + written(x, dot);
    let c = b + seq![op];
    lemma_run_from_one(st, '(');
    lemma_reads_back(open, x);
    lemma_run_from_join(st, a, open, written(x, dot));
    let s1 = with_node(open, x);
    lemma_run_from_then(st, b, s1, op);
    let s2 = with_op(s1, op);
    lemma_run_from_then(st, c, s2, ')');
    assert(s2.ops.drop_last() == s1.ops);
    assert(s1.ops.drop_last() == st.ops);
    let merged = apply_op(s2.nodes, op)->Ok_0;
    assert(merged == st.nodes.push(t)) by {}
    assert(close_group(merged, s1.ops) == Ok::<(Seq<AstNode>, Seq<char>), PatternError>(
        (merged, st.ops),
    ));
    assert(marked_pattern_of(t) == c + seq![')']) by {
        assert(seq![op, ')'] == seq![op] + seq![')']);
    }
}

/// The tree of the marked pattern of a tree is the tree.
pub proof fn lemma_marked_pattern_reads_back(t: AstNode)
    requires
        plain_tree(t),
    ensures
        tree_of(marked_pattern_of(t)) == Ok::<AstNode, PatternError>(t),
{
    let init = ParseState { nodes: Seq::empty(), ops: Seq::empty(), span: Seq::empty() };
    lemma_run_is_run_from(marked_pattern_of(t));
    lemma_reads_back(init, t);
}

/// The markers of `a + b` are those of `a`, one between the two where it
/// belongs, and those of `b`.
pub proof fn lemma_dotted_concat(a: Seq<char>, b: Seq<char>)
    requires
        a.len() > 0,
        b.len() > 0,
    ensures
        dotted(a + b) == if needs_dot(a.last(), b[0]) {
            dotted(a) + seq!['.'] + dotted(b)
        } else {
            dotted(a) + dotted(b)
        },
    decreases b.len(),
{
    let s = a + b;
    if b.len() == 1 {
        assert(s.drop_last() == a);
    } else {
        let b0 = b.drop_last();
        assert(s.drop_last() == a + b0);
        lemma_dotted_concat(a, b0);
    }
}

/// A character that a written pattern may begin with.
pub open spec fn opens(c: char) -> bool {
    c == '(' || c == '[' || is_plain(c)
}

/// A character that a written pattern may end with.
pub open spec fn closes(c: char) -> bool {
    c == ')' || c == ']' || is_plain(c)
}

/// Inserting the markers into the pattern of a tree gives its marked pattern.
pub proof fn lemma_dotted_written(t: AstNode)
    requires
        plain_tree(t),
    ensures
        dotted(pattern_of(t)) == marked_pattern_of(t),
        pattern_of(t).len() > 0,
        opens(pattern_of(t)[0]),
        closes(pattern_of(t).last()),
    decreases t,
{
    let none = Seq::<char>::empty();
    let lp = seq!['('];
    let rp = seq![')'];
    match t {
        AstNode::And(l, r) => {
            lemma_dotted_written(*l);
            lemma_dotted_written(*r);
            let pl = written(*l, none);
            let pr = written(*r, none);
            lemma_dotted_concat(lp, pl);
            lemma_dotted_concat(lp + pl, pr);
            lemma_dotted_concat(lp + pl + pr, rp);
        },
        AstNode::Or(l, r) => {
            lemma_dotted_written(*l);
            lemma_dotted_written(*r);
            let pl = written(*l, none);
            let pr = written(*r, none);
            let bar = seq!['|'];
            lemma_dotted_concat(lp, pl);
            lemma_dotted_concat(lp + pl, bar);
            lemma_dotted_concat(lp + pl + bar, pr);
            lemma_dotted_concat(lp + pl + bar + pr, rp);
        },
        AstNode::Star(x) => {
            lemma_dotted_written(*x);
            lemma_dotted_unary(*x, '*');
        },
        AstNode::Plus(x) => {
            lemma_dotted_written(*x);
            lemma_dotted_unary(*x, '+');
        },
        AstNode::Question(x) => {
            lemma_dotted_written(*x);
            lemma_dotted_unary(*x, '?');
        },
        AstNode::Char(c) => {},
        AstNode::Span(lo, hi) => {
            let a = seq!['['];
            let b = seq!['[', lo];
            let c = seq!['[', lo, '-'];
            let d = seq!['[', lo, '-', hi];
            let e = seq!['[', lo, '-', hi, ']'];
            assert(b.drop_last() == a);
            assert(c.drop_last() == b);
            assert(d.drop_last() == c);
            assert(e.drop_last() == d);
            assert(dotted(a) == a);
            assert(dotted(b) == b);
            assert(dotted(c) == c);
            assert(dotted(d) == d);
        },
    }
}

/// The markers of `(x op)` are those of `x`, inside the parentheses.
pub proof fn lemma_dotted_unary(x: AstNode, op: char)
    requires
        op == '*' || op == '+' || op == '?',
        written(x, Seq::empty()).len() > 0,
        opens(written(x, Seq::empty())[0]),
        closes(written(x, Seq::empty()).last()),
    ensures
        dotted(seq!['('] + written(x, Seq::empty()) + seq![op, ')']) == seq!['('] + dotted(
            written(x, Seq::empty()),
        ) + seq![op, ')'],
{
    let lp = seq!['('];
    let px = written(x, Seq::empty());
    let tail = seq![op, ')'];
    lemma_dotted_concat(lp, px);
    assert(tail.drop_last() == seq![op]);
    assert(dotted(seq![op]) == seq![op]);
    assert(tail[tail.len() - 2] == op && tail.last() == ')' && seq![op].push(')') == tail);
    lemma_dotted_concat(lp + px, tail);
}

/// The parser reads back what is written: the tree of the pattern of a
/// tree, written with every operator in parentheses of its own and over
/// characters that have no meaning of their own, is the tree.
pub proof fn lemma_pattern_reads_back(t: AstNode)
    requires
        plain_tree(t),
    ensures
        pattern_tree(pattern_of(t)) == Ok::<AstNode, PatternError>(t),
{
    lemma_dotted_written(t);
    lemma_marked_pattern_reads_back(t);
}

} // verus!
