//! Pattern text to syntax tree: concatenation-marker insertion followed by a
//! single-pass operator-precedence construction.

use vstd::prelude::*;
use crate::common::{chars_of, string_of};

verus! {
/// Syntax tree of a rule pattern.
#[derive(Debug, PartialEq, Eq)]
pub enum AstNode {
    And(Box<AstNode>, Box<AstNode>),
    Or(Box<AstNode>, Box<AstNode>),
    Star(Box<AstNode>),
    Plus(Box<AstNode>),
    Question(Box<AstNode>),
    Char(char),
    Span(char, char),
}

impl Clone for AstNode {
    fn clone(&self) -> (r: Self)
        ensures
            r == *self,
        decreases *self,
    {
        match self {
            AstNode::And(l, r) => AstNode::And(Box::new((**l).clone()), Box::new((**r).clone())),
            AstNode::Or(l, r) => AstNode::Or(Box::new((**l).clone()), Box::new((**r).clone())),
            AstNode::Star(x) => AstNode::Star(Box::new((**x).clone())),
            AstNode::Plus(x) => AstNode::Plus(Box::new((**x).clone())),
            AstNode::Question(x) => AstNode::Question(Box::new((**x).clone())),
            AstNode::Char(c) => AstNode::Char(*c),
            AstNode::Span(lo, hi) => AstNode::Span(*lo, *hi),
        }
    }
}

/// Why a pattern was rejected.
#[derive(Debug, Clone, Copy, PartialEq, Eq, Structural)]
pub enum PatternError {
    /// A `)` without an open `(`, or a `(` that is never closed.
    UnbalancedParenthesis,
    /// A `]` that does not close exactly one `[lo-hi]` range, or a `[` that is never closed.
    UnbalancedBracket,
    /// An operator without the operands it needs, or no expression at all.
    MissingOperand,
    /// Two expressions with no operator joining them.
    UnexpectedOperand,
    /// The rule set needs more automaton states than can be numbered.
    TooLarge,
}

/// Role of a pattern character when concatenation markers are inserted.
#[derive(Debug, Clone, Copy, PartialEq, Eq, Structural)]
pub enum CharType {
    End,
    Begin,
    Middle,
    SpanMiddle,
    Normal,
}

pub open spec fn char_type(c: char) -> CharType {
    if c == '(' || c == '[' {
        CharType::Begin
    } else if c == ')' || c == ']' || c == '*' || c == '+' || c == '?' {
        CharType::End
    } else if c == '|' {
        CharType::Middle
    } else if c == '-' {
        CharType::SpanMiddle
    } else {
        CharType::Normal
    }
}

/// Whether an explicit concatenation marker belongs between `prev` and `cur`.
pub open spec fn needs_dot(prev: char, cur: char) -> bool {
    let p = char_type(prev);
    let c = char_type(cur);
    &&& p != CharType::SpanMiddle
    &&& c != CharType::SpanMiddle
    &&& (p == CharType::Normal || p == CharType::End)
    &&& (c == CharType::Normal || c == CharType::Begin)
}

/// The pattern with a `.` written wherever concatenation is implicit.
pub open spec fn dotted(s: Seq<char>) -> Seq<char>
    decreases s.len(),
{
    if s.len() <= 1 {
        s
    } else if needs_dot(s[s.len() - 2], s.last()) {
        dotted(s.drop_last()).push('.').push(s.last())
    } else {
        dotted(s.drop_last()).push(s.last())
    }
}

pub open spec fn precedence(c: char) -> int {
    if c == '*' || c == '+' || c == '?' {
        3
    } else if c == '.' {
        2
    } else if c == '|' {
        1
    } else {
        0
    }
}

pub open spec fn is_operator(c: char) -> bool {
    c == '*' || c == '+' || c == '?' || c == '.' || c == '|'
}

/// The node stack after the operator `op` has taken its operands from the top.
/// A `(` still waiting on the operator stack has no `)`.
pub open spec fn apply_op(nodes: Seq<AstNode>, op: char) -> Result<Seq<AstNode>, PatternError> {
    let n = nodes.len() as int;
    if op == '.' || op == '|' {
        if n >= 2 {
            let left = Box::new(nodes[n - 2]);
            let right = Box::new(nodes[n - 1]);
            let node = if op == '.' {
                AstNode::And(left, right)
            } else {
                AstNode::Or(left, right)
            };
            Ok(nodes.take(n - 2).push(node))
        } else {
            Err(PatternError::MissingOperand)
        }
    } else if op == '*' || op == '+' || op == '?' {
        if n >= 1 {
            let inner = Box::new(nodes[n - 1]);
            let node = if op == '*' {
                AstNode::Star(inner)
            } else if op == '+' {
                AstNode::Plus(inner)
            } else {
                AstNode::Question(inner)
            };
            Ok(nodes.take(n - 1).push(node))
        } else {
            Err(PatternError::MissingOperand)
        }
    } else {
        Err(PatternError::UnbalancedParenthesis)
    }
}

/// Applies the waiting operators that bind at least as tightly as `p`, topmost first.
pub open spec fn reduce_while(nodes: Seq<AstNode>, ops: Seq<char>, p: int) -> Result<
    (Seq<AstNode>, Seq<char>),
    PatternError,
>
    decreases ops.len(),
{
    if ops.len() > 0 && precedence(ops.last()) >= p {
        match apply_op(nodes, ops.last()) {
            Ok(next) => reduce_while(next, ops.drop_last(), p),
            Err(e) => Err(e),
        }
    } else {
        Ok((nodes, ops))
    }
}

/// Applies the waiting operators down to the nearest `(`, which is removed.
pub open spec fn close_group(nodes: Seq<AstNode>, ops: Seq<char>) -> Result<
    (Seq<AstNode>, Seq<char>),
    PatternError,
>
    decreases ops.len(),
{
    if ops.len() == 0 {
        Err(PatternError::UnbalancedParenthesis)
    } else if ops.last() == '(' {
        Ok((nodes, ops.drop_last()))
    } else {
        match apply_op(nodes, ops.last()) {
            Ok(next) => close_group(next, ops.drop_last()),
            Err(e) => Err(e),
        }
    }
}

/// Applies every waiting operator, topmost first.
pub open spec fn drain(nodes: Seq<AstNode>, ops: Seq<char>) -> Result<Seq<AstNode>, PatternError>
    decreases ops.len(),
{
    if ops.len() == 0 {
        Ok(nodes)
    } else {
        match apply_op(nodes, ops.last()) {
            Ok(next) => drain(next, ops.drop_last()),
            Err(e) => Err(e),
        }
    }
}

/// The three stacks of the operator-precedence construction.
pub struct ParseState {
    pub nodes: Seq<AstNode>,
    pub ops: Seq<char>,
    pub span: Seq<char>,
}

/// The stacks after one more pattern character.
pub open spec fn step(st: ParseState, c: char) -> Result<ParseState, PatternError> {
    if c == '(' {
        Ok(ParseState { ops: st.ops.push(c), ..st })
    } else if c == ')' {
        match close_group(st.nodes, st.ops) {
            Ok((nodes, ops)) => Ok(ParseState { nodes, ops, span: st.span }),
            Err(e) => Err(e),
        }
    } else if c == '[' {
        Ok(ParseState { span: st.span.push(c), ..st })
    } else if c == '-' {
        Ok(st)
    } else if c == ']' {
        if st.span.len() == 3 && st.span[0] == '[' {
            Ok(
                ParseState {
                    nodes: st.nodes.push(AstNode::Span(st.span[1], st.span[2])),
                    ops: st.ops,
                    span: Seq::empty(),
                },
            )
        } else {
            Err(PatternError::UnbalancedBracket)
        }
    } else if is_operator(c) {
        match reduce_while(st.nodes, st.ops, precedence(c)) {
            Ok((nodes, ops)) => Ok(ParseState { nodes, ops: ops.push(c), span: st.span }),
            Err(e) => Err(e),
        }
    } else if st.span.len() == 0 {
        Ok(ParseState { nodes: st.nodes.push(AstNode::Char(c)), ..st })
    } else {
        Ok(ParseState { span: st.span.push(c), ..st })
    }
}

/// The stacks after the whole of `s`, read left to right.
pub open spec fn run(s: Seq<char>) -> Result<ParseState, PatternError>
    decreases s.len(),
{
    if s.len() == 0 {
        Ok(ParseState { nodes: Seq::empty(), ops: Seq::empty(), span: Seq::empty() })
    } else {
        match run(s.drop_last()) {
            Ok(st) => step(st, s.last()),
            Err(e) => Err(e),
        }
    }
}

/// The tree that a pattern with explicit concatenation markers denotes.
pub open spec fn tree_of(s: Seq<char>) -> Result<AstNode, PatternError> {
    match run(s) {
        Err(e) => Err(e),
        Ok(st) => if st.span.len() > 0 {
            Err(PatternError::UnbalancedBracket)
        } else {
            match drain(st.nodes, st.ops) {
                Err(e) => Err(e),
                Ok(nodes) => if nodes.len() == 1 {
                    Ok(nodes[0])
                } else if nodes.len() == 0 {
                    Err(PatternError::MissingOperand)
                } else {
                    Err(PatternError::UnexpectedOperand)
                },
            }
        },
    }
}

/// The tree that a rule pattern denotes.
pub open spec fn pattern_tree(s: Seq<char>) -> Result<AstNode, PatternError> {
    tree_of(dotted(s))
}

/// Once a prefix is rejected, so is every extension of it.
pub proof fn lemma_run_error_persists(s: Seq<char>, i: int)
    requires
        0 <= i <= s.len(),
        run(s.take(i)) is Err,
    ensures
        run(s) == run(s.take(i)),
    decreases s.len() - i,
{
    if i < s.len() {
        assert(s.take(i + 1).drop_last() == s.take(i));
        lemma_run_error_persists(s, i + 1);
    } else {
        assert(s.take(i) == s);
    }
}

fn classify(c: char) -> (t: CharType)
    ensures
        t == char_type(c),
{
    match c {
        '(' | '[' => CharType::Begin,
        ')' | ']' => CharType::End,
        '*' | '+' | '?' => CharType::End,
        '|' => CharType::Middle,
        '-' => CharType::SpanMiddle,
        _ => CharType::Normal,
    }
}

fn precedence_of(c: char) -> (p: u8)
    ensures
        p == precedence(c),
{
    match c {
        '*' | '+' | '?' => 3,
        '.' => 2,
        '|' => 1,
        _ => 0,
    }
}

/// Lets the operator `op` take its operands from the top of the node stack.
fn stack_push(op: char, stack: &mut Vec<AstNode>) -> (r: Result<(), PatternError>)
    ensures
        match apply_op(old(stack)@, op) {
            Ok(nodes) => r is Ok && final(stack)@ == nodes,
            Err(e) => r == Err::<(), PatternError>(e),
        },
{
    let n = stack.len();
    match op {
        '.' | '|' => {
            if n < 2 {
                return Err(PatternError::MissingOperand);
            }
            let right = stack.pop().unwrap();
            let left = stack.pop().unwrap();
            if op == '.' {
                stack.push(AstNode::And(Box::new(left), Box::new(right)));
            } else {
                stack.push(AstNode::Or(Box::new(left), Box::new(right)));
            }
            Ok(())
        },
        '*' | '+' | '?' => {
            if n < 1 {
                return Err(PatternError::MissingOperand);
            }
            let node = stack.pop().unwrap();
            if op == '*' {
                stack.push(AstNode::Star(Box::new(node)));
            } else if op == '+' {
                stack.push(AstNode::Plus(Box::new(node)));
            } else {
                stack.push(AstNode::Question(Box::new(node)));
            }
            Ok(())
        },
        _ => Err(PatternError::UnbalancedParenthesis),
    }
}

/// Applies the waiting operators that bind at least as tightly as `p`.
fn reduce(stack: &mut Vec<AstNode>, ops: &mut Vec<char>, p: u8) -> (r: Result<(), PatternError>)
    ensures
        match reduce_while(old(stack)@, old(ops)@, p as int) {
            Ok((nodes, rest)) => r is Ok && final(stack)@ == nodes && final(ops)@ == rest,
            Err(e) => r == Err::<(), PatternError>(e),
        },
{
    while ops.len() > 0 && precedence_of(ops[ops.len() - 1]) >= p
        invariant
            reduce_while(stack@, ops@, p as int) == reduce_while(old(stack)@, old(ops)@, p as int),
        decreases ops.len(),
    {
        let op = ops.pop().unwrap();
        match stack_push(op, stack) {
            Ok(()) => {},
            Err(e) => {
                return Err(e);
            },
        }
    }
    Ok(())
}

/// Applies the waiting operators down to the nearest `(` and removes it.
fn close(stack: &mut Vec<AstNode>, ops: &mut Vec<char>) -> (r: Result<(), PatternError>)
    ensures
        match close_group(old(stack)@, old(ops)@) {
            Ok((nodes, rest)) => r is Ok && final(stack)@ == nodes && final(ops)@ == rest,
            Err(e) => r == Err::<(), PatternError>(e),
        },
{
    loop
        invariant
            close_group(stack@, ops@) == close_group(old(stack)@, old(ops)@),
        decreases ops.len(),
    {
        match ops.pop() {
            None => {
                return Err(PatternError::UnbalancedParenthesis);
            },
            Some(op) => {
                if op == '(' {
                    return Ok(());
                }
                match stack_push(op, stack) {
                    Ok(()) => {},
                    Err(e) => {
                        return Err(e);
                    },
                }
            },
        }
    }
}

/// Applies every waiting operator.
fn finish(stack: &mut Vec<AstNode>, ops: &mut Vec<char>) -> (r: Result<(), PatternError>)
    ensures
        match drain(old(stack)@, old(ops)@) {
            Ok(nodes) => r is Ok && final(stack)@ == nodes,
            Err(e) => r == Err::<(), PatternError>(e),
        },
{
    while ops.len() > 0
        invariant
            drain(stack@, ops@) == drain(old(stack)@, old(ops)@),
        decreases ops.len(),
    {
        let op = ops.pop().unwrap();
        match stack_push(op, stack) {
            Ok(()) => {},
            Err(e) => {
                return Err(e);
            },
        }
    }
    Ok(())
}

/// Precedence in the postfix rendering, which knows `*`, `.` and `|` only.
pub open spec fn postfix_precedence(c: char) -> int {
    if c == '*' {
        3
    } else if c == '.' {
        2
    } else if c == '|' {
        1
    } else {
        0
    }
}

/// Moves the operators above the nearest `(` to the output and removes that `(`.
pub open spec fn unwind(out: Seq<char>, ops: Seq<char>) -> (Seq<char>, Seq<char>)
    decreases ops.len(),
{
    if ops.len() == 0 {
        (out, ops)
    } else if ops.last() == '(' {
        (out, ops.drop_last())
    } else {
        unwind(out.push(ops.last()), ops.drop_last())
    }
}

/// Moves the waiting operators that bind at least as tightly as `p` to the output.
pub open spec fn yield_while(out: Seq<char>, ops: Seq<char>, p: int) -> (Seq<char>, Seq<char>)
    decreases ops.len(),
{
    if ops.len() > 0 && postfix_precedence(ops.last()) >= p {
        yield_while(out.push(ops.last()), ops.drop_last(), p)
    } else {
        (out, ops)
    }
}

/// Output and operator stack of the postfix rendering after one more character.
pub open spec fn postfix_step(st: (Seq<char>, Seq<char>), c: char) -> (Seq<char>, Seq<char>) {
    if c == '(' {
        (st.0, st.1.push(c))
    } else if c == ')' {
        unwind(st.0, st.1)
    } else if c == '*' || c == '.' || c == '|' {
        let (out, ops) = yield_while(st.0, st.1, postfix_precedence(c));
        (out, ops.push(c))
    } else {
        (st.0.push(c), st.1)
    }
}

pub open spec fn postfix_run(s: Seq<char>) -> (Seq<char>, Seq<char>)
    decreases s.len(),
{
    if s.len() == 0 {
        (Seq::empty(), Seq::empty())
    } else {
        postfix_step(postfix_run(s.drop_last()), s.last())
    }
}

/// The postfix rendering of a pattern with explicit concatenation markers:
/// operands in order, each operator after its operands.
pub open spec fn postfix_of(s: Seq<char>) -> Seq<char> {
    let (out, ops) = postfix_run(s);
    yield_while(out, ops, 0).0
}

/// The node stack after one more character of a postfix rendering.
pub open spec fn postfix_node_step(nodes: Seq<AstNode>, c: char) -> Result<
    Seq<AstNode>,
    PatternError,
> {
    if c == '.' || c == '|' || c == '*' {
        apply_op(nodes, c)
    } else {
        Ok(nodes.push(AstNode::Char(c)))
    }
}

pub open spec fn postfix_nodes(s: Seq<char>) -> Result<Seq<AstNode>, PatternError>
    decreases s.len(),
{
    if s.len() == 0 {
        Ok(Seq::empty())
    } else {
        match postfix_nodes(s.drop_last()) {
            Ok(nodes) => postfix_node_step(nodes, s.last()),
            Err(e) => Err(e),
        }
    }
}

/// The tree that a postfix rendering denotes: the last tree completed.
pub open spec fn postfix_tree(s: Seq<char>) -> Result<AstNode, PatternError> {
    match postfix_nodes(s) {
        Err(e) => Err(e),
        Ok(nodes) => if nodes.len() > 0 {
            Ok(nodes.last())
        } else {
            Err(PatternError::MissingOperand)
        },
    }
}

/// Once a prefix of a postfix rendering is rejected, so is every extension of it.
pub proof fn lemma_postfix_error_persists(s: Seq<char>, i: int)
    requires
        0 <= i <= s.len(),
        postfix_nodes(s.take(i)) is Err,
    ensures
        postfix_nodes(s) == postfix_nodes(s.take(i)),
    decreases s.len() - i,
{
    if i < s.len() {
        assert(s.take(i + 1).drop_last() == s.take(i));
        lemma_postfix_error_persists(s, i + 1);
    } else {
        assert(s.take(i) == s);
    }
}

/// Parser of one rule pattern.
pub struct Parser {
    pub pattern: String,
}

impl Parser {
    pub fn new(pattern: String) -> (p: Self)
        ensures
            p.pattern@ == pattern@,
    {
        Parser { pattern }
    }

    /// Writes a `.` into the pattern wherever concatenation is implicit.
    pub fn add_dot(&mut self)
        ensures
            final(self).pattern@ == dotted(old(self).pattern@),
    {
        let chars = chars_of(self.pattern.as_str());
        let mut new_pattern: Vec<char> = Vec::new();
        let mut i: usize = 0;
        while i < chars.len()
            invariant
                i <= chars.len(),
                new_pattern@ == dotted(chars@.take(i as int)),
            decreases chars.len() - i,
        {
            let c = chars[i];
            if i > 0 {
                let prev_type = classify(chars[i - 1]);
                let cur_type = classify(c);
                if prev_type == CharType::SpanMiddle || cur_type == CharType::SpanMiddle {
                } else if prev_type == CharType::Normal && (cur_type == CharType::Normal
                    || cur_type == CharType::Begin) {
                    new_pattern.push('.');
                } else if prev_type == CharType::End && (cur_type == CharType::Begin || cur_type
                    == CharType::Normal) {
                    new_pattern.push('.');
                }
            }
            new_pattern.push(c);
            proof {
                assert(chars@.take(i + 1).drop_last() == chars@.take(i as int));
            }
            i += 1;
        }
        proof {
            assert(chars@.take(i as int) == chars@);
        }
        self.pattern = string_of(&new_pattern);
    }

    /// Renders the pattern, which has its concatenation markers, in postfix order.
    #[verifier::loop_isolation(false)]
    pub fn to_postfix(&mut self) -> (postfix: String)
        ensures
            postfix@ == postfix_of(old(self).pattern@),
            final(self).pattern@ == old(self).pattern@,
    {
        let chars = chars_of(self.pattern.as_str());
        let mut postfix: Vec<char> = Vec::new();
        let mut op_stack: Vec<char> = Vec::new();
        let mut i: usize = 0;
        while i < chars.len()
            invariant
                i <= chars.len(),
                (postfix@, op_stack@) == postfix_run(chars@.take(i as int)),
            decreases chars.len() - i,
        {
            let c = chars[i];
            match c {
                '(' => op_stack.push(c),
                ')' => move_group(&mut postfix, &mut op_stack),
                '*' | '.' | '|' => {
                    move_while(&mut postfix, &mut op_stack, postfix_precedence_of(c));
                    op_stack.push(c);
                },
                _ => postfix.push(c),
            }
            proof {
                assert(chars@.take(i + 1).drop_last() == chars@.take(i as int));
            }
            i += 1;
        }
        proof {
            assert(chars@.take(i as int) == chars@);
        }
        move_while(&mut postfix, &mut op_stack, 0);
        string_of(&postfix)
    }

    /// Builds the tree of the pattern by way of its postfix rendering.
    #[verifier::loop_isolation(false)]
    pub fn to_ast(&mut self) -> (r: Result<AstNode, PatternError>)
        ensures
            r == postfix_tree(postfix_of(old(self).pattern@)),
            final(self).pattern@ == old(self).pattern@,
    {
        let postfix = self.to_postfix();
        let chars = chars_of(postfix.as_str());
        let mut stack: Vec<AstNode> = Vec::new();
        let mut i: usize = 0;
        while i < chars.len()
            invariant
                i <= chars.len(),
                postfix_nodes(chars@.take(i as int)) == Ok::<Seq<AstNode>, PatternError>(stack@),
            decreases chars.len() - i,
        {
            let c = chars[i];
            proof {
                assert(chars@.take(i + 1).drop_last() == chars@.take(i as int));
            }
            match c {
                '.' | '|' | '*' => {
                    match stack_push(c, &mut stack) {
                        Ok(()) => {},
                        Err(e) => {
                            proof {
                                lemma_postfix_error_persists(chars@, i + 1);
                            }
                            return Err(e);
                        },
                    }
                },
                _ => {
                    stack.push(AstNode::Char(c));
                },
            }
            i += 1;
        }
        proof {
            assert(chars@.take(i as int) == chars@);
        }
        match stack.pop() {
            Some(node) => Ok(node),
            None => Err(PatternError::MissingOperand),
        }
    }

    /// Builds the tree of the pattern, which has its concatenation markers, in one pass.
    #[verifier::loop_isolation(false)]
    pub fn to_ast_directly(&mut self) -> (r: Result<AstNode, PatternError>)
        ensures
            r == tree_of(old(self).pattern@),
            final(self).pattern@ == old(self).pattern@,
    {
        let chars = chars_of(self.pattern.as_str());
        let mut stack: Vec<AstNode> = Vec::new();
        let mut op_stack: Vec<char> = Vec::new();
        let mut span_stack: Vec<char> = Vec::new();
        let mut i: usize = 0;
        while i < chars.len()
            invariant
                i <= chars.len(),
                run(chars@.take(i as int)) == Ok::<ParseState, PatternError>(
                    ParseState { nodes: stack@, ops: op_stack@, span: span_stack@ },
                ),
            decreases chars.len() - i,
        {
            let c = chars[i];
            proof {
                assert(chars@.take(i + 1).drop_last() == chars@.take(i as int));
            }
            let step_result = match c {
                '(' => {
                    op_stack.push(c);
                    Ok(())
                },
                ')' => close(&mut stack, &mut op_stack),
                '[' => {
                    span_stack.push(c);
                    Ok(())
                },
                '-' => Ok(()),
                ']' => {
                    if span_stack.len() == 3 && span_stack[0] == '[' {
                        stack.push(AstNode::Span(span_stack[1], span_stack[2]));
                        span_stack.clear();
                        Ok(())
                    } else {
                        Err(PatternError::UnbalancedBracket)
                    }
                },
                '*' | '+' | '?' | '.' | '|' => {
                    match reduce(&mut stack, &mut op_stack, precedence_of(c)) {
                        Ok(()) => {
                            op_stack.push(c);
                            Ok(())
                        },
                        Err(e) => Err(e),
                    }
                },
                _ => {
                    if span_stack.len() == 0 {
                        stack.push(AstNode::Char(c));
                    } else {
                        span_stack.push(c);
                    }
                    Ok(())
                },
            };
            match step_result {
                Ok(()) => {},
                Err(e) => {
                    proof {
                        lemma_run_error_persists(chars@, i + 1);
                    }
                    return Err(e);
                },
            }
            i += 1;
        }
        proof {
            assert(chars@.take(i as int) == chars@);
        }
        if span_stack.len() > 0 {
            return Err(PatternError::UnbalancedBracket);
        }
        match finish(&mut stack, &mut op_stack) {
            Ok(()) => {},
            Err(e) => {
                return Err(e);
            },
        }
        if stack.len() == 1 {
            Ok(stack.pop().unwrap())
        } else if stack.len() == 0 {
            Err(PatternError::MissingOperand)
        } else {
            Err(PatternError::UnexpectedOperand)
        }
    }

    /// Inserts the concatenation markers and builds the tree of the pattern.
    pub fn parse(&mut self) -> (r: Result<AstNode, PatternError>)
        ensures
            r == pattern_tree(old(self).pattern@),
            final(self).pattern@ == dotted(old(self).pattern@),
    {
        self.add_dot();
        self.to_ast_directly()
    }
}

/// Moves the operators above the nearest `(` to the output and removes that `(`.
fn move_group(out: &mut Vec<char>, ops: &mut Vec<char>)
    ensures
        (final(out)@, final(ops)@) == unwind(old(out)@, old(ops)@),
{
    loop
        invariant_except_break
            unwind(out@, ops@) == unwind(old(out)@, old(ops)@),
        ensures
            (out@, ops@) == unwind(old(out)@, old(ops)@),
        decreases ops.len(),
    {
        match ops.pop() {
            None => {
                break ;
            },
            Some(op) => {
                if op == '(' {
                    break ;
                }
                out.push(op);
            },
        }
    }
}

/// Moves the waiting operators that bind at least as tightly as `p` to the output.
fn move_while(out: &mut Vec<char>, ops: &mut Vec<char>, p: u8)
    ensures
        (final(out)@, final(ops)@) == yield_while(old(out)@, old(ops)@, p as int),
{
    while ops.len() > 0 && postfix_precedence_of(ops[ops.len() - 1]) >= p
        invariant
            yield_while(out@, ops@, p as int) == yield_while(old(out)@, old(ops)@, p as int),
        decreases ops.len(),
    {
        let op = ops.pop().unwrap();
        out.push(op);
    }
}

fn postfix_precedence_of(c: char) -> (p: u8)
    ensures
        p == postfix_precedence(c),
{
    match c {
        '*' => 3,
        '.' => 2,
        '|' => 1,
        _ => 0,
    }
}

} // verus!
