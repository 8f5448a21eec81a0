//! The small pattern language: literals, grouping, `|`, `*` and
//! concatenation, with its own rule for the concatenation marker.

use vstd::prelude::*;
use crate::ast::PatternError;
use crate::common::{chars_of, string_of};

verus! {
/// Syntax tree of a pattern of the small language.
#[derive(Debug, PartialEq, Eq)]
pub enum AstNode {
    And(Box<AstNode>, Box<AstNode>),
    Or(Box<AstNode>, Box<AstNode>),
    Star(Box<AstNode>),
    Char(char),
}

impl Clone for AstNode {
    fn clone(&self) -> (r: Self)
        ensures
            r == *self,
        decreases *self,
    {
        match self {
            AstNode::And(l, r) => AstNode::And(Box::new((**l).clone()), Box::new((**r).clone())),
            AstNode::Or(l, r) => AstNode::Or(Box::new((**l).clone()), Box::new((**r).clone())),
            AstNode::Star(x) => AstNode::Star(Box::new((**x).clone())),
            AstNode::Char(c) => AstNode::Char(*c),
        }
    }
}

/// Whether an explicit concatenation marker belongs between `prev` and
/// `cur`. The character with the code 0 never has one after it.
pub open spec fn joins(prev: char, cur: char) -> bool {
    &&& prev != '\0'
    &&& {
        ||| (prev != '(' && prev != '|' && cur != '*' && cur != ')' && cur != '|' && cur != '(')
        ||| (cur == '(' && prev != '|' && prev != '(')
    }
}

/// The pattern with a `.` written wherever concatenation is implicit.
pub open spec fn dotted(s: Seq<char>) -> Seq<char>
    decreases s.len(),
{
    if s.len() <= 1 {
        s
    } else if joins(s[s.len() - 2], s.last()) {
        dotted(s.drop_last()).push('.').push(s.last())
    } else {
        dotted(s.drop_last()).push(s.last())
    }
}

pub open spec fn precedence(c: char) -> int {
    if c == '*' {
        3
    } else if c == '.' {
        2
    } else if c == '|' {
        1
    } else {
        0
    }
}

/// The node stack after the operator `op` has taken its operands from the top.
/// A `(` still waiting on the operator stack has no `)`.
pub open spec fn apply_op(nodes: Seq<AstNode>, op: char) -> Result<Seq<AstNode>, PatternError> {
    let n = nodes.len() as int;
    if op == '.' || op == '|' {
        if n >= 2 {
            let left = Box::new(nodes[n - 2]);
            let right = Box::new(nodes[n - 1]);
            let node = if op == '.' {
                AstNode::And(left, right)
            } else {
                AstNode::Or(left, right)
            };
            Ok(nodes.take(n - 2).push(node))
        } else {
            Err(PatternError::MissingOperand)
        }
    } else if op == '*' {
        if n >= 1 {
            Ok(nodes.take(n - 1).push(AstNode::Star(Box::new(nodes[n - 1]))))
        } else {
            Err(PatternError::MissingOperand)
        }
    } else {
        Err(PatternError::UnbalancedParenthesis)
    }
}

/// Applies the waiting operators that bind at least as tightly as `p`, topmost first.
pub open spec fn reduce_while(nodes: Seq<AstNode>, ops: Seq<char>, p: int) -> Result<
    (Seq<AstNode>, Seq<char>),
    PatternError,
>
    decreases ops.len(),
{
    if ops.len() > 0 && precedence(ops.last()) >= p {
        match apply_op(nodes, ops.last()) {
            Ok(next) => reduce_while(next, ops.drop_last(), p),
            Err(e) => Err(e),
        }
    } else {
        Ok((nodes, ops))
    }
}

/// Applies the waiting operators down to the nearest `(`, which is removed.
pub open spec fn close_group(nodes: Seq<AstNode>, ops: Seq<char>) -> Result<
    (Seq<AstNode>, Seq<char>),
    PatternError,
>
    decreases ops.len(),
{
    if ops.len() == 0 {
        Err(PatternError::UnbalancedParenthesis)
    } else if ops.last() == '(' {
        Ok((nodes, ops.drop_last()))
    } else {
        match apply_op(nodes, ops.last()) {
            Ok(next) => close_group(next, ops.drop_last()),
            Err(e) => Err(e),
        }
    }
}

/// Applies every waiting operator, topmost first.
pub open spec fn drain(nodes: Seq<AstNode>, ops: Seq<char>) -> Result<Seq<AstNode>, PatternError>
    decreases ops.len(),
{
    if ops.len() == 0 {
        Ok(nodes)
    } else {
        match apply_op(nodes, ops.last()) {
            Ok(next) => drain(next, ops.drop_last()),
            Err(e) => Err(e),
        }
    }
}

/// Node stack and operator stack after one more pattern character.
pub open spec fn step(st: (Seq<AstNode>, Seq<char>), c: char) -> Result<
    (Seq<AstNode>, Seq<char>),
    PatternError,
> {
    if c == '(' {
        Ok((st.0, st.1.push(c)))
    } else if c == ')' {
        close_group(st.0, st.1)
    } else if c == '*' || c == '.' || c == '|' {
        match reduce_while(st.0, st.1, precedence(c)) {
            Ok((nodes, ops)) => Ok((nodes, ops.push(c))),
            Err(e) => Err(e),
        }
    } else {
        Ok((st.0.push(AstNode::Char(c)), st.1))
    }
}

/// The stacks after the whole of `s`, read left to right.
pub open spec fn run(s: Seq<char>) -> Result<(Seq<AstNode>, Seq<char>), PatternError>
    decreases s.len(),
{
    if s.len() == 0 {
        Ok((Seq::empty(), Seq::empty()))
    } else {
        match run(s.drop_last()) {
            Ok(st) => step(st, s.last()),
            Err(e) => Err(e),
        }
    }
}

/// The tree that a pattern with explicit concatenation markers denotes.
pub open spec fn tree_of(s: Seq<char>) -> Result<AstNode, PatternError> {
    match run(s) {
        Err(e) => Err(e),
        Ok(st) => match drain(st.0, st.1) {
            Err(e) => Err(e),
            Ok(nodes) => if nodes.len() == 1 {
                Ok(nodes[0])
            } else if nodes.len() == 0 {
                Err(PatternError::MissingOperand)
            } else {
                Err(PatternError::UnexpectedOperand)
            },
        },
    }
}

/// The tree that a pattern denotes.
pub open spec fn pattern_tree(s: Seq<char>) -> Result<AstNode, PatternError> {
    tree_of(dotted(s))
}

/// Once a prefix is rejected, so is every extension of it.
pub proof fn lemma_run_error_persists(s: Seq<char>, i: int)
    requires
        0 <= i <= s.len(),
        run(s.take(i)) is Err,
    ensures
        run(s) == run(s.take(i)),
    decreases s.len() - i,
{
    if i < s.len() {
        assert(s.take(i + 1).drop_last() == s.take(i));
        lemma_run_error_persists(s, i + 1);
    } else {
        assert(s.take(i) == s);
    }
}

/// Moves the operators above the nearest `(` to the output and removes that `(`.
pub open spec fn unwind(out: Seq<char>, ops: Seq<char>) -> (Seq<char>, Seq<char>)
    decreases ops.len(),
{
    if ops.len() == 0 {
        (out, ops)
    } else if ops.last() == '(' {
        (out, ops.drop_last())
    } else {
        unwind(out.push(ops.last()), ops.drop_last())
    }
}

/// Moves the waiting operators that bind at least as tightly as `p` to the output.
pub open spec fn yield_while(out: Seq<char>, ops: Seq<char>, p: int) -> (Seq<char>, Seq<char>)
    decreases ops.len(),
{
    if ops.len() > 0 && precedence(ops.last()) >= p {
        yield_while(out.push(ops.last()), ops.drop_last(), p)
    } else {
        (out, ops)
    }
}

/// Output and operator stack of the postfix rendering after one more character.
pub open spec fn postfix_step(st: (Seq<char>, Seq<char>), c: char) -> (Seq<char>, Seq<char>) {
    if c == '(' {
        (st.0, st.1.push(c))
    } else if c == ')' {
        unwind(st.0, st.1)
    } else if c == '*' || c == '.' || c == '|' {
        let (out, ops) = yield_while(st.0, st.1, precedence(c));
        (out, ops.push(c))
    } else {
        (st.0.push(c), st.1)
    }
}

pub open spec fn postfix_run(s: Seq<char>) -> (Seq<char>, Seq<char>)
    decreases s.len(),
{
    if s.len() == 0 {
        (Seq::empty(), Seq::empty())
    } else {
        postfix_step(postfix_run(s.drop_last()), s.last())
    }
}

/// The postfix rendering of a pattern with explicit concatenation markers:
/// operands in order, each operator after its operands.
pub open spec fn postfix_of(s: Seq<char>) -> Seq<char> {
    let (out, ops) = postfix_run(s);
    yield_while(out, ops, 0).0
}

/// The node stack after one more character of a postfix rendering.
pub open spec fn postfix_node_step(nodes: Seq<AstNode>, c: char) -> Result<
    Seq<AstNode>,
    PatternError,
> {
    if c == '.' || c == '|' || c == '*' {
        apply_op(nodes, c)
    } else {
        Ok(nodes.push(AstNode::Char(c)))
    }
}

pub open spec fn postfix_nodes(s: Seq<char>) -> Result<Seq<AstNode>, PatternError>
    decreases s.len(),
{
    if s.len() == 0 {
        Ok(Seq::empty())
    } else {
        match postfix_nodes(s.drop_last()) {
            Ok(nodes) => postfix_node_step(nodes, s.last()),
            Err(e) => Err(e),
        }
    }
}

/// The tree that a postfix rendering denotes: the last tree completed.
pub open spec fn postfix_tree(s: Seq<char>) -> Result<AstNode, PatternError> {
    match postfix_nodes(s) {
        Err(e) => Err(e),
        Ok(nodes) => if nodes.len() > 0 {
            Ok(nodes.last())
        } else {
            Err(PatternError::MissingOperand)
        },
    }
}

/// Once a prefix of a postfix rendering is rejected, so is every extension of it.
pub proof fn lemma_postfix_error_persists(s: Seq<char>, i: int)
    requires
        0 <= i <= s.len(),
        postfix_nodes(s.take(i)) is Err,
    ensures
        postfix_nodes(s) == postfix_nodes(s.take(i)),
    decreases s.len() - i,
{
    if i < s.len() {
        assert(s.take(i + 1).drop_last() == s.take(i));
        lemma_postfix_error_persists(s, i + 1);
    } else {
        assert(s.take(i) == s);
    }
}

fn precedence_of(c: char) -> (p: u8)
    ensures
        p == precedence(c),
{
    match c {
        '*' => 3,
        '.' => 2,
        '|' => 1,
        _ => 0,
    }
}

/// Lets the operator `op` take its operands from the top of the node stack.
fn stack_push(op: char, stack: &mut Vec<AstNode>) -> (r: Result<(), PatternError>)
    ensures
        match apply_op(old(stack)@, op) {
            Ok(nodes) => r is Ok && final(stack)@ == nodes,
            Err(e) => r == Err::<(), PatternError>(e),
        },
{
    let n = stack.len();
    match op {
        '.' | '|' => {
            if n < 2 {
                return Err(PatternError::MissingOperand);
            }
            let right = stack.pop().unwrap();
            let left = stack.pop().unwrap();
            if op == '.' {
                stack.push(AstNode::And(Box::new(left), Box::new(right)));
            } else {
                stack.push(AstNode::Or(Box::new(left), Box::new(right)));
            }
            Ok(())
        },
        '*' => {
            if n < 1 {
                return Err(PatternError::MissingOperand);
            }
            let node = stack.pop().unwrap();
            stack.push(AstNode::Star(Box::new(node)));
            Ok(())
        },
        _ => Err(PatternError::UnbalancedParenthesis),
    }
}

/// Applies the waiting operators that bind at least as tightly as `p`.
fn reduce(stack: &mut Vec<AstNode>, ops: &mut Vec<char>, p: u8) -> (r: Result<(), PatternError>)
    ensures
        match reduce_while(old(stack)@, old(ops)@, p as int) {
            Ok((nodes, rest)) => r is Ok && final(stack)@ == nodes && final(ops)@ == rest,
            Err(e) => r == Err::<(), PatternError>(e),
        },
{
    while ops.len() > 0 && precedence_of(ops[ops.len() - 1]) >= p
        invariant
            reduce_while(stack@, ops@, p as int) == reduce_while(old(stack)@, old(ops)@, p as int),
        decreases ops.len(),
    {
        let op = ops.pop().unwrap();
        match stack_push(op, stack) {
            Ok(()) => {},
            Err(e) => {
                return Err(e);
            },
        }
    }
    Ok(())
}

/// Applies the waiting operators down to the nearest `(` and removes it.
fn close(stack: &mut Vec<AstNode>, ops: &mut Vec<char>) -> (r: Result<(), PatternError>)
    ensures
        match close_group(old(stack)@, old(ops)@) {
            Ok((nodes, rest)) => r is Ok && final(stack)@ == nodes && final(ops)@ == rest,
            Err(e) => r == Err::<(), PatternError>(e),
        },
{
    loop
        invariant
            close_group(stack@, ops@) == close_group(old(stack)@, old(ops)@),
        decreases ops.len(),
    {
        match ops.pop() {
            None => {
                return Err(PatternError::UnbalancedParenthesis);
            },
            Some(op) => {
                if op == '(' {
                    return Ok(());
                }
                match stack_push(op, stack) {
                    Ok(()) => {},
                    Err(e) => {
                        return Err(e);
                    },
                }
            },
        }
    }
}

/// Applies every waiting operator.
fn finish(stack: &mut Vec<AstNode>, ops: &mut Vec<char>) -> (r: Result<(), PatternError>)
    ensures
        match drain(old(stack)@, old(ops)@) {
            Ok(nodes) => r is Ok && final(stack)@ == nodes,
            Err(e) => r == Err::<(), PatternError>(e),
        },
{
    while ops.len() > 0
        invariant
            drain(stack@, ops@) == drain(old(stack)@, old(ops)@),
        decreases ops.len(),
    {
        let op = ops.pop().unwrap();
        match stack_push(op, stack) {
            Ok(()) => {},
            Err(e) => {
                return Err(e);
            },
        }
    }
    Ok(())
}

/// Moves the operators above the nearest `(` to the output and removes that `(`.
fn move_group(out: &mut Vec<char>, ops: &mut Vec<char>)
    ensures
        (final(out)@, final(ops)@) == unwind(old(out)@, old(ops)@),
{
    loop
        invariant_except_break
            unwind(out@, ops@) == unwind(old(out)@, old(ops)@),
        ensures
            (out@, ops@) == unwind(old(out)@, old(ops)@),
        decreases ops.len(),
    {
        match ops.pop() {
            None => {
                break ;
            },
            Some(op) => {
                if op == '(' {
                    break ;
                }
                out.push(op);
            },
        }
    }
}

/// Moves the waiting operators that bind at least as tightly as `p` to the output.
fn move_while(out: &mut Vec<char>, ops: &mut Vec<char>, p: u8)
    ensures
        (final(out)@, final(ops)@) == yield_while(old(out)@, old(ops)@, p as int),
{
    while ops.len() > 0 && precedence_of(ops[ops.len() - 1]) >= p
        invariant
            yield_while(out@, ops@, p as int) == yield_while(old(out)@, old(ops)@, p as int),
        decreases ops.len(),
    {
        let op = ops.pop().unwrap();
        out.push(op);
    }
}

/// Parser of one pattern of the small language.
pub struct Parser {
    pub pattern: String,
}

impl Parser {
    pub fn new(pattern: String) -> (p: Self)
        ensures
            p.pattern@ == pattern@,
    {
        Parser { pattern }
    }

    /// Writes a `.` into the pattern wherever concatenation is implicit.
    pub fn add_dot(&mut self)
        ensures
            final(self).pattern@ == dotted(old(self).pattern@),
    {
        let chars = chars_of(self.pattern.as_str());
        let mut new_pattern: Vec<char> = Vec::new();
        let mut last_char = '\0';
        let mut i: usize = 0;
        while i < chars.len()
            invariant
                i <= chars.len(),
                new_pattern@ == dotted(chars@.take(i as int)),
                last_char == (if i == 0 {
                    '\0'
                } else {
                    chars@[i - 1]
                }),
            decreases chars.len() - i,
        {
            let c = chars[i];
            if last_char == '\0' {
            } else if last_char != '(' && last_char != '|' && c != '*' && c != ')' && c != '|' && c
                != '(' {
                new_pattern.push('.');
            } else if c == '(' && last_char != '|' && last_char != '(' {
                new_pattern.push('.');
            }
            new_pattern.push(c);
            last_char = c;
            proof {
                assert(chars@.take(i + 1).drop_last() == chars@.take(i as int));
            }
            i += 1;
        }
        proof {
            assert(chars@.take(i as int) == chars@);
        }
        self.pattern = string_of(&new_pattern);
    }

    /// Renders the pattern, which has its concatenation markers, in postfix order.
    #[verifier::loop_isolation(false)]
    pub fn to_postfix(&mut self) -> (postfix: String)
        ensures
            postfix@ == postfix_of(old(self).pattern@),
            final(self).pattern@ == old(self).pattern@,
    {
        let chars = chars_of(self.pattern.as_str());
        let mut postfix: Vec<char> = Vec::new();
        let mut op_stack: Vec<char> = Vec::new();
        let mut i: usize = 0;
        while i < chars.len()
            invariant
                i <= chars.len(),
                (postfix@, op_stack@) == postfix_run(chars@.take(i as int)),
            decreases chars.len() - i,
        {
            let c = chars[i];
            match c {
                '(' => op_stack.push(c),
                ')' => move_group(&mut postfix, &mut op_stack),
                '*' | '.' | '|' => {
                    move_while(&mut postfix, &mut op_stack, precedence_of(c));
                    op_stack.push(c);
                },
                _ => postfix.push(c),
            }
            proof {
                assert(chars@.take(i + 1).drop_last() == chars@.take(i as int));
            }
            i += 1;
        }
        proof {
            assert(chars@.take(i as int) == chars@);
        }
        move_while(&mut postfix, &mut op_stack, 0);
        string_of(&postfix)
    }

    /// Builds the tree of the pattern by way of its postfix rendering.
    #[verifier::loop_isolation(false)]
    pub fn to_ast(&mut self) -> (r: Result<AstNode, PatternError>)
        ensures
            r == postfix_tree(postfix_of(old(self).pattern@)),
            final(self).pattern@ == old(self).pattern@,
    {
        let postfix = self.to_postfix();
        let chars = chars_of(postfix.as_str());
        let mut stack: Vec<AstNode> = Vec::new();
        let mut i: usize = 0;
        while i < chars.len()
            invariant
                i <= chars.len(),
                postfix_nodes(chars@.take(i as int)) == Ok::<Seq<AstNode>, PatternError>(stack@),
            decreases chars.len() - i,
        {
            let c = chars[i];
            proof {
                assert(chars@.take(i + 1).drop_last() == chars@.take(i as int));
            }
            match c {
                '.' | '|' | '*' => {
                    match stack_push(c, &mut stack) {
                        Ok(()) => {},
                        Err(e) => {
                            proof {
                                lemma_postfix_error_persists(chars@, i + 1);
                            }
                            return Err(e);
                        },
                    }
                },
                _ => {
                    stack.push(AstNode::Char(c));
                },
            }
            i += 1;
        }
        proof {
            assert(chars@.take(i as int) == chars@);
        }
        match stack.pop() {
            Some(node) => Ok(node),
            None => Err(PatternError::MissingOperand),
        }
    }

    /// Builds the tree of the pattern, which has its concatenation markers, in one pass.
    #[verifier::loop_isolation(false)]
    pub fn to_ast_directly(&mut self) -> (r: Result<AstNode, PatternError>)
        ensures
            r == tree_of(old(self).pattern@),
            final(self).pattern@ == old(self).pattern@,
    {
        let chars = chars_of(self.pattern.as_str());
        let mut stack: Vec<AstNode> = Vec::new();
        let mut op_stack: Vec<char> = Vec::new();
        let mut i: usize = 0;
        while i < chars.len()
            invariant
                i <= chars.len(),
                run(chars@.take(i as int)) == Ok::<(Seq<AstNode>, Seq<char>), PatternError>(
                    (stack@, op_stack@),
                ),
            decreases chars.len() - i,
        {
            let c = chars[i];
            proof {
                assert(chars@.take(i + 1).drop_last() == chars@.take(i as int));
            }
            let step_result = match c {
                '(' => {
                    op_stack.push(c);
                    Ok(())
                },
                ')' => close(&mut stack, &mut op_stack),
                '*' | '.' | '|' => {
                    match reduce(&mut stack, &mut op_stack, precedence_of(c)) {
                        Ok(()) => {
                            op_stack.push(c);
                            Ok(())
                        },
                        Err(e) => Err(e),
                    }
                },
                _ => {
                    stack.push(AstNode::Char(c));
                    Ok(())
                },
            };
            match step_result {
                Ok(()) => {},
                Err(e) => {
                    proof {
                        lemma_run_error_persists(chars@, i + 1);
                    }
                    return Err(e);
                },
            }
            i += 1;
        }
        proof {
            assert(chars@.take(i as int) == chars@);
        }
        match finish(&mut stack, &mut op_stack) {
            Ok(()) => {},
            Err(e) => {
                return Err(e);
            },
        }
        if stack.len() == 1 {
            Ok(stack.pop().unwrap())
        } else if stack.len() == 0 {
            Err(PatternError::MissingOperand)
        } else {
            Err(PatternError::UnexpectedOperand)
        }
    }

    /// Inserts the concatenation markers and builds the tree of the pattern.
    pub fn parse(&mut self) -> (r: Result<AstNode, PatternError>)
        ensures
            r == pattern_tree(old(self).pattern@),
            final(self).pattern@ == dotted(old(self).pattern@),
    {
        self.add_dot();
        self.to_ast_directly()
    }
}

} // verus!
