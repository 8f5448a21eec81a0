use seu_lex::ast::PatternError;
use seu_lex::nfa::ast::{AstNode, Parser};
use seu_lex::nfa::nfa_construct::Nfa;
use seu_lex::nfa::Transition;

fn ch(c: char) -> Box<AstNode> {
    Box::new(AstNode::Char(c))
}

fn abb() -> AstNode {
    let star = Box::new(AstNode::Star(Box::new(AstNode::Or(ch('a'), ch('b')))));
    AstNode::And(Box::new(AstNode::And(Box::new(AstNode::And(star, ch('a'))), ch('b'))), ch('b'))
}

#[test]
fn ast_test_add_dot() {
    let mut parser = Parser::new("(a_b|a*b)*".to_string());
    parser.add_dot();
    println!("{}", parser.pattern);
    assert_eq!(parser.pattern, "(a._.b|a*.b)*");
}

#[test]
fn ast_test_to_postfix() {
    let mut parser = Parser::new("(a_b|a*b)*".to_string());
    parser.add_dot();
    let postfix = parser.to_postfix();
    println!("{}", postfix);
    assert_eq!(postfix, "a_.b.a*b.|*");
}

#[test]
fn ast_test_to_ast() {
    let mut parser = Parser::new("(a|b)*abb".to_string());
    parser.add_dot();
    let ast = parser.to_ast().unwrap();
    println!("{:?}", ast);
    assert_eq!(ast, abb());
}

#[test]
fn ast_test_to_ast_directly() {
    let mut parser = Parser::new("(a|b)*abb".to_string());
    parser.add_dot();
    let ast = parser.to_ast_directly().unwrap();
    println!("{:?}", ast);
    assert_eq!(ast, abb());
}

#[test]
fn test_nfa_construct() {
    let mut nfa = Nfa::new("(a|b)*abb".to_string()).unwrap();
    nfa.construct();
    for (i, state) in nfa.states.iter().enumerate() {
        println!("state {}", i);
        for (transition, next) in &state.transitions {
            match transition {
                Transition::Epsilon => println!("  -> {}", next),
                Transition::Symbol(c) => println!("  -{}-> {}", c, next),
            }
        }
    }
    assert_eq!(nfa.new_state, 15);
    assert_eq!(nfa.states.len(), 14);
    assert_eq!((nfa.start, nfa.accept), (1, 14));
    assert!(nfa.states[0].transitions.is_empty());
    assert_eq!(nfa.states[1].transitions, vec![(Transition::Epsilon, 3), (Transition::Epsilon, 2)]);
    assert_eq!(nfa.states[5].transitions, vec![(Transition::Symbol('a'), 6)]);
    assert_eq!(nfa.states[2].transitions, vec![(Transition::Epsilon, 9)]);
    assert_eq!(nfa.states[12].transitions, vec![(Transition::Epsilon, 13)]);
    assert_eq!(nfa.states[13].transitions, vec![(Transition::Symbol('b'), 14)]);
}

#[test]
fn small_language_marks_concatenation_after_a_star() {
    let mut parser = Parser::new("a*b(c)".to_string());
    parser.add_dot();
    assert_eq!(parser.pattern, "a*.b.(c)");
    let mut parser = Parser::new("a|(b)".to_string());
    parser.add_dot();
    assert_eq!(parser.pattern, "a|(b)");
}

#[test]
fn small_language_rejects_malformed_patterns() {
    let parse = |s: &str| Parser::new(s.to_string()).parse();
    assert_eq!(parse(""), Err(PatternError::MissingOperand));
    assert_eq!(parse("(a"), Err(PatternError::UnbalancedParenthesis));
    assert_eq!(parse("a)"), Err(PatternError::UnbalancedParenthesis));
    assert_eq!(parse("|a"), Err(PatternError::MissingOperand));
    assert_eq!(parse("a+"), Ok(AstNode::And(ch('a'), ch('+'))));
}
