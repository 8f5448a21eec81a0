use seu_lex::ast::{AstNode, Parser, PatternError};
use seu_lex::common::Tag;
use seu_lex::dfa::Dfa;
use seu_lex::lexer::Lexer;
use seu_lex::nfa::{Nfa, Transition};

fn two_rules() -> Vec<(String, Tag)> {
    vec![
        ("(a_b|a*b)*".to_string(), Tag("a".to_string())),
        ("(a|b)*abb".to_string(), Tag("b".to_string())),
    ]
}

fn ch(c: char) -> Box<AstNode> {
    Box::new(AstNode::Char(c))
}

#[test]
fn test_add_dot() {
    let mut parser = Parser::new("\"[a-f]|[A-F]|[0-9]*\"".to_string());
    parser.add_dot();
    println!("{}", parser.pattern);
    assert_eq!(parser.pattern, "\".[a-f]|[A-F]|[0-9]*.\"");
}

#[test]
fn test_to_postfix() {
    let mut parser = Parser::new("(a_b|a*b)*".to_string());
    parser.add_dot();
    let postfix = parser.to_postfix();
    println!("{}", postfix);
    assert_eq!(parser.pattern, "(a._.b|a*.b)*");
    assert_eq!(postfix, "a_.b.a*b.|*");
}

#[test]
fn test_to_ast() {
    let mut parser = Parser::new("(a|b)*abb".to_string());
    parser.add_dot();
    let ast = parser.to_ast().unwrap();
    println!("{:?}", ast);
    let star = Box::new(AstNode::Star(Box::new(AstNode::Or(ch('a'), ch('b')))));
    let expected = AstNode::And(
        Box::new(AstNode::And(Box::new(AstNode::And(star, ch('a'))), ch('b'))),
        ch('b'),
    );
    assert_eq!(ast, expected);
}

#[test]
fn test_to_ast_directly() {
    let mut parser = Parser::new("\"[!-~]*\"".to_string());
    parser.add_dot();
    let ast = parser.to_ast_directly().unwrap();
    println!("{:?}", ast);
    let expected = AstNode::And(
        Box::new(AstNode::And(ch('"'), Box::new(AstNode::Star(Box::new(AstNode::Span('!', '~')))))),
        ch('"'),
    );
    assert_eq!(ast, expected);
}

#[test]
fn test_get_epsilon_closure() {
    let dfa = Dfa::new(two_rules()).unwrap();
    let mut closure = dfa.get_epsilon_closure(14);
    assert_eq!(closure, vec![14, 13, 12, 15]);
    closure.sort();
    println!("{:?}", closure);
    assert_eq!(closure, vec![12, 13, 14, 15]);
}

#[test]
fn test_compute_nfa_transition_range() {
    let dfa = Dfa::new(two_rules()).unwrap();
    let range = dfa.compute_nfa_transition_range(vec![0, 1, 2]);
    println!("{:?}", range);
    assert!(range.is_empty());
    let all: Vec<usize> = (0..dfa.nfa.states.len()).collect();
    let mut range = dfa.compute_nfa_transition_range(all);
    range.sort();
    assert_eq!(range, vec!['_', 'a', 'b']);
}

#[test]
fn test_construct() {
    let mut dfa = Dfa::new(two_rules()).unwrap();
    dfa.construct();
    for (i, state) in dfa.states.iter().enumerate() {
        println!("State {}", i);
        for (c, next) in &state.transitions {
            println!("  {} -> State {}", c, next);
            assert!(*next < dfa.states.len());
        }
    }
    assert!(dfa.states.len() > 1);
    assert_eq!(dfa.states[0].nfa_states[0], 0);
}

#[test]
fn test_minimize() {
    let pattern = vec![
        ("(1|2|3|4|5|6|7|8|9)(0|1|2|3|4|5|6|7|8|9)*".to_string(), Tag("DIGIT".to_string())),
        (" ".to_string(), Tag("SPACE".to_string())),
    ];
    let mut dfa = Dfa::new(pattern).unwrap();
    dfa.construct();
    let before = dfa.states.len();
    dfa.minimize();
    let dot = dfa.to_graphviz().unwrap();
    println!("{}", dot);
    assert!(dfa.states.len() < before);
    assert_eq!(dfa.states.len(), 3);
    assert!(dot.starts_with("digraph {\n"));
    assert!(dot.contains("0 [ label = \"\\\"State 0 (start)\\\"\" ]"));
    assert!(dot.contains("(accept: DIGIT)"));
    assert!(dot.contains("(accept: SPACE)"));
}

#[test]
fn test_dfa_graphviz() {
    let pattern = vec![
        ("(1|2|3|4|5|6|7|8|9)(0|1|2|3|4|5|6|7|8|9)*".to_string(), Tag("DIGIT".to_string())),
        ("a".to_string(), Tag("SPACE".to_string())),
    ];
    let mut dfa = Dfa::new(pattern).unwrap();
    dfa.construct();
    let dot = dfa.to_graphviz().unwrap();
    println!("{}", dot);
    assert_eq!(dfa.states.len(), 21);
    assert_eq!(dot.matches(" -> ").count(), 10 + 19 * 10);
    assert!(dot.contains("0 -> 1 [ label = \"\\\"1\\\"\" ]"));
}

#[test]
fn test_nfa_graphviz() {
    let pattern = vec![
        ("(a|b)+[a-c]".to_string(), Tag("a".to_string())),
        ("(a|b)*abb".to_string(), Tag("b".to_string())),
    ];
    let mut nfa = Nfa::new(pattern).unwrap();
    nfa.construct();
    let dot = nfa.to_graphviz().unwrap();
    println!("{}", dot);
    assert!(dot.contains("0 [ label = \"\\\"State 0 (start)\\\"\" ]"));
    assert!(dot.contains("(accept: a)"));
    assert!(dot.contains("(accept: b)"));
    assert!(dot.contains("State 10"));
    let spans = nfa.states.iter().filter(|s| s.transitions.len() == 3).count();
    assert_eq!(spans, 1);
    let symbols: usize = nfa
        .states
        .iter()
        .map(|s| s.transitions.iter().filter(|(t, _)| *t != Transition::Epsilon).count())
        .sum();
    assert_eq!(symbols, 2 + 3 + 2 + 3);
    assert!(dot.contains("\u{3b5}"));
}

#[test]
fn test_lexer() {
    let pattern = vec![("\"[a-c]*\"".to_string(), Tag("DIGIT".to_string()))];
    let input = "\"1.6f\"".chars();
    let mut l = Lexer::new(input, pattern).unwrap();
    let graph = l.dfa.to_graphviz().unwrap();
    println!("{}", graph);
    let mut tokens = Vec::new();
    while let Some(token) = l.get_next_token() {
        tokens.push(token);
    }
    println!("{:?}", tokens);
    assert!(tokens.is_empty());
    assert!(!l.is_done());
}

#[test]
fn malformed_patterns_are_rejected() {
    let parse = |s: &str| Parser::new(s.to_string()).parse();
    assert_eq!(parse(""), Err(PatternError::MissingOperand));
    assert_eq!(parse("(a"), Err(PatternError::UnbalancedParenthesis));
    assert_eq!(parse("a)"), Err(PatternError::UnbalancedParenthesis));
    assert_eq!(parse("a]"), Err(PatternError::UnbalancedBracket));
    assert_eq!(parse("[a-"), Err(PatternError::UnbalancedBracket));
    assert_eq!(parse("[a-bc-d]"), Err(PatternError::UnbalancedBracket));
    assert_eq!(parse("a|"), Err(PatternError::MissingOperand));
    assert_eq!(parse("*"), Err(PatternError::MissingOperand));
    assert_eq!(parse("a-b"), Err(PatternError::UnexpectedOperand));
}
