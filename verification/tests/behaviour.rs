use seu_lex::ast::{AstNode, Parser, PatternError};
use seu_lex::common::{input2internal, internal2input, Tag};
use seu_lex::dfa::Dfa;
use seu_lex::lexer::{Lexer, ScanStatus};
use seu_lex::nfa::{Nfa, Transition};
use seu_lex::rules::{parse_rules, unescape, RuleError};

fn rules(list: &[(&str, &str)]) -> Vec<(String, Tag)> {
    list.iter().map(|(p, t)| (p.to_string(), Tag(t.to_string()))).collect()
}

fn scan(list: &[(&str, &str)], input: &str) -> (Vec<(String, String)>, ScanStatus) {
    let mut lexer = Lexer::new(input.chars(), rules(list)).unwrap();
    let (tokens, status) = lexer.scan();
    (tokens.into_iter().map(|(l, t)| (l, t.0)).collect(), status)
}

fn scan_unminimized(list: &[(&str, &str)], input: &str) -> (Vec<(String, String)>, ScanStatus) {
    let mut dfa = Dfa::new(rules(list)).unwrap();
    dfa.construct();
    let mut lexer = Lexer { input: input.chars(), dfa, last_char: None, pos: 0, is_done: false };
    let (tokens, status) = lexer.scan();
    (tokens.into_iter().map(|(l, t)| (l, t.0)).collect(), status)
}

fn words(alphabet: &[char], max_len: usize) -> Vec<String> {
    let mut all = vec![String::new()];
    let mut last = vec![String::new()];
    for _ in 0..max_len {
        let mut next = Vec::new();
        for w in &last {
            for c in alphabet {
                let mut v = w.clone();
                v.push(*c);
                next.push(v);
            }
        }
        all.extend(next.iter().cloned());
        last = next;
    }
    all
}

#[test]
fn single_rule_scans_every_word_it_matches() {
    let cases: Vec<(&str, Vec<&str>)> = vec![
        ("(a|b)*abb", vec!["abb", "aabb", "babb", "abababb", "bbbbabb"]),
        ("a+b?", vec!["a", "ab", "aaa", "aaab"]),
        ("[0-9]+", vec!["0", "42", "9876543210"]),
        ("x(yz)*", vec!["x", "xyz", "xyzyz"]),
        ("\"[!-~]*\"", vec!["\"\"", "\"abc\"", "\"a!~z\""]),
        ("(ab|cd)?e", vec!["e", "abe", "cde"]),
    ];
    for (pattern, inputs) in cases {
        for input in inputs {
            let (tokens, status) = scan(&[(pattern, "T")], input);
            assert_eq!(tokens, vec![(input.to_string(), "T".to_string())], "{pattern} on {input}");
            assert_eq!(status, ScanStatus::Consumed);
        }
    }
}

#[test]
fn the_empty_word_gives_no_token() {
    let (tokens, status) = scan(&[("a*", "A")], "");
    assert!(tokens.is_empty());
    assert_eq!(status, ScanStatus::Stalled { offset: 0, character: None });
}

#[test]
fn scanning_twice_gives_the_same_tokens_and_status() {
    let list = [("(1|2|3|4|5|6|7|8|9)(0|1|2|3|4|5|6|7|8|9)*", "DIGIT"), (" ", "SPACE"), ("ab", "AB")];
    for input in words(&['1', '0', ' ', 'a', 'b'], 4) {
        assert_eq!(scan(&list, &input), scan(&list, &input), "{input:?}");
    }
}

#[test]
fn minimization_keeps_the_tokens_of_every_short_input() {
    let list = [("(1|2|3|4|5|6|7|8|9)(0|1|2|3|4|5|6|7|8|9)*", "DIGIT"), (" ", "SPACE")];
    for input in words(&['1', '0', '7', ' ', 'x'], 5) {
        assert_eq!(scan(&list, &input), scan_unminimized(&list, &input), "{input:?}");
    }
    let list = [("(a|b)*abb", "X")];
    for input in words(&['a', 'b', 'c'], 6) {
        assert_eq!(scan(&list, &input), scan_unminimized(&list, &input), "{input:?}");
    }
}

#[test]
fn merging_a_state_into_one_with_more_transitions_widens_the_language() {
    let list = [("ab|a", "T")];
    let t = |s: &str| (s.to_string(), "T".to_string());
    assert_eq!(
        scan_unminimized(&list, "abb"),
        (vec![t("ab")], ScanStatus::Stalled { offset: 2, character: Some('b') })
    );
    assert_eq!(scan(&list, "abb"), (vec![t("abb")], ScanStatus::Consumed));
    let list = [("(a|b)*abb", "X"), ("c+", "Y")];
    assert_eq!(
        scan_unminimized(&list, "bc"),
        (vec![], ScanStatus::Stalled { offset: 1, character: Some('c') })
    );
    assert_eq!(scan(&list, "bc"), (vec![("bc".to_string(), "Y".to_string())], ScanStatus::Consumed));
}

#[test]
fn minimized_automaton_has_fewer_states() {
    let list = rules(&[("(1|2|3|4|5|6|7|8|9)(0|1|2|3|4|5|6|7|8|9)*", "DIGIT"), (" ", "SPACE")]);
    let mut dfa = Dfa::new(list).unwrap();
    dfa.construct();
    let before = dfa.states.len();
    dfa.minimize();
    assert_eq!(before, 21);
    assert_eq!(dfa.states.len(), 3);
    assert_eq!(dfa.states[0].accept, None);
    assert_eq!(dfa.states[1].accept, Some(Tag("DIGIT".to_string())));
    assert_eq!(dfa.states[2].accept, Some(Tag("SPACE".to_string())));
    assert_eq!(dfa.states[0].transitions.len(), 10);
    assert_eq!(dfa.states[1].transitions.len(), 10);
    assert!(dfa.states[1].transitions.iter().all(|(_, t)| *t == 1));
    assert!(dfa.states[2].transitions.is_empty());
    assert_eq!(dfa.get_next_state(0, ' '), Some(2));
    assert_eq!(dfa.get_next_state(0, '0'), None);
    assert_eq!(dfa.get_next_state(1, '0'), Some(1));
}

#[test]
fn escaped_parenthesis_matches_the_literal_character() {
    let list = parse_rules("LP->\\(\n").unwrap();
    assert_eq!(list, vec![("\u{1004}".to_string(), Tag("LP".to_string()))]);
    let mut lexer = Lexer::new("(".chars(), list).unwrap();
    let token = lexer.get_next_token();
    assert_eq!(token, Some(("(".to_string(), Tag("LP".to_string()))));
    assert!(lexer.is_done());
}

#[test]
fn escape_alphabet_round_trips() {
    let meta = ['.', '*', '+', '?', '(', ')', '[', ']', '|', '-', '\\'];
    for (i, c) in meta.iter().enumerate() {
        let internal = input2internal(*c);
        assert_eq!(internal as u32, 0x1000 + i as u32);
        assert_eq!(internal2input(internal), *c);
    }
    for c in ['a', ' ', '\n', '0', '\u{fff}', '\u{100b}', '\u{10ffff}'] {
        assert_eq!(input2internal(c), c);
        assert_eq!(internal2input(c), c);
    }
}

#[test]
fn the_longest_match_wins_and_the_characters_behind_it_are_lost() {
    let list = [("a", "A"), ("abc", "ABC"), ("d", "D")];
    let t = |l: &str, g: &str| (l.to_string(), g.to_string());
    assert_eq!(scan(&list, "abc"), (vec![t("abc", "ABC")], ScanStatus::Consumed));
    assert_eq!(scan(&list, "abd"), (vec![t("a", "A"), t("d", "D")], ScanStatus::Consumed));
    assert_eq!(
        scan(&list, "abx"),
        (vec![t("a", "A")], ScanStatus::Stalled { offset: 2, character: Some('x') })
    );
}

#[test]
fn the_first_rule_wins_a_tie() {
    let first = [("ab", "FIRST"), ("(a|b)+", "SECOND")];
    assert_eq!(scan(&first, "ab").0, vec![("ab".to_string(), "FIRST".to_string())]);
    let second = [("(a|b)+", "SECOND"), ("ab", "FIRST")];
    assert_eq!(scan(&second, "ab").0, vec![("ab".to_string(), "SECOND".to_string())]);
}

#[test]
fn position_counts_the_characters_pulled() {
    let mut lexer = Lexer::new("12 3".chars(), rules(&[("[0-9]+", "N"), (" ", "S")])).unwrap();
    assert_eq!(lexer.get_next_token().unwrap().0, "12");
    assert_eq!((lexer.pos, lexer.last_char), (3, Some(' ')));
    assert_eq!(lexer.get_next_token().unwrap().0, " ");
    assert_eq!((lexer.pos, lexer.last_char), (4, Some('3')));
    assert_eq!(lexer.get_next_token().unwrap().0, "3");
    assert_eq!((lexer.pos, lexer.last_char, lexer.is_done()), (4, None, true));
    assert_eq!(lexer.get_next_token(), None);
    assert_eq!(lexer.pos, 4);
    assert_eq!(lexer.status(), ScanStatus::Consumed);
}

#[test]
fn a_stall_at_the_end_of_the_input_names_no_character() {
    let (tokens, status) = scan(&[("ab", "A")], "a");
    assert!(tokens.is_empty());
    assert_eq!(status, ScanStatus::Stalled { offset: 1, character: None });
}

#[test]
fn a_malformed_pattern_stops_the_whole_rule_set() {
    let bad = rules(&[("a", "A"), ("(b", "B"), ("c", "C")]);
    assert_eq!(Nfa::new(bad.clone()).err(), Some(PatternError::UnbalancedParenthesis));
    assert_eq!(Dfa::new(bad.clone()).err(), Some(PatternError::UnbalancedParenthesis));
    assert_eq!(Lexer::new("a".chars(), bad).err(), Some(PatternError::UnbalancedParenthesis));
    let first = rules(&[("a|", "A"), ("b)", "B")]);
    assert_eq!(Nfa::new(first).err(), Some(PatternError::MissingOperand));
}

#[test]
fn operators_bind_as_in_the_precedence_table() {
    let parse = |s: &str| Parser::new(s.to_string()).parse().unwrap();
    let ch = |c: char| Box::new(AstNode::Char(c));
    assert_eq!(
        parse("a|bc*"),
        AstNode::Or(ch('a'), Box::new(AstNode::And(ch('b'), Box::new(AstNode::Star(ch('c'))))))
    );
    assert_eq!(
        parse("(a|b)+c?"),
        AstNode::And(
            Box::new(AstNode::Plus(Box::new(AstNode::Or(ch('a'), ch('b'))))),
            Box::new(AstNode::Question(ch('c')))
        )
    );
    assert_eq!(parse("[a-z]"), AstNode::Span('a', 'z'));
    assert_eq!(parse("a**"), AstNode::Star(Box::new(AstNode::Star(ch('a')))));
}

#[test]
fn a_pattern_with_every_operator_in_parentheses_reads_back() {
    let parse = |s: &str| Parser::new(s.to_string()).parse().unwrap();
    let ch = |c: char| Box::new(AstNode::Char(c));
    let tree = AstNode::Or(
        Box::new(AstNode::And(ch('a'), Box::new(AstNode::Star(ch('b'))))),
        Box::new(AstNode::Question(Box::new(AstNode::Plus(Box::new(AstNode::Span('0', '9')))))),
    );
    assert_eq!(parse("((a(b*))|(([0-9]+)?))"), tree);
    assert_eq!(parse("a"), AstNode::Char('a'));
    assert_eq!(parse("(ab)"), AstNode::And(ch('a'), ch('b')));
}

#[test]
fn thompson_construction_adds_two_states_for_every_node_but_concatenation() {
    let mut nfa = Nfa::new(rules(&[("ab", "X"), ("c|d", "Y"), ("[a-e]", "Z")])).unwrap();
    nfa.construct();
    assert_eq!(nfa.states.len(), 1 + 4 + 6 + 2);
    assert_eq!(nfa.new_state, 13);
    assert_eq!(
        nfa.states[0].transitions,
        vec![(Transition::Epsilon, 1), (Transition::Epsilon, 5), (Transition::Epsilon, 11)]
    );
    let accept: Vec<(usize, String)> = nfa.accept.iter().map(|(s, t)| (*s, t.0.clone())).collect();
    assert_eq!(accept, vec![(4, "X".to_string()), (6, "Y".to_string()), (12, "Z".to_string())]);
    assert_eq!(nfa.states[2].transitions, vec![(Transition::Epsilon, 3)]);
    assert_eq!(
        nfa.states[11].transitions,
        "abcde".chars().map(|c| (Transition::Symbol(c), 12)).collect::<Vec<_>>()
    );
    assert_eq!(nfa.states[5].transitions, vec![(Transition::Epsilon, 7), (Transition::Epsilon, 9)]);
}

#[test]
fn a_range_skips_the_surrogates_and_may_be_empty() {
    let mut nfa = Nfa::new(rules(&[("[\u{d7fe}-\u{e001}]", "R"), ("[b-a]", "E")])).unwrap();
    nfa.construct();
    let targets: Vec<Transition> = nfa.states[1].transitions.iter().map(|(t, _)| *t).collect();
    assert_eq!(
        targets,
        vec!['\u{d7fe}', '\u{d7ff}', '\u{e000}', '\u{e001}']
            .into_iter()
            .map(Transition::Symbol)
            .collect::<Vec<_>>()
    );
    assert!(nfa.states[3].transitions.is_empty());
}

#[test]
fn subset_construction_numbers_states_and_sets() {
    let mut dfa = Dfa::new(rules(&[("ab", "X"), ("a", "Y")])).unwrap();
    dfa.construct();
    assert_eq!(dfa.states.len(), 3);
    assert_eq!(dfa.states[0].nfa_states, vec![0, 1, 5]);
    assert_eq!(dfa.states[0].transitions, vec![('a', 1)]);
    assert_eq!(dfa.states[1].nfa_states, vec![2, 3, 6]);
    assert_eq!(dfa.states[1].accept, Some(Tag("Y".to_string())));
    assert_eq!(dfa.states[1].transitions, vec![('b', 2)]);
    assert_eq!(dfa.states[2].nfa_states, vec![4]);
    assert_eq!(dfa.states[2].accept, Some(Tag("X".to_string())));
    assert_eq!(dfa.move_on(&vec![0, 1, 5], 'a'), vec![2, 3, 6]);
    assert_eq!(dfa.find_state(&vec![4]), Some(2));
    assert_eq!(dfa.find_state(&vec![3]), None);
}

#[test]
fn rule_text_is_split_into_lines_tags_and_patterns() {
    let text = "A->a\\tb\r\n\nB->x->y\nC->\\\\\\.\\*\\-";
    let list = parse_rules(text).unwrap();
    assert_eq!(
        list,
        vec![
            ("a\tb".to_string(), Tag("A".to_string())),
            ("x".to_string(), Tag("B".to_string())),
            ("\u{100a}\u{1000}\u{1001}\u{1009}".to_string(), Tag("C".to_string())),
        ]
    );
    assert_eq!(parse_rules("A->a\n\r\nnonsense\n"), Err(RuleError::MissingArrow { line: 2 }));
    assert_eq!(parse_rules(""), Ok(vec![]));
}

#[test]
fn escapes_are_replaced_one_kind_after_the_other() {
    let un = |s: &str| unescape(&s.chars().collect()).into_iter().collect::<String>();
    assert_eq!(un("\\\\t"), "\\\t");
    assert_eq!(un("\\n\\r"), "\n\r");
    assert_eq!(un("\\(\\)\\[\\]\\|\\+\\?"), "\u{1004}\u{1005}\u{1006}\u{1007}\u{1008}\u{1002}\u{1003}");
    assert_eq!(un("a\\"), "a\\");
}

#[test]
fn graphviz_text_of_a_small_automaton() {
    let mut dfa = Dfa::new(rules(&[("a", "A")])).unwrap();
    let nfa_text = dfa.nfa.to_graphviz().unwrap();
    assert_eq!(
        nfa_text,
        "digraph {\n    0 [ label = \"\\\"State 0 (start)\\\"\" ]\n    1 [ label = \"\\\"State 1\\\"\" ]\n    2 [ label = \"\\\"State 2 (accept: A)\\\"\" ]\n    0 -> 1 [ label = \"\\\"\u{3b5}\\\"\" ]\n    1 -> 2 [ label = \"\\\"a\\\"\" ]\n}\n"
    );
    dfa.construct();
    dfa.minimize();
    assert_eq!(
        dfa.to_graphviz().unwrap(),
        "digraph {\n    0 [ label = \"\\\"State 0 (start)\\\"\" ]\n    1 [ label = \"\\\"State 1 (accept: A)\\\"\" ]\n    0 -> 1 [ label = \"\\\"a\\\"\" ]\n}\n"
    );
}
