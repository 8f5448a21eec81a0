use seu_lex::common::Tag;
use seu_lex::lexer::{Lexer, ScanStatus};

fn rules(list: &[(&str, &str)]) -> Vec<(String, Tag)> {
    list.iter().map(|(p, t)| (p.to_string(), Tag(t.to_string()))).collect()
}

fn digit_and_space() -> Vec<(String, Tag)> {
    rules(&[("(1|2|3|4|5|6|7|8|9)(0|1|2|3|4|5|6|7|8|9)*", "DIGIT"), (" ", "SPACE")])
}

#[test]
fn maximal_munch_digits_and_spaces() {
    let mut lexer = Lexer::new("123 45".chars(), digit_and_space()).unwrap();
    let (tokens, status) = lexer.scan();
    let got: Vec<(String, String)> = tokens.into_iter().map(|(l, t)| (l, t.0)).collect();
    assert_eq!(
        got,
        vec![
            ("123".to_string(), "DIGIT".to_string()),
            (" ".to_string(), "SPACE".to_string()),
            ("45".to_string(), "DIGIT".to_string()),
        ]
    );
    assert_eq!(status, ScanStatus::Consumed);
    assert!(lexer.is_done());
}

#[test]
fn backtrack_on_failure_reports_offset() {
    let mut lexer = Lexer::new("ac".chars(), rules(&[("ab", "A")])).unwrap();
    assert!(lexer.get_next_token().is_none());
    assert!(!lexer.is_done());
    assert_eq!(lexer.pos, 2);
    assert_eq!(lexer.status(), ScanStatus::Stalled { offset: 1, character: Some('c') });
}
