use assign_analyzer::lexer::Lexer;
use assign_analyzer::parser::Parser;
use assign_analyzer::Token;

#[test]
fn tokenize_records_positions_and_kinds() {
    let tokens = Lexer::new("AB := 9;").tokenize().expect("the line lexes");
    assert_eq!(tokens.len(), 4);
    assert_eq!(tokens[0].0, 0);
    assert!(matches!(&tokens[0].1, Token::Identifier(s) if s == "AB"));
    assert_eq!(tokens[1].0, 3);
    assert!(matches!(tokens[1].1, Token::Assign));
    assert_eq!(tokens[2].0, 6);
    assert!(matches!(tokens[2].1, Token::Constant(9)));
    assert_eq!(tokens[3].0, 7);
    assert!(matches!(tokens[3].1, Token::Semicolon));
}

#[test]
fn tokenize_folds_identifiers_to_upper_case() {
    let tokens = Lexer::new("dkl1").tokenize().expect("the identifier lexes");
    assert_eq!(tokens.len(), 1);
    assert!(matches!(&tokens[0].1, Token::Identifier(s) if s == "DKL1"));
}

#[test]
fn tokenize_is_all_or_nothing() {
    assert!(Lexer::new("AB ? CD").tokenize().is_err());
}

#[test]
fn lexer_cursor_moves_one_character_at_a_time() {
    let mut lx = Lexer::new("a");
    assert_eq!(lx.peek_char(), Some('a'));
    assert_eq!(lx.next_char(), Some('a'));
    assert_eq!(lx.peek_char(), None);
    assert_eq!(lx.next_char(), None);
}

#[test]
fn finish_without_any_classification_yields_no_reports() {
    let parser = Parser::new(Vec::new());
    let (ids, consts) = parser.finish();
    assert!(ids.is_none());
    assert!(consts.is_none());
}
