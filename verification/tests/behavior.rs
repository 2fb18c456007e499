use scanner::scan::tokenize;
use scanner::token::Kind::{
    Bang, Comment, Dot, Equal, Error, Identifier, Keyword, LeftParen, Less, LessEqual, Number,
    Plus, String,
};
use scanner::token::KeywordKind::{If, Var};
use scanner::token::{KeywordKind, Token};

#[test]
fn positions_increase() {
    let source = "var x = 1; # note\nprint \"hi\" <= !ok";
    let tokens = tokenize(source).into_vec();
    assert!(tokens.len() > 1);
    for pair in tokens.windows(2) {
        assert!(pair[0].position < pair[1].position);
    }
}

#[test]
fn scanning_twice_matches() {
    let source = "if (x >= 12) { print \"x\"; } # done";
    let first = tokenize(source).into_vec();
    let second = tokenize(source).into_vec();
    assert_eq!(first, second);
}

#[test]
fn next_after_exhaustion_stays_none() {
    let mut tokens = tokenize("  + ");
    assert_eq!(tokens.next(), Some(Token::new(2, Plus)));
    assert!(tokens.next().is_none());
    assert!(tokens.next().is_none());
    assert!(tokens.next().is_none());
}

#[test]
fn comment_runs_to_end_of_input() {
    let source = "12#no newline follows";
    let actual = tokenize(source).into_vec();
    let expected = vec![Token::new(0, Number), Token::new(2, Comment)];
    assert_eq!(actual, expected);
}

#[test]
fn operators_at_end_of_input() {
    assert_eq!(tokenize("=").into_vec(), vec![Token::new(0, Equal)]);
    assert_eq!(tokenize("<").into_vec(), vec![Token::new(0, Less)]);
    assert_eq!(tokenize("<=").into_vec(), vec![Token::new(0, LessEqual)]);
    assert_eq!(tokenize("!").into_vec(), vec![Token::new(0, Bang)]);
}

#[test]
fn keyword_at_end_of_input() {
    assert_eq!(tokenize("var").into_vec(), vec![Token::new(0, Keyword(Var))]);
}

#[test]
fn keyword_before_punctuation() {
    let actual = tokenize("if(").into_vec();
    let expected = vec![Token::new(0, Keyword(If)), Token::new(2, LeftParen)];
    assert_eq!(actual, expected);
}

#[test]
fn keyword_followed_by_digits_is_identifier() {
    assert_eq!(tokenize("class1").into_vec(), vec![Token::new(0, Identifier)]);
    assert_eq!(tokenize("nil7x").into_vec(), vec![Token::new(0, Identifier)]);
}

#[test]
fn keywords_are_case_sensitive() {
    let actual = tokenize("While TRUE Nil").into_vec();
    let expected = vec![
        Token::new(0, Identifier),
        Token::new(6, Identifier),
        Token::new(11, Identifier),
    ];
    assert_eq!(actual, expected);
}

#[test]
fn tab_and_carriage_return_are_whitespace() {
    let actual = tokenize("\t\r .").into_vec();
    assert_eq!(actual, vec![Token::new(3, Dot)]);
}

#[test]
fn empty_string_literal() {
    assert_eq!(tokenize("\"\"").into_vec(), vec![Token::new(0, String)]);
}

#[test]
fn lone_quote_is_unterminated() {
    assert_eq!(tokenize("\"").into_vec(), vec![Token::new(0, Error)]);
}

#[test]
fn number_then_word() {
    let actual = tokenize("123abc").into_vec();
    let expected = vec![Token::new(0, Number), Token::new(3, Identifier)];
    assert_eq!(actual, expected);
}

#[test]
fn token_new_records_fields() {
    let token = Token::new(17, Comment);
    assert_eq!(token.position, 17);
    assert_eq!(token.kind, Comment);
}

#[test]
fn keyword_text_spellings() {
    assert_eq!(KeywordKind::And.text(), b"and".to_vec());
    assert_eq!(KeywordKind::Function.text(), b"function".to_vec());
    assert_eq!(KeywordKind::While.text(), b"while".to_vec());
    assert_eq!(KeywordKind::Return.text(), b"return".to_vec());
}
