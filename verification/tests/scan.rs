use scanner::scan::tokenize;
use scanner::token::Kind::{
    Bang, BangEqual, Comma, Comment, Dot, Equal, EqualEqual, Error, Greater, GreaterEqual,
    Identifier, Keyword, LeftBrace, LeftParen, Less, LessEqual, Minus, Number, Plus, RightBrace,
    RightParen, Semicolon, Slash, Star, String,
};
use scanner::token::KeywordKind::{
    And, Class, Else, False, For, Function, If, Nil, Or, Print, Return, Super, This, True, Var,
    While,
};
use scanner::token::{Kind, Token};

fn assert_equality(actual: Vec<Token>, expected: &[(usize, Kind)]) {
    assert_eq!(actual.len(), expected.len());
    // Asserting element-wise results in cleaner error messages.
    for (actual, expected) in actual.iter().zip(expected.iter()) {
        assert_eq!(*actual, Token::new(expected.0, expected.1));
    }
}

#[test]
fn scan_empty() {
    let source = "";
    let mut tokens = tokenize(source);
    assert!(tokens.next().is_none());
}

#[test]
fn single_character() {
    let source = "(),.;{}/-*+";
    let actual = tokenize(source).into_vec();
    let expected = [
        (0, LeftParen),
        (1, RightParen),
        (2, Comma),
        (3, Dot),
        (4, Semicolon),
        (5, LeftBrace),
        (6, RightBrace),
        (7, Slash),
        (8, Minus),
        (9, Star),
        (10, Plus),
    ];
    assert_equality(actual, &expected)
}

#[test]
fn whitespace() {
    let source = " ( ) .\n  *";
    let actual = tokenize(source).into_vec();
    let expected = [(1, LeftParen), (3, RightParen), (5, Dot), (9, Star)];
    assert_equality(actual, &expected)
}

#[test]
fn comparison() {
    let source = "===!!=<>==<=>";
    let actual = tokenize(source).into_vec();
    let expected = [
        (0, EqualEqual),
        (2, Equal),
        (3, Bang),
        (4, BangEqual),
        (6, Less),
        (7, GreaterEqual),
        (9, Equal),
        (10, LessEqual),
        (12, Greater),
    ];
    assert_equality(actual, &expected)
}

#[test]
fn number() {
    let source = "123 (534)";
    let actual = tokenize(source).into_vec();
    let expected = [(0, Number), (4, LeftParen), (5, Number), (8, RightParen)];
    assert_equality(actual, &expected)
}

#[test]
fn terminated_string() {
    let source = " \"());3.=\"! ";
    let actual = tokenize(source).into_vec();
    let expected = [(1, String), (10, Bang)];
    assert_equality(actual, &expected)
}

#[test]
fn unterminated_string() {
    let source = " !\")(;3.=";
    let actual = tokenize(source).into_vec();
    let expected = [(1, Bang), (2, Error)];
    assert_equality(actual, &expected)
}

#[test]
fn unrecognized_character() {
    let source = "\\%";
    let actual = tokenize(source).into_vec();
    let expected = [(0, Error), (1, Error)];
    assert_equality(actual, &expected)
}

#[test]
fn comment() {
    let source = "#abc\n#1%\n32";
    let actual = tokenize(source).into_vec();
    let expected = [(0, Comment), (5, Comment), (9, Number)];
    assert_equality(actual, &expected)
}

#[test]
fn identifier() {
    let source = "these are identifiers";
    let actual = tokenize(source).into_vec();
    let expected = [(0, Identifier), (6, Identifier), (10, Identifier)];
    assert_equality(actual, &expected)
}

#[test]
fn keywords() {
    let source =
        "and or true false if else for while class nil super this var function print return";
    let actual = tokenize(source).into_vec();
    let expected = [
        (0, Keyword(And)),
        (4, Keyword(Or)),
        (7, Keyword(True)),
        (12, Keyword(False)),
        (18, Keyword(If)),
        (21, Keyword(Else)),
        (26, Keyword(For)),
        (30, Keyword(While)),
        (36, Keyword(Class)),
        (42, Keyword(Nil)),
        (46, Keyword(Super)),
        (52, Keyword(This)),
        (57, Keyword(Var)),
        (61, Keyword(Function)),
        (70, Keyword(Print)),
        (76, Keyword(Return)),
    ];
    assert_equality(actual, &expected)
}

#[test]
fn identifier_or_keyword() {
    let source = "fidentifier tidentifier uidentifier";
    let actual = tokenize(source).into_vec();
    let expected = [(0, Identifier), (12, Identifier), (24, Identifier)];
    assert_equality(actual, &expected)
}

#[test]
fn keyword_substrings_and_superstrings() {
    let source = "an fun classy nile";
    let actual = tokenize(source).into_vec();
    let expected = [
        (0, Identifier),
        (3, Identifier),
        (7, Identifier),
        (14, Identifier),
    ];
    assert_equality(actual, &expected)
}
