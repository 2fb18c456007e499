//! The token data model: the closed vocabulary of lexical categories and the
//! token value itself, a classification paired with the byte offset of the
//! lexeme's first character.

use vstd::prelude::*;

verus! {

/// The closed set of language keywords.
#[derive(Clone, Copy, Debug, PartialEq, Eq, Structural)]
pub enum KeywordKind {
    // Boolean logic-related keywords
    And,
    Or,
    True,
    False,
    If,
    Else,
    For,
    While,
    // Object-related keywords
    Class,
    Nil,
    Super,
    This,
    Var,
    // Function-related keywords
    Function,
    Print,
    Return,
}

/// A token's classification.
#[derive(Clone, Copy, Debug, PartialEq, Eq, Structural)]
pub enum Kind {
    // Single-character tokens
    LeftParen,
    RightParen,
    LeftBrace,
    RightBrace,
    Comma,
    Dot,
    Semicolon,
    Minus,
    Plus,
    Slash,
    Star,
    // Comparison operators
    EqualEqual,
    Equal,
    GreaterEqual,
    Greater,
    LessEqual,
    Less,
    BangEqual,
    Bang,
    // Literals
    Number,
    String,
    Identifier,
    Keyword(KeywordKind),
    Comment,
    Error,
}

/// One classified lexical unit: its kind and the byte offset of its first
/// character in the source buffer that was being scanned when it was produced.
#[derive(Clone, Copy, Debug, PartialEq, Eq, Structural)]
pub struct Token {
    pub position: usize,
    pub kind: Kind,
}

impl Token {
    pub fn new(position: usize, kind: Kind) -> (t: Token)
        ensures
            t.position == position,
            t.kind == kind,
    {
        Token { position, kind }
    }
}

/// The spelling of a keyword, as the sequence of its bytes.
pub open spec fn keyword_seq(k: KeywordKind) -> Seq<u8> {
    match k {
        KeywordKind::And => seq![97u8, 110u8, 100u8],
        KeywordKind::Or => seq![111u8, 114u8],
        KeywordKind::True => seq![116u8, 114u8, 117u8, 101u8],
        KeywordKind::False => seq![102u8, 97u8, 108u8, 115u8, 101u8],
        KeywordKind::If => seq![105u8, 102u8],
        KeywordKind::Else => seq![101u8, 108u8, 115u8, 101u8],
        KeywordKind::For => seq![102u8, 111u8, 114u8],
        KeywordKind::While => seq![119u8, 104u8, 105u8, 108u8, 101u8],
        KeywordKind::Class => seq![99u8, 108u8, 97u8, 115u8, 115u8],
        KeywordKind::Nil => seq![110u8, 105u8, 108u8],
        KeywordKind::Super => seq![115u8, 117u8, 112u8, 101u8, 114u8],
        KeywordKind::This => seq![116u8, 104u8, 105u8, 115u8],
        KeywordKind::Var => seq![118u8, 97u8, 114u8],
        KeywordKind::Function => seq![102u8, 117u8, 110u8, 99u8, 116u8, 105u8, 111u8, 110u8],
        KeywordKind::Print => seq![112u8, 114u8, 105u8, 110u8, 116u8],
        KeywordKind::Return => seq![114u8, 101u8, 116u8, 117u8, 114u8, 110u8],
    }
}

/// The keyword a word spells, if it spells one exactly.
pub open spec fn keyword_lookup(word: Seq<u8>) -> Option<KeywordKind> {
    if word == keyword_seq(KeywordKind::And) {
        Some(KeywordKind::And)
    } else if word == keyword_seq(KeywordKind::Or) {
        Some(KeywordKind::Or)
    } else if word == keyword_seq(KeywordKind::True) {
        Some(KeywordKind::True)
    } else if word == keyword_seq(KeywordKind::False) {
        Some(KeywordKind::False)
    } else if word == keyword_seq(KeywordKind::If) {
        Some(KeywordKind::If)
    } else if word == keyword_seq(KeywordKind::Else) {
        Some(KeywordKind::Else)
    } else if word == keyword_seq(KeywordKind::For) {
        Some(KeywordKind::For)
    } else if word == keyword_seq(KeywordKind::While) {
        Some(KeywordKind::While)
    } else if word == keyword_seq(KeywordKind::Class) {
        Some(KeywordKind::Class)
    } else if word == keyword_seq(KeywordKind::Nil) {
        Some(KeywordKind::Nil)
    } else if word == keyword_seq(KeywordKind::Super) {
        Some(KeywordKind::Super)
    } else if word == keyword_seq(KeywordKind::This) {
        Some(KeywordKind::This)
    } else if word == keyword_seq(KeywordKind::Var) {
        Some(KeywordKind::Var)
    } else if word == keyword_seq(KeywordKind::Function) {
        Some(KeywordKind::Function)
    } else if word == keyword_seq(KeywordKind::Print) {
        Some(KeywordKind::Print)
    } else if word == keyword_seq(KeywordKind::Return) {
        Some(KeywordKind::Return)
    } else {
        None
    }
}

impl KeywordKind {
    /// The keyword's spelling, as a byte vector.
    pub fn text(self) -> (r: Vec<u8>)
        ensures
            r@ == keyword_seq(self),
    {
        let r: Vec<u8> = match self {
            KeywordKind::And => vec![97u8, 110u8, 100u8],
            KeywordKind::Or => vec![111u8, 114u8],
            KeywordKind::True => vec![116u8, 114u8, 117u8, 101u8],
            KeywordKind::False => vec![102u8, 97u8, 108u8, 115u8, 101u8],
            KeywordKind::If => vec![105u8, 102u8],
            KeywordKind::Else => vec![101u8, 108u8, 115u8, 101u8],
            KeywordKind::For => vec![102u8, 111u8, 114u8],
            KeywordKind::While => vec![119u8, 104u8, 105u8, 108u8, 101u8],
            KeywordKind::Class => vec![99u8, 108u8, 97u8, 115u8, 115u8],
            KeywordKind::Nil => vec![110u8, 105u8, 108u8],
            KeywordKind::Super => vec![115u8, 117u8, 112u8, 101u8, 114u8],
            KeywordKind::This => vec![116u8, 104u8, 105u8, 115u8],
            KeywordKind::Var => vec![118u8, 97u8, 114u8],
            KeywordKind::Function => vec![102u8, 117u8, 110u8, 99u8, 116u8, 105u8, 111u8, 110u8],
            KeywordKind::Print => vec![112u8, 114u8, 105u8, 110u8, 116u8],
            KeywordKind::Return => vec![114u8, 101u8, 116u8, 117u8, 114u8, 110u8],
        };
        proof {
            assert(r@ =~= keyword_seq(self));
        }
        r
    }
}

} // verus!
