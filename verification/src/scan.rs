//! The scanner: a forward-only cursor over source bytes that classifies one
//! lexeme per call.
//!
//! The specification side models the whole scan: `token_at` gives the kind
//! and byte length of the lexeme starting at a given offset, and `scan_from`
//! gives the full token sequence a scanner produces from a given cursor.
//! The executable scanner is proved to follow that model exactly.

use crate::token::{keyword_lookup, keyword_seq, Kind, KeywordKind};
pub use crate::token::Token;
use vstd::prelude::*;
use vstd::string::StringSliceAdditionalSpecFns;

verus! {

// Byte values of the characters the scanner treats specially.
pub const LEFT_PAREN: u8 = 40;
pub const RIGHT_PAREN: u8 = 41;
pub const LEFT_BRACE: u8 = 123;
pub const RIGHT_BRACE: u8 = 125;
pub const COMMA: u8 = 44;
pub const DOT: u8 = 46;
pub const SEMICOLON: u8 = 59;
pub const PLUS: u8 = 43;
pub const MINUS: u8 = 45;
pub const STAR: u8 = 42;
pub const SLASH: u8 = 47;
pub const POUND: u8 = 35;
pub const EQUALS: u8 = 61;
pub const GREATER_THAN: u8 = 62;
pub const LESS_THAN: u8 = 60;
pub const BANG: u8 = 33;
pub const QUOTE: u8 = 34;
pub const NEWLINE: u8 = 10;
pub const SPACE: u8 = 32;
pub const TAB: u8 = 9;
pub const CARRIAGE_RETURN: u8 = 13;

/// Whitespace: space, tab, newline, carriage return.
pub open spec fn is_ws(b: u8) -> bool {
    b == SPACE || b == TAB || b == NEWLINE || b == CARRIAGE_RETURN
}

/// An ASCII decimal digit.
pub open spec fn is_digit(b: u8) -> bool {
    48 <= b <= 57
}

/// An ASCII letter.
pub open spec fn is_alpha(b: u8) -> bool {
    (65 <= b <= 90) || (97 <= b <= 122)
}

/// An ASCII letter or digit.
pub open spec fn is_alnum(b: u8) -> bool {
    is_digit(b) || is_alpha(b)
}

/// Length of the run of whitespace bytes starting at `i`.
pub open spec fn ws_run(s: Seq<u8>, i: int) -> nat
    decreases s.len() - i,
{
    if 0 <= i && i < s.len() && is_ws(s[i]) {
        (1 + ws_run(s, i + 1)) as nat
    } else {
        0
    }
}

/// Length of the run of digit bytes starting at `i`.
pub open spec fn digit_run(s: Seq<u8>, i: int) -> nat
    decreases s.len() - i,
{
    if 0 <= i && i < s.len() && is_digit(s[i]) {
        (1 + digit_run(s, i + 1)) as nat
    } else {
        0
    }
}

/// Length of the run of alphanumeric bytes starting at `i`.
pub open spec fn alnum_run(s: Seq<u8>, i: int) -> nat
    decreases s.len() - i,
{
    if 0 <= i && i < s.len() && is_alnum(s[i]) {
        (1 + alnum_run(s, i + 1)) as nat
    } else {
        0
    }
}

/// Number of bytes from `i` up to (excluding) the first `stop` byte, or up to
/// the end of the source if no `stop` byte follows.
pub open spec fn until_run(s: Seq<u8>, i: int, stop: u8) -> nat
    decreases s.len() - i,
{
    if 0 <= i && i < s.len() && s[i] != stop {
        (1 + until_run(s, i + 1, stop)) as nat
    } else {
        0
    }
}

/// The maximal alphanumeric word starting at `j` (whose first byte is a
/// letter): the lexeme of an identifier or keyword token.
pub open spec fn word_at(s: Seq<u8>, j: int) -> Seq<u8> {
    s.subrange(j, j + 1 + alnum_run(s, j + 1))
}

/// Classification of the lexeme starting at offset `j` (which must hold a
/// non-whitespace byte): its kind, and how many bytes it spans.  Every lexeme
/// spans at least one byte.
pub open spec fn token_at(s: Seq<u8>, j: int) -> (Kind, nat) {
    let b = s[j];
    if b == LEFT_PAREN {
        (Kind::LeftParen, 1nat)
    } else if b == RIGHT_PAREN {
        (Kind::RightParen, 1nat)
    } else if b == LEFT_BRACE {
        (Kind::LeftBrace, 1nat)
    } else if b == RIGHT_BRACE {
        (Kind::RightBrace, 1nat)
    } else if b == COMMA {
        (Kind::Comma, 1nat)
    } else if b == DOT {
        (Kind::Dot, 1nat)
    } else if b == SEMICOLON {
        (Kind::Semicolon, 1nat)
    } else if b == PLUS {
        (Kind::Plus, 1nat)
    } else if b == MINUS {
        (Kind::Minus, 1nat)
    } else if b == STAR {
        (Kind::Star, 1nat)
    } else if b == SLASH {
        (Kind::Slash, 1nat)
    } else if b == POUND {
        (Kind::Comment, (1 + until_run(s, j + 1, NEWLINE)) as nat)
    } else if b == EQUALS {
        if j + 1 < s.len() && s[j + 1] == EQUALS {
            (Kind::EqualEqual, 2nat)
        } else {
            (Kind::Equal, 1nat)
        }
    } else if b == GREATER_THAN {
        if j + 1 < s.len() && s[j + 1] == EQUALS {
            (Kind::GreaterEqual, 2nat)
        } else {
            (Kind::Greater, 1nat)
        }
    } else if b == LESS_THAN {
        if j + 1 < s.len() && s[j + 1] == EQUALS {
            (Kind::LessEqual, 2nat)
        } else {
            (Kind::Less, 1nat)
        }
    } else if b == BANG {
        if j + 1 < s.len() && s[j + 1] == EQUALS {
            (Kind::BangEqual, 2nat)
        } else {
            (Kind::Bang, 1nat)
        }
    } else if b == QUOTE {
        let m = until_run(s, j + 1, QUOTE);
        if j + 1 + m < s.len() {
            (Kind::String, (2 + m) as nat)
        } else {
            (Kind::Error, (1 + m) as nat)
        }
    } else if is_digit(b) {
        (Kind::Number, (1 + digit_run(s, j + 1)) as nat)
    } else if is_alpha(b) {
        (
            match keyword_lookup(word_at(s, j)) {
                Some(k) => Kind::Keyword(k),
                None => Kind::Identifier,
            },
            (1 + alnum_run(s, j + 1)) as nat,
        )
    } else {
        (Kind::Error, 1nat)
    }
}

/// The sequence of tokens a scanner produces from cursor `i` to the end of
/// the source: skip whitespace, classify one lexeme, repeat.
pub open spec fn scan_from(s: Seq<u8>, i: int) -> Seq<Token>
    decreases (if i <= s.len() { s.len() - i } else { 0 }),
{
    let j = i + ws_run(s, i);
    if j >= s.len() {
        Seq::empty()
    } else {
        seq![Token { position: j as usize, kind: token_at(s, j).0 }] + scan_from(
            s,
            j + token_at(s, j).1,
        )
    }
}

/// An alphanumeric run reaches at most to the end of the source.
pub proof fn lemma_alnum_run_bound(s: Seq<u8>, i: int)
    requires
        0 <= i <= s.len(),
    ensures
        i + alnum_run(s, i) <= s.len(),
    decreases s.len() - i,
{
    if i < s.len() && is_alnum(s[i]) {
        lemma_alnum_run_bound(s, i + 1);
    }
}

/// A run up to a stop byte reaches at most to the end of the source, and
/// stops exactly at a `stop` byte if one follows.
pub proof fn lemma_until_run_bound(s: Seq<u8>, i: int, stop: u8)
    requires
        0 <= i <= s.len(),
    ensures
        i + until_run(s, i, stop) <= s.len(),
        i + until_run(s, i, stop) < s.len() ==> s[i + until_run(s, i, stop)] == stop,
    decreases s.len() - i,
{
    if i < s.len() && s[i] != stop {
        lemma_until_run_bound(s, i + 1, stop);
    }
}

/// Every lexeme spans at least one byte.
pub proof fn lemma_token_len_pos(s: Seq<u8>, j: int)
    ensures
        token_at(s, j).1 >= 1,
{
}

/// Every keyword is spelled with at least two letters.
pub proof fn lemma_keyword_bytes_alpha(k: KeywordKind)
    ensures
        keyword_seq(k).len() >= 2,
        forall|m: int| 0 <= m < keyword_seq(k).len() ==> is_alpha(#[trigger] keyword_seq(k)[m]),
{
}

/// The shape of the word starting at `j`: it spans the byte at `j` and the
/// alphanumeric run after it, and reads the source bytes one for one.
pub proof fn lemma_word_at_shape(s: Seq<u8>, j: int)
    requires
        0 <= j < s.len(),
    ensures
        word_at(s, j).len() == 1 + alnum_run(s, j + 1),
        j + 1 + alnum_run(s, j + 1) <= s.len(),
        forall|m: int| 0 <= m < word_at(s, j).len() ==> word_at(s, j)[m] == s[j + m],
        word_at(s, j).len() >= 2 ==> is_alnum(s[j + 1]),
{
    lemma_alnum_run_bound(s, j + 1);
}

/// A word that agrees with a keyword on its first byte (and, for the
/// ambiguous first letters `f` and `t`, on its second byte) can spell no
/// other keyword: the lookup either finds exactly that keyword or nothing.
pub proof fn lemma_keyword_candidate(word: Seq<u8>, k: KeywordKind)
    requires
        word.len() >= 1,
        word[0] == keyword_seq(k)[0],
        (k == KeywordKind::False || k == KeywordKind::For || k == KeywordKind::Function
            || k == KeywordKind::This || k == KeywordKind::True) ==> word.len() >= 2 && word[1]
            == keyword_seq(k)[1],
    ensures
        keyword_lookup(word) == (if word == keyword_seq(k) {
            Some(k)
        } else {
            None::<KeywordKind>
        }),
{
}

/// A word whose first byte is `f` but whose second byte continues none of
/// `false`, `for`, `function` spells no keyword.
proof fn lemma_lookup_none_after_f(s: Seq<u8>, j: int)
    requires
        0 <= j < s.len(),
        s[j] == 102,
        j + 1 < s.len() ==> (s[j + 1] != 97 && s[j + 1] != 111 && s[j + 1] != 117),
    ensures
        keyword_lookup(word_at(s, j)) == None::<KeywordKind>,
{
    lemma_word_at_shape(s, j);
}

/// A word whose first byte is `t` but whose second byte continues neither
/// `this` nor `true` spells no keyword.
proof fn lemma_lookup_none_after_t(s: Seq<u8>, j: int)
    requires
        0 <= j < s.len(),
        s[j] == 116,
        j + 1 < s.len() ==> (s[j + 1] != 104 && s[j + 1] != 114),
    ensures
        keyword_lookup(word_at(s, j)) == None::<KeywordKind>,
{
    lemma_word_at_shape(s, j);
}

/// A word whose first byte starts no keyword spells no keyword.
proof fn lemma_lookup_none_other_first(s: Seq<u8>, j: int)
    requires
        0 <= j < s.len(),
        s[j] != 97 && s[j] != 99 && s[j] != 101 && s[j] != 102 && s[j] != 105 && s[j] != 110 && s[j]
            != 111 && s[j] != 112 && s[j] != 114 && s[j] != 115 && s[j] != 116 && s[j] != 118 && s[j]
            != 119,
    ensures
        keyword_lookup(word_at(s, j)) == None::<KeywordKind>,
{
    lemma_word_at_shape(s, j);
}

/// Whether a byte is whitespace.
fn is_ws_byte(b: u8) -> (r: bool)
    ensures
        r == is_ws(b),
{
    b == SPACE || b == TAB || b == NEWLINE || b == CARRIAGE_RETURN
}

/// Whether a byte is an ASCII digit.
fn is_digit_byte(b: u8) -> (r: bool)
    ensures
        r == is_digit(b),
{
    48 <= b && b <= 57
}

/// Whether a byte is an ASCII letter.
fn is_alpha_byte(b: u8) -> (r: bool)
    ensures
        r == is_alpha(b),
{
    (65 <= b && b <= 90) || (97 <= b && b <= 122)
}

/// Whether a byte is an ASCII letter or digit.
fn is_alnum_byte(b: u8) -> (r: bool)
    ensures
        r == is_alnum(b),
{
    is_digit_byte(b) || is_alpha_byte(b)
}

/// The scanner's cursor over a borrowed source buffer: the bytes being
/// scanned and the index of the next byte to examine.  One value of this type
/// drives one forward-only pass; a new pass takes a new cursor.
pub struct Tokens<'source> {
    source: &'source [u8],
    pos: usize,
}

impl<'source> Tokens<'source> {
    /// The source bytes being scanned.
    pub closed spec fn src(self) -> Seq<u8> {
        self.source@
    }

    /// The cursor: the index of the next byte to examine.
    pub closed spec fn cursor(self) -> int {
        self.pos as int
    }

    /// The cursor never lies beyond the end of the source.
    pub open spec fn wf(self) -> bool {
        0 <= self.cursor() <= self.src().len()
    }

    /// If the next byte equals `expected`, consume it.
    fn next_matches(&mut self, expected: u8) -> (r: bool)
        requires
            old(self).wf(),
        ensures
            final(self).wf(),
            final(self).src() == old(self).src(),
            r == (old(self).cursor() < old(self).src().len() && old(self).src()[old(
                self,
            ).cursor()] == expected),
            final(self).cursor() == old(self).cursor() + (if r {
                1int
            } else {
                0int
            }),
    {
        if self.pos < self.source.len() && self.source[self.pos] == expected {
            self.pos = self.pos + 1;
            true
        } else {
            false
        }
    }

    /// Consume bytes up to, but not including, the next `expected` byte (or
    /// up to the end of the source if none follows).
    #[verifier::loop_isolation(false)]
    fn next_until_eq(&mut self, expected: u8)
        requires
            old(self).wf(),
        ensures
            final(self).wf(),
            final(self).src() == old(self).src(),
            final(self).cursor() == old(self).cursor() + until_run(
                old(self).src(),
                old(self).cursor(),
                expected,
            ),
    {
        while self.pos < self.source.len() && self.source[self.pos] != expected
            invariant
                self.wf(),
                self.src() == old(self).src(),
                old(self).cursor() + until_run(old(self).src(), old(self).cursor(), expected)
                    == self.cursor() + until_run(self.src(), self.cursor(), expected),
            decreases self.src().len() - self.cursor(),
        {
            self.pos = self.pos + 1;
        }
    }

    /// Consume the rest of a comment: everything up to the next newline.
    fn comment(&mut self) -> (k: Kind)
        requires
            old(self).wf(),
        ensures
            final(self).wf(),
            final(self).src() == old(self).src(),
            final(self).cursor() == old(self).cursor() + until_run(
                old(self).src(),
                old(self).cursor(),
                NEWLINE,
            ),
            k == Kind::Comment,
    {
        self.next_until_eq(NEWLINE);
        Kind::Comment
    }

    /// Consume the rest of a number literal: the maximal run of digits.
    #[verifier::loop_isolation(false)]
    fn number(&mut self) -> (k: Kind)
        requires
            old(self).wf(),
        ensures
            final(self).wf(),
            final(self).src() == old(self).src(),
            final(self).cursor() == old(self).cursor() + digit_run(
                old(self).src(),
                old(self).cursor(),
            ),
            k == Kind::Number,
    {
        while self.pos < self.source.len() && is_digit_byte(self.source[self.pos])
            invariant
                self.wf(),
                self.src() == old(self).src(),
                old(self).cursor() + digit_run(old(self).src(), old(self).cursor())
                    == self.cursor() + digit_run(self.src(), self.cursor()),
            decreases self.src().len() - self.cursor(),
        {
            self.pos = self.pos + 1;
        }
        Kind::Number
    }

    /// Consume the rest of an identifier: the maximal run of alphanumerics.
    #[verifier::loop_isolation(false)]
    fn identifier(&mut self) -> (k: Kind)
        requires
            old(self).wf(),
        ensures
            final(self).wf(),
            final(self).src() == old(self).src(),
            final(self).cursor() == old(self).cursor() + alnum_run(
                old(self).src(),
                old(self).cursor(),
            ),
            k == Kind::Identifier,
    {
        while self.pos < self.source.len() && is_alnum_byte(self.source[self.pos])
            invariant
                self.wf(),
                self.src() == old(self).src(),
                old(self).cursor() + alnum_run(old(self).src(), old(self).cursor())
                    == self.cursor() + alnum_run(self.src(), self.cursor()),
            decreases self.src().len() - self.cursor(),
        {
            self.pos = self.pos + 1;
        }
        Kind::Identifier
    }

    /// Consume the rest of a string literal, which began with the quote just
    /// before the cursor: everything up to the closing quote.  If the source
    /// ends first, the string is unterminated and the token is an error.
    fn string(&mut self) -> (k: Kind)
        requires
            old(self).wf(),
        ensures
            final(self).wf(),
            final(self).src() == old(self).src(),
            ({
                let s = old(self).src();
                let c = old(self).cursor();
                let m = until_run(s, c, QUOTE);
                if c + m < s.len() {
                    k == Kind::String && final(self).cursor() == c + m + 1
                } else {
                    k == Kind::Error && final(self).cursor() == c + m
                }
            }),
    {
        proof {
            lemma_until_run_bound(self.src(), self.cursor(), QUOTE);
        }
        self.next_until_eq(QUOTE);
        if self.pos < self.source.len() {
            self.pos = self.pos + 1;
            Kind::String
        } else {
            Kind::Error
        }
    }

    /// Decide between a keyword and an identifier, given the candidate
    /// keyword selected from the word's first bytes.  The cursor stands just
    /// after the word's first byte; the word's remaining bytes are consumed
    /// either way.  The candidate is confirmed only when the word matches it
    /// exactly and the run ends there: a keyword that is a strict prefix of a
    /// longer word confirms nothing.
    #[verifier::loop_isolation(false)]
    fn try_keyword(&mut self, kind: KeywordKind) -> (k: Kind)
        requires
            old(self).wf(),
            old(self).cursor() >= 1,
            old(self).src()[old(self).cursor() - 1] == keyword_seq(kind)[0],
        ensures
            final(self).wf(),
            final(self).src() == old(self).src(),
            final(self).cursor() == old(self).cursor() + alnum_run(
                old(self).src(),
                old(self).cursor(),
            ),
            k == (if word_at(old(self).src(), old(self).cursor() - 1) == keyword_seq(kind) {
                Kind::Keyword(kind)
            } else {
                Kind::Identifier
            }),
    {
        let ghost s = self.src();
        let ghost j = self.cursor() - 1;
        proof {
            lemma_keyword_bytes_alpha(kind);
            lemma_alnum_run_bound(s, j + 1);
        }
        let text = kind.text();
        let mut idx: usize = 1;
        let mut matched = true;
        while matched && idx < text.len()
            invariant
                self.wf(),
                self.src() == s,
                1 <= idx <= text.len(),
                alnum_run(s, j + 1) == (self.cursor() - (j + 1)) + alnum_run(s, self.cursor()),
                j + 1 <= self.cursor(),
                matched ==> self.cursor() == j + idx,
                matched ==> forall|m: int|
                    1 <= m < idx ==> s[j + m] == keyword_seq(kind)[m],
                !matched ==> self.cursor() == j + idx - 1,
                !matched ==> (self.cursor() >= s.len() || s[self.cursor()] != keyword_seq(
                    kind,
                )[idx - 1]),
            decreases text.len() - idx,
        {
            matched = self.next_matches(text[idx]);
            idx = idx + 1;
        }
        let boundary = if self.pos >= self.source.len() {
            true
        } else {
            !is_alnum_byte(self.source[self.pos])
        };
        if matched && boundary {
            proof {
                assert(alnum_run(s, self.cursor()) == 0);
                assert(word_at(s, j) =~= keyword_seq(kind));
            }
            Kind::Keyword(kind)
        } else {
            proof {
                if word_at(s, j) == keyword_seq(kind) {
                    assert(word_at(s, j).len() == keyword_seq(kind).len());
                    if matched {
                        // the word runs on past the keyword
                        assert(alnum_run(s, self.cursor()) >= 1);
                    } else {
                        // the word differs from the keyword where the match
                        // stopped
                        assert(word_at(s, j)[idx - 1] == s[j + idx - 1]);
                    }
                    assert(false);
                }
            }
            self.identifier()
        }
    }

    /// Classify the identifier-or-keyword word whose first byte, `current`,
    /// the scanner has just consumed: select the candidate keyword the word
    /// could spell from its first byte (peeking one byte further for the
    /// ambiguous first letters `f` and `t`), then confirm it or fall back to
    /// an identifier.
    fn identifier_or_keyword(&mut self, current: u8) -> (k: Kind)
        requires
            old(self).wf(),
            old(self).cursor() >= 1,
            old(self).src()[old(self).cursor() - 1] == current,
            is_alpha(current),
        ensures
            final(self).wf(),
            final(self).src() == old(self).src(),
            final(self).cursor() == old(self).cursor() + alnum_run(
                old(self).src(),
                old(self).cursor(),
            ),
            k == (match keyword_lookup(word_at(old(self).src(), old(self).cursor() - 1)) {
                Some(kw) => Kind::Keyword(kw),
                None => Kind::Identifier,
            }),
    {
        let ghost s = self.src();
        let ghost j = self.cursor() - 1;
        proof {
            lemma_word_at_shape(s, j);
        }
        let candidate: KeywordKind;
        if current == 97 {  // a
            candidate = KeywordKind::And;
        } else if current == 99 {  // c
            candidate = KeywordKind::Class;
        } else if current == 101 {  // e
            candidate = KeywordKind::Else;
        } else if current == 102 {  // f: false, for or function
            if self.pos < self.source.len() {
                let peeked = self.source[self.pos];
                if peeked == 97 {  // a
                    candidate = KeywordKind::False;
                } else if peeked == 111 {  // o
                    candidate = KeywordKind::For;
                } else if peeked == 117 {  // u
                    candidate = KeywordKind::Function;
                } else {
                    proof {
                        lemma_lookup_none_after_f(s, j);
                    }
                    return self.identifier();
                }
            } else {
                proof {
                    lemma_lookup_none_after_f(s, j);
                }
                return self.identifier();
            }
        } else if current == 105 {  // i
            candidate = KeywordKind::If;
        } else if current == 110 {  // n
            candidate = KeywordKind::Nil;
        } else if current == 111 {  // o
            candidate = KeywordKind::Or;
        } else if current == 112 {  // p
            candidate = KeywordKind::Print;
        } else if current == 114 {  // r
            candidate = KeywordKind::Return;
        } else if current == 115 {  // s
            candidate = KeywordKind::Super;
        } else if current == 116 {  // t: this or true
            if self.pos < self.source.len() {
                let peeked = self.source[self.pos];
                if peeked == 104 {  // h
                    candidate = KeywordKind::This;
                } else if peeked == 114 {  // r
                    candidate = KeywordKind::True;
                } else {
                    proof {
                        lemma_lookup_none_after_t(s, j);
                    }
                    return self.identifier();
                }
            } else {
                proof {
                    lemma_lookup_none_after_t(s, j);
                }
                return self.identifier();
            }
        } else if current == 118 {  // v
            candidate = KeywordKind::Var;
        } else if current == 119 {  // w
            candidate = KeywordKind::While;
        } else {
            proof {
                lemma_lookup_none_other_first(s, j);
            }
            return self.identifier();
        }
        let k = self.try_keyword(candidate);
        proof {
            lemma_keyword_candidate(word_at(s, j), candidate);
        }
        k
    }

    /// Classify the token whose first byte, `next`, the scanner has just
    /// consumed, consuming the rest of its lexeme.
    fn scan_token(&mut self, next: u8) -> (k: Kind)
        requires
            old(self).wf(),
            old(self).cursor() >= 1,
            old(self).src()[old(self).cursor() - 1] == next,
        ensures
            final(self).wf(),
            final(self).src() == old(self).src(),
            k == token_at(old(self).src(), old(self).cursor() - 1).0,
            final(self).cursor() == old(self).cursor() - 1 + token_at(
                old(self).src(),
                old(self).cursor() - 1,
            ).1,
    {
        if next == LEFT_PAREN {
            Kind::LeftParen
        } else if next == RIGHT_PAREN {
            Kind::RightParen
        } else if next == LEFT_BRACE {
            Kind::LeftBrace
        } else if next == RIGHT_BRACE {
            Kind::RightBrace
        } else if next == COMMA {
            Kind::Comma
        } else if next == DOT {
            Kind::Dot
        } else if next == SEMICOLON {
            Kind::Semicolon
        } else if next == PLUS {
            Kind::Plus
        } else if next == MINUS {
            Kind::Minus
        } else if next == STAR {
            Kind::Star
        } else if next == SLASH {
            Kind::Slash
        } else if next == POUND {
            self.comment()
        } else if next == EQUALS {
            if self.next_matches(EQUALS) {
                Kind::EqualEqual
            } else {
                Kind::Equal
            }
        } else if next == GREATER_THAN {
            if self.next_matches(EQUALS) {
                Kind::GreaterEqual
            } else {
                Kind::Greater
            }
        } else if next == LESS_THAN {
            if self.next_matches(EQUALS) {
                Kind::LessEqual
            } else {
                Kind::Less
            }
        } else if next == BANG {
            if self.next_matches(EQUALS) {
                Kind::BangEqual
            } else {
                Kind::Bang
            }
        } else if next == QUOTE {
            self.string()
        } else if is_digit_byte(next) {
            self.number()
        } else if is_alpha_byte(next) {
            self.identifier_or_keyword(next)
        } else {
            Kind::Error
        }
    }

    /// Produce the next token, or nothing once the source is exhausted:
    /// skip whitespace, then classify one lexeme, recording the byte offset
    /// of its first character.  After exhaustion every further call keeps
    /// producing nothing.
    #[verifier::loop_isolation(false)]
    pub fn next(&mut self) -> (r: Option<Token>)
        requires
            old(self).wf(),
        ensures
            final(self).wf(),
            final(self).src() == old(self).src(),
            ({
                let s = old(self).src();
                let j = old(self).cursor() + ws_run(s, old(self).cursor());
                if j >= s.len() {
                    r is None && final(self).cursor() == s.len()
                } else {
                    r == Some(Token { position: j as usize, kind: token_at(s, j).0 })
                        && final(self).cursor() == j + token_at(s, j).1
                }
            }),
    {
        let ghost s = self.src();
        let ghost i0 = self.cursor();
        while self.pos < self.source.len() && is_ws_byte(self.source[self.pos])
            invariant
                self.wf(),
                self.src() == s,
                i0 <= self.cursor(),
                i0 + ws_run(s, i0) == self.cursor() + ws_run(s, self.cursor()),
            decreases s.len() - self.cursor(),
        {
            self.pos = self.pos + 1;
        }
        if self.pos >= self.source.len() {
            None
        } else {
            let start = self.pos;
            let c = self.source[self.pos];
            self.pos = self.pos + 1;
            let kind = self.scan_token(c);
            Some(Token::new(start, kind))
        }
    }

    /// Scan all remaining tokens into a vector, consuming the cursor.
    #[verifier::loop_isolation(false)]
    pub fn into_vec(self) -> (r: Vec<Token>)
        requires
            self.wf(),
        ensures
            r@ == scan_from(self.src(), self.cursor()),
    {
        let ghost s = self.src();
        let ghost i0 = self.cursor();
        let mut scanner = self;
        let mut out: Vec<Token> = Vec::new();
        let mut done = false;
        while !done
            invariant
                scanner.wf(),
                scanner.src() == s,
                out@ + scan_from(s, scanner.cursor()) == scan_from(s, i0),
                done ==> scan_from(s, scanner.cursor()) == Seq::<Token>::empty(),
            decreases s.len() - scanner.cursor() + (if done {
                0int
            } else {
                1int
            }),
        {
            let ghost c_before = scanner.cursor();
            match scanner.next() {
                Some(token) => {
                    proof {
                        lemma_token_len_pos(s, c_before + ws_run(s, c_before));
                        assert(out@.push(token) + scan_from(s, scanner.cursor()) =~= out@
                            + scan_from(s, c_before));
                    }
                    out.push(token);
                },
                None => {
                    done = true;
                },
            }
        }
        proof {
            assert(out@ + Seq::<Token>::empty() =~= out@);
        }
        out
    }
}

/// Begin a scan of `source`: a fresh cursor over its bytes, standing at the
/// start.  Successive calls of [`Tokens::next`] then yield the token
/// sequence `scan_from(source, 0)`.
pub fn tokenize<'source>(source: &'source str) -> (t: Tokens<'source>)
    ensures
        t.wf(),
        t.src() == source.spec_bytes(),
        t.cursor() == 0,
{
    Tokens { source: source.as_bytes(), pos: 0 }
}

/// Every byte a whitespace run passes over is whitespace.
pub proof fn lemma_ws_run_all_ws(s: Seq<u8>, i: int, m: int)
    requires
        0 <= i <= m < i + ws_run(s, i),
    ensures
        is_ws(s[m]),
    decreases m - i,
{
    if m > i {
        lemma_ws_run_all_ws(s, i + 1, m);
    }
}

/// Every token of a scan from cursor `i` stands at an offset between `i` and
/// the end of the source.
pub proof fn lemma_scan_positions_low(s: Seq<u8>, i: int)
    requires
        0 <= i,
        s.len() <= usize::MAX,
    ensures
        forall|a: int|
            0 <= a < scan_from(s, i).len() ==> i <= (#[trigger] scan_from(s, i)[a]).position
                < s.len(),
    decreases (if i <= s.len() {
        s.len() - i
    } else {
        0
    }),
{
    let j = i + ws_run(s, i);
    if j < s.len() {
        lemma_token_len_pos(s, j);
        lemma_scan_positions_low(s, j + token_at(s, j).1);
    }
}

/// Token positions are strictly increasing along any scan.
pub proof fn lemma_positions_strictly_increasing(s: Seq<u8>, i: int, a: int, b: int)
    requires
        0 <= i,
        s.len() <= usize::MAX,
        0 <= a < b < scan_from(s, i).len(),
    ensures
        scan_from(s, i)[a].position < scan_from(s, i)[b].position,
    decreases (if i <= s.len() {
        s.len() - i
    } else {
        0
    }),
{
    let j = i + ws_run(s, i);
    lemma_token_len_pos(s, j);
    let next = j + token_at(s, j).1;
    lemma_scan_positions_low(s, next);
    if a > 0 {
        lemma_positions_strictly_increasing(s, next, a - 1, b - 1);
    }
}

/// The span of one token of a scan: whether the token at index `a` of the
/// token sequence covers the source offset `c`.
pub open spec fn covers(s: Seq<u8>, toks: Seq<Token>, a: int, c: int) -> bool {
    &&& 0 <= a < toks.len()
    &&& toks[a].position <= c < toks[a].position + token_at(s, toks[a].position as int).1
}

/// Along any scan, a token's span ends at or before the next token begins:
/// spans never overlap.
pub proof fn lemma_spans_ordered(s: Seq<u8>, i: int, a: int, b: int)
    requires
        0 <= i,
        s.len() <= usize::MAX,
        0 <= a < b < scan_from(s, i).len(),
    ensures
        scan_from(s, i)[a].position + token_at(s, scan_from(s, i)[a].position as int).1
            <= scan_from(s, i)[b].position,
    decreases (if i <= s.len() {
        s.len() - i
    } else {
        0
    }),
{
    let j = i + ws_run(s, i);
    lemma_token_len_pos(s, j);
    let next = j + token_at(s, j).1;
    lemma_scan_positions_low(s, next);
    if a > 0 {
        lemma_spans_ordered(s, next, a - 1, b - 1);
    }
}

/// Every non-whitespace byte offset of the source from cursor `i` on lies in
/// the span of some token of the scan.
pub proof fn lemma_coverage_exists(s: Seq<u8>, i: int, c: int)
    requires
        0 <= i <= c < s.len(),
        !is_ws(s[c]),
        s.len() <= usize::MAX,
    ensures
        exists|a: int| covers(s, scan_from(s, i), a, c),
    decreases (if i <= s.len() {
        s.len() - i
    } else {
        0
    }),
{
    let j = i + ws_run(s, i);
    if c < j {
        lemma_ws_run_all_ws(s, i, c);
    } else {
        lemma_token_len_pos(s, j);
        let next = j + token_at(s, j).1;
        if c < next {
            assert(covers(s, scan_from(s, i), 0, c));
        } else {
            lemma_coverage_exists(s, next, c);
            let a = choose|a: int| covers(s, scan_from(s, next), a, c);
            assert(scan_from(s, i)[a + 1] == scan_from(s, next)[a]);
            assert(covers(s, scan_from(s, i), a + 1, c));
        }
    }
}

/// Every non-whitespace byte of the source lies within the span of exactly
/// one token of the scan: no byte is covered twice, none is dropped.  (The
/// content of an unterminated string or of a comment lies inside its single
/// token's span like any other byte.)
pub proof fn lemma_coverage(s: Seq<u8>, c: int)
    requires
        0 <= c < s.len(),
        !is_ws(s[c]),
        s.len() <= usize::MAX,
    ensures
        exists|a: int| covers(s, scan_from(s, 0), a, c),
        forall|a: int, b: int|
            covers(s, scan_from(s, 0), a, c) && covers(s, scan_from(s, 0), b, c) ==> a == b,
{
    lemma_coverage_exists(s, 0, c);
    assert forall|a: int, b: int|
        covers(s, scan_from(s, 0), a, c) && covers(s, scan_from(s, 0), b, c) implies a == b by {
        if a < b {
            lemma_spans_ordered(s, 0, a, b);
        } else if b < a {
            lemma_spans_ordered(s, 0, b, a);
        }
    }
}

/// Scanning the same source twice, each time with a fresh cursor, yields the
/// same token sequence: the scan is a function of the source bytes alone,
/// with no hidden state.
pub proof fn lemma_scan_deterministic(first: Seq<u8>, second: Seq<u8>)
    requires
        first == second,
    ensures
        scan_from(first, 0) == scan_from(second, 0),
{
}

/// A word that merely begins with a keyword — the keyword is a strict
/// prefix of it, with more alphanumeric bytes following — is classified as
/// one identifier token spanning the whole word: never as that keyword, and
/// never split into a keyword and a remainder.
pub proof fn lemma_keyword_prefix_identifier(s: Seq<u8>, j: int, k: KeywordKind)
    requires
        0 <= j < s.len(),
        is_alpha(s[j]),
        keyword_seq(k).is_prefix_of(word_at(s, j)),
        word_at(s, j).len() > keyword_seq(k).len(),
    ensures
        token_at(s, j).0 == Kind::Identifier,
        token_at(s, j).1 == word_at(s, j).len(),
{
    lemma_word_at_shape(s, j);
    lemma_keyword_bytes_alpha(k);
    let w = word_at(s, j);
    assert(keyword_seq(k) =~= w.subrange(0, keyword_seq(k).len() as int));
    assert(w[0] == keyword_seq(k)[0]);
    assert(w[1] == keyword_seq(k)[1]);
    lemma_keyword_candidate(w, k);
}

} // verus!
