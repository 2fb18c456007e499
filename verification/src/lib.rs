//! A scanner for a small C-like scripting language.
//!
//! Source text is classified byte by byte into a sequence of tokens:
//! punctuation, comparison operators (with one-character lookahead for the
//! doubled forms), number literals, string literals, identifiers, keywords,
//! comments, and per-character error tokens.  The scanner is a forward-only
//! cursor over the source; each call for the next token skips whitespace,
//! classifies the next lexeme, and records the byte offset where it began.
//!
//! Classification is byte-based: letters, digits and whitespace are the
//! ASCII ones, and any byte outside the recognised set yields one error
//! token.  The comment dialect is `#`: a comment runs from a `#` to the end
//! of the line, while `/` is always the slash token.

pub mod parse;
pub mod scan;
pub mod token;
