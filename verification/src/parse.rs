//! The parser stub that consumes the scanner's tokens.
//!
//! No instruction has a real form yet, so the parser recognises only a token
//! stream that yields no tokens: the preconditions here admit exactly the
//! empty program, and no instruction is ever produced.

use crate::scan::{scan_from, Tokens};
use crate::token::Token;
use vstd::prelude::*;

verus! {

/// The parser's output vocabulary.  Only a placeholder no-operation exists
/// so far, and the stub parser never produces even that: the enum is here so
/// the parser's shape can stand before any instruction has a real form.
#[derive(Clone, Copy, Debug, PartialEq, Eq, Structural)]
pub enum Instruction {
    Nop,
}

/// A cursor that turns a token stream into batches of instructions.  A stub:
/// it recognises only the exhausted stream.
pub struct Instructions<'source> {
    tokens: Tokens<'source>,
}

impl<'source> Instructions<'source> {
    /// The token stream still to be parsed.
    pub closed spec fn remaining(self) -> Seq<Token> {
        scan_from(self.tokens.src(), self.tokens.cursor())
    }

    /// Whether the underlying scanner is in a usable state.
    pub closed spec fn wf(self) -> bool {
        self.tokens.wf()
    }

    /// Wrap a token stream for parsing.
    pub fn new(tokens: Tokens<'source>) -> (r: Instructions<'source>)
        ensures
            r.wf() == tokens.wf(),
            r.remaining() == scan_from(tokens.src(), tokens.cursor()),
    {
        Instructions { tokens }
    }

    /// Produce the next batch of instructions, or nothing once the token
    /// stream is exhausted.  The stub parses no token, so it only accepts a
    /// stream with none left.
    pub fn next(&mut self) -> (r: Option<Vec<Instruction>>)
        requires
            old(self).wf(),
            old(self).remaining() == Seq::<Token>::empty(),
        ensures
            final(self).wf(),
            final(self).remaining() == Seq::<Token>::empty(),
            r is None,
    {
        match self.tokens.next() {
            None => None,
            Some(_) => None,
        }
    }
}

/// Parse a token stream into instructions.  The stub accepts only the empty
/// program, and produces no instruction from it.
pub fn parse<'source>(tokens: Tokens<'source>) -> (r: Vec<Instruction>)
    requires
        tokens.wf(),
        scan_from(tokens.src(), tokens.cursor()) == Seq::<Token>::empty(),
    ensures
        r@ == Seq::<Instruction>::empty(),
{
    let mut instructions = Instructions::new(tokens);
    let _first = instructions.next();
    let r: Vec<Instruction> = Vec::new();
    proof {
        assert(r@ =~= Seq::<Instruction>::empty());
    }
    r
}

} // verus!
