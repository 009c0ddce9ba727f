use vstd::prelude::*;

verus! {

/// The closed set of token kinds this lexer recognizes.
#[derive(Debug, Clone, Copy, PartialEq, Eq, Structural)]
pub enum TokenKind {
    /// The reserved word introducing a named block.
    Task,
    /// An identifier-shaped run that is not a reserved word.
    Ident,
    /// `{`
    LeftBrace,
    /// `}`
    RightBrace,
}

/// One lexical unit: its kind, the exact slice of the source that produced
/// it, and the byte offset of that slice's first byte within the whole input.
#[derive(Debug, Clone, Copy, PartialEq)]
pub struct Token<'a> {
    /// The literal text matched for this token, borrowed from the input.
    pub origin: &'a str,
    /// Byte offset (not character index) of the token's first byte.
    pub offset: usize,
    /// Classification of the token.
    pub kind: TokenKind,
}

} // verus!
