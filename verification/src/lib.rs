//! A lexical analyzer for a small block-structured language.
//!
//! The language's only constructs at this stage are the reserved word that
//! introduces a named block, identifiers, and brace delimiters.  [`Lexer`]
//! converts raw source text into a sequence of [`Token`]s, each tagged with
//! its kind and its byte offset in the original text, and reports malformed
//! input as a [`SingleTokenError`] carrying an exact byte span.

pub mod error;
pub mod lexer;
pub mod scan;
pub mod text;
pub mod token;

pub use error::ByteSpan;
pub use error::SingleTokenError;
pub use lexer::Lexer;
pub use scan::collect_tokens;
pub use token::Token;
pub use token::TokenKind;
