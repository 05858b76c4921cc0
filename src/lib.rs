//! Front end for a small expression language whose keywords are English phrases.
//!
//! Source text goes through three stages, each a pure function proved against a
//! mathematical model:
//! - [`lexer::tokenize`] turns characters into tokens, with `Indent`/`Dedent` tokens
//!   for changes of indentation and a final `EOF` token;
//! - [`first_pass::run`] takes user operator definitions out of the token stream and
//!   records their precedences;
//! - [`parser::Parser`] is a Pratt parser over the remaining tokens that builds the
//!   syntax tree, or reports the first token it cannot accept.

pub mod first_pass;
pub mod lexer;
pub mod parser;
