//! Front end of a small language of function calls: a tokenizer that turns
//! source text into tokens with exact source spans, and a recursive-descent
//! parser that builds the statement tree from them.
//!
//! ```text
//! print("hi" 5 x);
//! a(b(1));
//! ```
//!
//! [`tokenizer::Tokenizer`] reads the text, [`ast::Parser`] the tokens. What
//! each of them returns is stated over mathematical models: [`scan`] says
//! which tokens a text has and where they lie, [`grammar`] which program a
//! sequence of tokens writes.

pub mod ast;
pub mod chars;
pub mod grammar;
pub mod integer;
pub mod scan;
pub mod tokenizer;
