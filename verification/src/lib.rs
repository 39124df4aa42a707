//! A front end for a small grammar notation.
//!
//! A grammar is a list of productions, `name : expression ;`. An expression
//! is a list of alternatives separated by `|`; an alternative is a list of
//! items separated by `,`; an item is an identifier or a quoted literal.
//!
//! ```text
//! expr : term , '+' , expr | term ;
//! term : "(" , expr , ")" | num ;
//! ```
//!
//! [`tokenizer::tokenize`] turns such a text into tokens and a table of the
//! identifiers that it interned, and [`parser::parse`] turns the tokens into
//! a syntax tree. Both are verified with Verus against definitions that
//! say, without any scanner or parser state, which tokens a text has
//! ([`lexemes`], [`interning`]) and which tree a token sequence is
//! ([`grammar`]). [`laws`] holds what follows from these definitions.

pub mod chars;
pub mod grammar;
pub mod interning;
pub mod laws;
pub mod lexemes;
pub mod parser;
pub mod runs;
pub mod tokenizer;
