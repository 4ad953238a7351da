//! Front end of a small imperative language: a tokenizer that turns source
//! text into a flat token sequence, a structural parser that turns that
//! sequence into a tree of syntactic constructs, a structural checker over
//! the produced tree, and proofs of the brace accounting of the parser's
//! depth-matched scans.

pub mod balance;
pub mod lex;
pub mod parse;
pub mod validate;
