//! A small formal-reasoning toolkit: an arena of terms, a configurable
//! operator-precedence parser, and a proof kernel over the parsed terms.
pub mod ast;
pub mod charclass;
pub mod kernel;
pub mod lexer;
pub mod names;
pub mod owned;
pub mod parser;
pub mod proposition;
pub mod sym;
pub mod text;
pub mod tree;
pub mod util;
