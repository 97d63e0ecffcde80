//! A front end for the eight-instruction tape language: a parser that builds
//! a span-annotated instruction tree under a nesting bound, and a peephole
//! optimizer that rewrites the tree in place.
//!
//! Every function is verified against a mathematical model of the tree
//! ([`Node`]). Beside the functions stand the laws that relate them, as proof
//! functions: what the parser accepts ([`brackets`]), that spans keep the
//! order of the source ([`spans`]), and that an optimized program does what
//! the program did ([`preservation`]), on a model of the machine that runs it
//! ([`machine`]).

pub mod ast;
pub mod brackets;
pub mod dump;
pub mod errors;
pub mod machine;
pub mod optimizer;
pub mod parser;
pub mod preservation;
pub mod spans;

pub use ast::{Kind, Node, Op, OpType, Program};
pub use errors::ParserError;
pub use optimizer::optimize;
pub use parser::parse;
