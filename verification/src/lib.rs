//! A structural type-inference and consistency-checking engine: program
//! values and operators are nodes in a mutable graph, type information
//! propagates along bidirectional compatibility edges, and two read-only
//! checks validate the inferred types against each other and against
//! previously recorded call signatures.  Around that core sit a small
//! source parser, a per-function lexer, and a token-to-instruction
//! translator.

pub mod ast;
pub mod bytecode;
pub mod errors;
pub mod graph;
pub mod lexer;
pub mod node;
pub mod parser;
pub mod type_system;
pub mod typekind;
