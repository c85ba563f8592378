//! A tiny compiler: one arithmetic expression in, x86-64 assembly text out.
//!
//! The work is done in three stages, each in a module of its own: `lexer`
//! turns the text into tokens, `parser` builds a binary tree from them, and
//! `codegen` walks the tree and writes stack-machine code for it.
//!
//! Two more modules hold proofs only: `unparse` shows that the parser can
//! give every well-formed tree, and `machine` that the code of a tree
//! computes its value.

pub mod bintree;
pub mod codegen;
pub mod lexer;
pub mod machine;
pub mod parser;
pub mod ruccerr;
pub mod text;
pub mod unparse;
