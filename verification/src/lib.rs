//! Front end for a small imperative domain-specific language: a lexer that
//! turns source text into typed tokens, a recursive-descent parser that turns
//! tokens into an abstract syntax tree, a pre-order traversal over that tree,
//! and a thin code generator that renders the tree as C-like text.

pub mod ast;
pub mod codegen;
pub mod token;
