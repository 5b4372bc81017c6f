//! Infers a structural type signature, such as `Array<string | number>`, from example JSON
//! text: a scanner turns the text into tokens, a parser turns the tokens into a tree of types,
//! and a printer renders the tree.

pub mod ast;
pub mod interpreter;
pub mod lines;
pub mod parser;
pub mod pipeline;
pub mod scanner;
pub mod token;
