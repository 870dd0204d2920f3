//! A small markup parser: a tokenizer that splits markup into tag and text
//! tokens, and a tree builder that nests those tokens into a node tree.

pub mod attrs;
pub mod chars;
pub mod laws;
pub mod parser;
pub mod tokenizer;
