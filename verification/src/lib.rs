//! Parser for documents interleaving freeform text with named, nestable
//! blocks delimited by HTML-comment markers such as
//! `<!-- block:name {"attr": 1} -->` ... `<!-- /block:name -->`.
//!
//! The parser turns a document into an ordered tree of [`Block`] nodes and
//! keeps, for every node, the exact substring of the document it spans, so
//! that the original document can be reconstructed from the tree.

pub mod block;
pub mod chars;
pub mod deserializer;
pub mod json;
pub mod laws;
pub mod nesting;
pub mod tokenizer;

pub use block::Block;
pub use deserializer::parser;
pub use json::is_json_object;
pub use tokenizer::TokenKind;
