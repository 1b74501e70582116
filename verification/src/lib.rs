//! A small engine for a JSON-like grammar: a tokenizer, a recursive-descent
//! parser that builds an in-memory document tree, mutation and query
//! operations on that tree, and a renderer that turns the tree back into
//! compact text.
//!
//! The mathematical model of documents lives in [`model`]; every executable
//! operation carries a contract stated over that model, and [`laws`] proves
//! the round-trip relations between the parser and the renderer.
#![allow(non_snake_case)]

pub mod doc;
pub mod laws;
pub mod lex;
pub mod model;
pub mod parse;
pub mod render;
mod strutil;
pub mod token;

pub use doc::{Json, Node, NodeContent};
