//! A bidirectional chart parser for grammars in Mid-Rule form, together with
//! the small text and tree utilities that surround it.

pub mod counting;
pub mod symbols;
pub mod grammar;
pub mod forest;
pub mod engine;
pub mod text;
pub mod span;
pub mod annotation;
pub mod trees;
pub mod arena;
