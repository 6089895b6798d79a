//! Reader and evaluator for a small Lisp-like notation.
//!
//! Text is cut into tokens, the tokens are read into a flat arena of
//! container nodes that refer to their nested containers by id, and the
//! arena is walked in pre-order from any id.
pub mod atom;
pub mod evaluator;
pub mod laws;
pub mod node;
pub mod reader;
pub mod text;
pub mod tokenizer;
