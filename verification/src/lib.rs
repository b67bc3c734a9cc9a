//! Turns a simplified imperative source snippet (if/else, loops, I/O calls,
//! plain statements) into a nested control-flow tree suitable for rendering
//! as a flowchart: keyword classification, statement segmentation with
//! scope-boundary tracking, and recursive construction of a decision tree
//! from the flat, scope-annotated segment stream.

pub mod ast;
pub mod laws;
pub mod parser;
pub mod text;
pub mod tokenizer;
