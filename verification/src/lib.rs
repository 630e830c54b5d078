//! Nested lists of unsigned integers: their textual form, a stack-driven
//! parser for it, and the total order that compares them element by element.

pub mod order;
pub mod pairs;
pub mod parser;
pub mod roundtrip;
pub mod text;
pub mod value;
