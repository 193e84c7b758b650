//! A small regular-expression engine: a recursive-descent parser, a
//! Thompson-style compiler to an NFA program, and a Pike-style simulation.
pub mod cursor;
pub mod parser;
pub mod machine;
pub mod regex;
