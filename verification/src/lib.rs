//! Attack trees: attack steps scored against a fixed list of feasibility criteria,
//! composed by AND and OR nodes, read from an indentation-structured text notation.

pub mod model;
pub mod parser;
pub mod render;
pub mod text;
