//! Localisation parsing, variable resolution and technology graph construction
//! for Stellaris content packages.

pub mod collection;
pub mod color;
pub mod data;
pub mod escape;
pub mod fold;
pub mod language;
pub mod lexer;
pub mod localisation;
pub mod number;
pub mod ordered_map;
pub mod pipeline;
pub mod tech_tree;
pub mod text;
pub mod variables;
pub mod writer;
