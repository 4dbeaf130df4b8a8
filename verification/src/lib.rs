//! Scoped CSS: a CSS parser over macro tokens, and the generation of
//! obfuscated class and id names and of the style sheet that uses them.
pub mod tokens;
pub mod parser_types;
pub mod primitives;
pub mod util;
pub mod types;
pub mod class;
pub mod id;
pub mod attribute;
pub mod modifier;
pub mod selector;
pub mod text;
pub mod rule;
pub mod smithy;
pub mod names;
pub mod stylesheet;
pub mod scoped;
