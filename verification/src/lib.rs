//! Verified core of the trek FiveM resource tool.
pub mod ast;
pub mod diagnostic;
pub mod lexer;
pub mod lint;
pub mod manifest;
pub mod pack;
pub mod parser;
pub mod readback;
pub mod scaffold;
pub mod schema;
pub mod style;
pub mod text;
pub mod version;
