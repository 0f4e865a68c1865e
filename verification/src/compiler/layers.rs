pub mod base;
pub mod pattern;
pub mod primitive;
pub mod program_builder;
