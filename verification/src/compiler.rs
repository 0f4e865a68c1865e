pub mod layers;
pub mod structures;
pub mod turing_compiler;
