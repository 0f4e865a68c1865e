pub mod compiler;
pub mod enums;
pub mod laws;
pub mod machine;
pub mod programs;
pub mod text;
pub mod turing_tape;
