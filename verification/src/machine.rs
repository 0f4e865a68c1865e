pub mod instruction;
pub mod state;
pub mod turing_machine;
pub mod turing_program;
pub mod turing_tape;
