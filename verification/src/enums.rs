pub mod display_style;
pub mod movement;
