use vstd::prelude::*;

verus! {

/// Head movement of a transition: stay put, or shift one cell left or right.
#[derive(Debug, Clone, Copy, PartialEq, Eq, Structural, Hash)]
pub enum Movement {
    Stay,
    Left,
    Right,
}

impl Default for Movement {
    fn default() -> (r: Self)
        ensures
            r == Movement::Stay,
    {
        Movement::Stay
    }
}

impl Movement {
    /// One-letter code used when rendering an instruction.
    pub fn get_code_string(&self) -> (r: &'static str)
        ensures
            *self == Movement::Stay ==> r@ == "S"@,
            *self == Movement::Left ==> r@ == "L"@,
            *self == Movement::Right ==> r@ == "R"@,
    {
        match self {
            Self::Stay => "S",
            Self::Left => "L",
            Self::Right => "R",
        }
    }
}

} // verus!
