use vstd::prelude::*;

verus! {

/// A fixed-length bit pattern to be written to or searched for on a tape.
#[derive(Debug, Clone, PartialEq)]
pub struct Pattern(Vec<bool>);

impl Pattern {
    /// The bits of the pattern, leftmost first.
    pub closed spec fn view(&self) -> Seq<bool> {
        self.0@
    }

    pub fn new(pattern: Vec<bool>) -> (r: Self)
        ensures
            r@ == pattern@,
    {
        Self(pattern)
    }

    pub fn get(&self) -> (r: &[bool])
        ensures
            r@ == self@,
    {
        self.0.as_slice()
    }

    /// The bit at `index`; the index must lie within the pattern.
    pub fn get_at(&self, index: usize) -> (r: bool)
        requires
            index < self@.len(),
        ensures
            r == self@[index as int],
    {
        self.0[index]
    }

    pub fn len(&self) -> (r: usize)
        ensures
            r == self@.len(),
    {
        self.0.len()
    }
}

} // verus!
