use vstd::prelude::*;

verus! {

/// A control location, identified by a non-negative integer.
/// The largest representable value is reserved as the halt sentinel and is
/// never handed out by the allocator.
#[derive(Debug, Clone, Copy, PartialEq, Eq, Structural, Hash)]
pub struct State(pub usize);

impl State {
    /// The identifier wrapped by this state.
    pub open spec fn value(self) -> usize {
        self.0
    }

    /// Whether this state is the reserved halt sentinel.
    pub open spec fn is_halt(self) -> bool {
        self.value() == usize::MAX
    }

    pub fn new(value: usize) -> (r: Self)
        ensures
            r.value() == value,
    {
        State(value)
    }

    pub fn get(&self) -> (r: usize)
        ensures
            r == self.value(),
    {
        self.0
    }
}

impl Default for State {
    fn default() -> (r: Self)
        ensures
            r.value() == 0,
    {
        State(0)
    }
}

} // verus!
