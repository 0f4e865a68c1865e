use vstd::prelude::*;

verus! {

/// How an observer wants a running machine rendered; the library itself
/// never renders, it only carries the choice.
#[derive(Debug, Clone, Copy, PartialEq, Eq, Structural)]
pub enum DisplayStyle {
    Silent,
    Formal,
    Visual,
    VisualFormal,
}

} // verus!
