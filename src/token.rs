use vstd::prelude::*;

verus! {

/// A handle on one element of a `Deque`: the index of the slot that holds
/// it and the generation stamped on that slot when the element was
/// inserted. A handle borrows nothing; it is checked again on every use,
/// so it can be stored anywhere and fails safely once its element is gone.
#[derive(Debug, Clone, Copy, PartialEq, Eq, Structural)]
pub struct Token {
    pub(crate) ix: usize,
    pub(crate) generation: usize,
}

} // verus!
