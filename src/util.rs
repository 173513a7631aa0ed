//! Small helpers.
use vstd::prelude::*;

verus! {

/// Discards a value explicitly, for results that are deliberately unused.
pub trait Droppable: Sized {
    fn drop(self);
}

impl<T> Droppable for T {
    fn drop(self) {
    }
}

} // verus!
