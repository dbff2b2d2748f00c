use vstd::prelude::*;

verus! {

/// A value together with the time that passed since the value before it.
#[derive(Debug, Clone, Copy, PartialEq, Eq)]
pub struct Delta<T, E> {
    pub delta: T,
    pub event: E,
}

impl<T, E: View> View for Delta<T, E> {
    type V = Delta<T, E::V>;

    open spec fn view(&self) -> Delta<T, E::V> {
        Delta { delta: self.delta, event: self.event@ }
    }
}

} // verus!
