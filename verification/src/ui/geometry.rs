use vstd::prelude::*;

verus! {

/// Axis a box layout stacks its children along.
#[derive(Copy, Clone, PartialEq, Eq, Structural, Debug)]
pub enum Direction {
    Horizontal,
    Vertical,
}

} // verus!
