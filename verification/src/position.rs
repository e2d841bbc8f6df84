use vstd::prelude::*;

verus! {

/// A display coordinate: `x` is a column, `y` is a row index.
#[derive(Clone, Copy, PartialEq, Eq, Structural, Debug)]
pub struct Position {
    pub x: usize,
    pub y: usize,
}

} // verus!
