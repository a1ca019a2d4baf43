//! Integer block offsets.

use vstd::prelude::*;

verus! {

/// An integer displacement, in whole blocks, from the origin block.
#[derive(Clone, Copy, Debug, PartialEq, Eq, Hash, Structural)]
pub struct Offset {
    pub x: i32,
    pub y: i32,
    pub z: i32,
}

impl Offset {
    /// Builds the offset `(x, y, z)`.
    pub fn new(x: i32, y: i32, z: i32) -> (o: Offset)
        ensures
            o == (Offset { x, y, z }),
    {
        Offset { x, y, z }
    }
}

} // verus!
