use vstd::prelude::*;

verus! {

/// Identifier of a block type. `Block(0)` is air.
#[derive(Debug, Clone, Copy, PartialEq, Eq, Structural)]
pub struct Block(pub u32);

impl Block {
    /// Whether the block fills its cell, so that it has faces and stops sight.
    pub open spec fn solid(self) -> bool {
        self.0 == 1 || self.0 == 2
    }

    /// The column of the texture of the block in the row of textures: dirt
    /// in column 0, stone in column 1, leaves in column 2, and column 0 for
    /// everything else.
    pub open spec fn tile(self) -> int {
        if self.0 == 2 {
            1
        } else if self.0 == 3 {
            2
        } else {
            0
        }
    }

    /// The column of the texture of the block in the row of textures, each
    /// column an eighth of the width.
    pub fn texture_tile(&self) -> (r: u32)
        ensures
            r == self.tile(),
    {
        match self.0 {
            1 => 0,
            2 => 1,
            3 => 2,
            _ => 0,
        }
    }

    /// Whether the block fills its cell: dirt and stone do, air, leaves and
    /// every unknown identifier do not.
    pub fn is_solid(&self) -> (r: bool)
        ensures
            r == self.solid(),
    {
        match self.0 {
            1 => true,
            2 => true,
            3 => false,
            _ => false,
        }
    }
}

} // verus!
