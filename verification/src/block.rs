use vstd::prelude::*;

verus! {

/// The kinds of block a chunk cell can hold.
#[derive(Clone, Copy, Debug, PartialEq, Eq, Structural)]
pub enum Block {
    Air,
    Stone,
    Grass,
    Dirt,
}

impl Block {
    /// The block's slot in a block registry (its declaration order).
    pub open spec fn slot(self) -> nat {
        match self {
            Block::Air => 0,
            Block::Stone => 1,
            Block::Grass => 2,
            Block::Dirt => 3,
        }
    }

    /// The registry slot of this block, as an index.
    pub fn registry_slot(self) -> (slot: usize)
        ensures
            slot == self.slot(),
            slot < 4,
    {
        match self {
            Block::Air => 0,
            Block::Stone => 1,
            Block::Grass => 2,
            Block::Dirt => 3,
        }
    }
}

} // verus!
