use vstd::prelude::*;

verus! {

/// Texture indices of the six faces of a cube-shaped block.
#[derive(Clone, Copy, Debug, PartialEq, Eq, Structural)]
pub struct CubeModel {
    pub north: u32,
    pub south: u32,
    pub east: u32,
    pub west: u32,
    pub top: u32,
    pub bottom: u32,
}

impl CubeModel {
    /// A cube with one texture per face.
    pub fn new(north: u32, south: u32, east: u32, west: u32, top: u32, bottom: u32) -> (model: Self)
        ensures
            model == (CubeModel { north, south, east, west, top, bottom }),
    {
        Self { north, south, east, west, top, bottom }
    }

    /// A cube with the same texture on all six faces.
    pub fn all(texture_index: u32) -> (model: Self)
        ensures
            model == (CubeModel {
                north: texture_index,
                south: texture_index,
                east: texture_index,
                west: texture_index,
                top: texture_index,
                bottom: texture_index,
            }),
    {
        Self {
            north: texture_index,
            south: texture_index,
            east: texture_index,
            west: texture_index,
            top: texture_index,
            bottom: texture_index,
        }
    }
}

/// How a block is drawn.
#[derive(Clone, Copy, Debug, PartialEq, Eq, Structural)]
pub enum BlockModel {
    Cube(CubeModel),
}

} // verus!
