use vstd::prelude::*;

use crate::block::Block;
use crate::block_model::{BlockModel, CubeModel};
use crate::texture::{AtlasError, TextureAtlas};

verus! {

/// The model of every block kind, indexed by `Block::slot`.
#[derive(Clone, Copy, Debug)]
pub struct BlockRegistry {
    models: [Option<BlockModel>; 4],
}

impl View for BlockRegistry {
    type V = Seq<Option<BlockModel>>;

    closed spec fn view(&self) -> Seq<Option<BlockModel>> {
        self.models@
    }
}

/// The registry contents for the given texture indices: air has no model,
/// stone and dirt use one texture on every face, and grass has its side
/// texture on the four sides, its top texture on top and dirt below.
pub open spec fn standard_models(stone: u32, dirt: u32, grass_side: u32, grass_top: u32) -> Seq<
    Option<BlockModel>,
> {
    seq![
        None,
        Some(BlockModel::Cube(CubeModel {
            north: stone,
            south: stone,
            east: stone,
            west: stone,
            top: stone,
            bottom: stone,
        })),
        Some(BlockModel::Cube(CubeModel {
            north: grass_side,
            south: grass_side,
            east: grass_side,
            west: grass_side,
            top: grass_top,
            bottom: dirt,
        })),
        Some(BlockModel::Cube(CubeModel {
            north: dirt,
            south: dirt,
            east: dirt,
            west: dirt,
            top: dirt,
            bottom: dirt,
        })),
    ]
}

/// The first of the standard texture names (stone, dirt, grass side, grass
/// top, in that order) that the atlas lacks.
pub open spec fn first_missing_texture(atlas: Map<Seq<char>, u32>) -> Seq<char> {
    if !atlas.contains_key("stone"@) {
        "stone"@
    } else if !atlas.contains_key("dirt"@) {
        "dirt"@
    } else if !atlas.contains_key("grass_side"@) {
        "grass_side"@
    } else {
        "grass_top"@
    }
}

/// Whether the atlas holds every standard texture.
pub open spec fn has_standard_textures(atlas: Map<Seq<char>, u32>) -> bool {
    &&& atlas.contains_key("stone"@)
    &&& atlas.contains_key("dirt"@)
    &&& atlas.contains_key("grass_side"@)
    &&& atlas.contains_key("grass_top"@)
}

impl BlockRegistry {
    /// The registry of the standard blocks, with the textures the atlas
    /// holds under "stone", "dirt", "grass_side" and "grass_top"; fails on
    /// the first of these names (in that order) that the atlas lacks.
    pub fn new(atlas: &TextureAtlas) -> (registry: Result<Self, AtlasError>)
        requires
            atlas.wf(),
        ensures
            registry is Ok <==> has_standard_textures(atlas@),
            registry matches Ok(r) ==> r@ == standard_models(
                atlas@["stone"@],
                atlas@["dirt"@],
                atlas@["grass_side"@],
                atlas@["grass_top"@],
            ),
            registry matches Err(e) ==> (e matches AtlasError::UnknownTexture { name }
                && name@ == first_missing_texture(atlas@)),
    {
        let stone = atlas.index("stone")?;
        let dirt = atlas.index("dirt")?;
        let grass_side = atlas.index("grass_side")?;
        let grass_top = atlas.index("grass_top")?;
        Ok(Self::from_textures(stone, dirt, grass_side, grass_top))
    }

    /// The registry of the standard blocks, given the atlas indices of
    /// their textures.
    pub fn from_textures(stone: u32, dirt: u32, grass_side: u32, grass_top: u32) -> (registry:
        Self)
        ensures
            registry@ == standard_models(stone, dirt, grass_side, grass_top),
    {
        let registry = Self {
            models: [
                None,
                Some(BlockModel::Cube(CubeModel::all(stone))),
                Some(
                    BlockModel::Cube(
                        CubeModel::new(
                            grass_side,
                            grass_side,
                            grass_side,
                            grass_side,
                            grass_top,
                            dirt,
                        ),
                    ),
                ),
                Some(BlockModel::Cube(CubeModel::all(dirt))),
            ],
        };
        assert(registry@ =~= standard_models(stone, dirt, grass_side, grass_top));
        registry
    }

    /// The model registered for `block`.
    pub fn model(&self, block: Block) -> (model: Option<BlockModel>)
        ensures
            model == self@[block.slot() as int],
    {
        self.models[block.registry_slot()]
    }
}

} // verus!
