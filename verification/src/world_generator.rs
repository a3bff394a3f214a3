use vstd::prelude::*;

use crate::block::Block;
use crate::chunk::{cell_index, in_chunk, Chunk, ChunkPos, CHUNK_SIZE, CHUNK_VOLUME};

verus! {

/// The block at height `y` of a terrain column whose stone reaches height
/// `height`: stone below it, four layers of dirt on top of the stone, one
/// layer of grass on top of the dirt, and air above.
pub open spec fn column_block(height: int, y: int) -> Block {
    if y < height {
        Block::Stone
    } else if y < height + 4 {
        Block::Dirt
    } else if y == height + 4 {
        Block::Grass
    } else {
        Block::Air
    }
}

/// Generates the terrain of the chunk at `position`. `column_heights[x]` is
/// the stone height of every column at local `x` (the terrain varies along X
/// only); each column is filled as `column_block` says.
pub fn generate_chunk(position: ChunkPos, column_heights: &[usize; 16]) -> (chunk: Chunk)
    requires
        forall|x: int| 0 <= x < 16 ==> #[trigger] column_heights[x] + 4 < 16,
    ensures
        chunk.position == position,
        chunk.blocks@.len() == CHUNK_VOLUME,
        forall|x: int, y: int, z: int|
            #![trigger chunk.block_at(x, y, z)]
            in_chunk(x, y, z) ==> chunk.block_at(x, y, z) == column_block(
                column_heights[x] as int,
                y,
            ),
{
    let mut chunk = Chunk::new(position);
    proof {
        crate::chunk::lemma_cell_index_bijective();
    }
    let mut x: usize = 0;
    while x < CHUNK_SIZE
        invariant
            x <= 16,
            chunk.position == position,
            chunk.blocks@.len() == CHUNK_VOLUME,
            forall|k: int| 0 <= k < 16 ==> #[trigger] column_heights[k] + 4 < 16,
            forall|cx: int, cy: int, cz: int|
                #![trigger chunk.block_at(cx, cy, cz)]
                in_chunk(cx, cy, cz) ==> chunk.block_at(cx, cy, cz) == (if cx < x {
                    column_block(column_heights[cx] as int, cy)
                } else {
                    Block::Air
                }),
        decreases 16 - x,
    {
        let height = column_heights[x];
        let mut z: usize = 0;
        while z < CHUNK_SIZE
            invariant
                x < 16,
                z <= 16,
                height == column_heights[x as int],
                height + 4 < 16,
                chunk.position == position,
                chunk.blocks@.len() == CHUNK_VOLUME,
                forall|cx: int, cy: int, cz: int|
                    #![trigger chunk.block_at(cx, cy, cz)]
                    in_chunk(cx, cy, cz) ==> chunk.block_at(cx, cy, cz) == (if cx < x || (cx == x
                        && cz < z) {
                        column_block(column_heights[cx] as int, cy)
                    } else {
                        Block::Air
                    }),
            decreases 16 - z,
        {
            let mut y: usize = 0;
            while y <= height + 4
                invariant
                    x < 16,
                    z < 16,
                    y <= height + 5,
                    height == column_heights[x as int],
                    height + 4 < 16,
                    chunk.position == position,
                    chunk.blocks@.len() == CHUNK_VOLUME,
                    forall|cx: int, cy: int, cz: int|
                        #![trigger chunk.block_at(cx, cy, cz)]
                        in_chunk(cx, cy, cz) ==> chunk.block_at(cx, cy, cz) == (if cx < x || (cx
                            == x && cz < z) || (cx == x && cz == z && cy < y) {
                            column_block(column_heights[cx] as int, cy)
                        } else {
                            Block::Air
                        }),
                decreases height + 5 - y,
            {
                let block = if y < height {
                    Block::Stone
                } else if y < height + 4 {
                    Block::Dirt
                } else {
                    Block::Grass
                };
                let ghost before = chunk.blocks@;
                assert forall|cx: int, cy: int, cz: int|
                    in_chunk(cx, cy, cz) implies #[trigger] before[cell_index(cx, cy, cz)] == (if cx < x
                        || (cx == x && cz < z) || (cx == x && cz == z && cy < y) {
                        column_block(column_heights[cx] as int, cy)
                    } else {
                        Block::Air
                    }) by {
                    assert(chunk.block_at(cx, cy, cz) == before[cell_index(cx, cy, cz)]);
                }
                chunk.set(x, y, z, block);
                proof {
                    crate::chunk::lemma_cell_index_bijective();
                    assert forall|cx: int, cy: int, cz: int|
                        in_chunk(cx, cy, cz) implies #[trigger] chunk.block_at(cx, cy, cz) == (if cx < x || (cx
                            == x && cz < z) || (cx == x && cz == z && cy < y + 1) {
                            column_block(column_heights[cx] as int, cy)
                        } else {
                            Block::Air
                        }) by {
                        crate::chunk::lemma_set_then_get(before, x as int, y as int, z as int, block, cx, cy, cz);
                        assert(before[cell_index(cx, cy, cz)] == before[cell_index(cx, cy, cz)]);
                    }
                }
                y += 1;
            }
            z += 1;
        }
        x += 1;
    }
    chunk
}

} // verus!
