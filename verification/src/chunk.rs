use vstd::prelude::*;

use crate::block::Block;

verus! {

/// Edge length of a cubic chunk, in blocks.
pub const CHUNK_SIZE: usize = 16;

/// Number of cells in a chunk.
pub const CHUNK_VOLUME: usize = CHUNK_SIZE * CHUNK_SIZE * CHUNK_SIZE;

/// Position of a chunk in chunk coordinates (one unit is `CHUNK_SIZE` blocks).
#[derive(Clone, Copy, Debug, PartialEq, Eq, Hash, Structural)]
pub struct ChunkPos {
    pub x: i64,
    pub y: i64,
    pub z: i64,
}

/// Linear storage index of the cell at local coordinates `(x, y, z)`:
/// `x` varies fastest, then `y`, then `z`.
pub open spec fn cell_index(x: int, y: int, z: int) -> int {
    x + y * 16 + z * 256
}

/// Whether local coordinates lie inside a chunk.
pub open spec fn in_chunk(x: int, y: int, z: int) -> bool {
    0 <= x < 16 && 0 <= y < 16 && 0 <= z < 16
}

/// The storage index is a bijection between the cells of a chunk and
/// `0..CHUNK_VOLUME`: every in-chunk cell lands in range, distinct cells get
/// distinct indices, and every index in range comes from exactly the cell
/// `(i % 16, (i / 16) % 16, i / 256)`.
pub proof fn lemma_cell_index_bijective()
    ensures
        forall|x: int, y: int, z: int|
            #![trigger cell_index(x, y, z)]
            in_chunk(x, y, z) ==> 0 <= cell_index(x, y, z) < CHUNK_VOLUME,
        forall|x1: int, y1: int, z1: int, x2: int, y2: int, z2: int|
            #![trigger cell_index(x1, y1, z1), cell_index(x2, y2, z2)]
            in_chunk(x1, y1, z1) && in_chunk(x2, y2, z2) && cell_index(x1, y1, z1) == cell_index(
                x2,
                y2,
                z2,
            ) ==> x1 == x2 && y1 == y2 && z1 == z2,
        forall|i: int|
            0 <= i < CHUNK_VOLUME ==> in_chunk(i % 16, (i / 16) % 16, i / 256) && #[trigger] cell_index(
                i % 16,
                (i / 16) % 16,
                i / 256,
            ) == i,
{
    assert forall|x1: int, y1: int, z1: int, x2: int, y2: int, z2: int|
        in_chunk(x1, y1, z1) && in_chunk(x2, y2, z2) && #[trigger] cell_index(x1, y1, z1)
            == #[trigger] cell_index(x2, y2, z2) implies x1 == x2 && y1 == y2 && z1 == z2 by {
        assert(x1 == x2 && y1 == y2 && z1 == z2) by (nonlinear_arith)
            requires
                in_chunk(x1, y1, z1),
                in_chunk(x2, y2, z2),
                x1 + y1 * 16 + z1 * 256 == x2 + y2 * 16 + z2 * 256,
        ;
    }
    assert forall|i: int| 0 <= i < CHUNK_VOLUME implies in_chunk(i % 16, (i / 16) % 16, i / 256)
        && #[trigger] cell_index(i % 16, (i / 16) % 16, i / 256) == i by {
        assert(in_chunk(i % 16, (i / 16) % 16, i / 256) && (i % 16) + ((i / 16) % 16) * 16 + (i
            / 256) * 256 == i) by (nonlinear_arith)
            requires
                0 <= i < 4096,
        ;
    }
}

/// A chunk of the world: its position and its blocks, stored by `cell_index`.
pub struct Chunk {
    pub position: ChunkPos,
    pub blocks: Vec<Block>,
}

impl Chunk {
    /// Whether the chunk stores a block for every in-chunk cell.
    pub open spec fn is_complete(&self) -> bool {
        self.blocks@.len() >= CHUNK_VOLUME
    }

    /// The block stored for local coordinates `(x, y, z)`.
    pub open spec fn block_at(&self, x: int, y: int, z: int) -> Block {
        self.blocks@[cell_index(x, y, z)]
    }

    /// A chunk at `position` that is air everywhere.
    pub fn new(position: ChunkPos) -> (chunk: Self)
        ensures
            chunk.position == position,
            chunk.blocks@.len() == CHUNK_VOLUME,
            forall|i: int| 0 <= i < CHUNK_VOLUME ==> chunk.blocks@[i] == Block::Air,
    {
        let blocks = vec![Block::Air; CHUNK_VOLUME];
        Self { position, blocks }
    }

    /// Storage index of local coordinates `(x, y, z)`.
    pub fn index(x: usize, y: usize, z: usize) -> (i: usize)
        requires
            cell_index(x as int, y as int, z as int) <= usize::MAX,
        ensures
            i == cell_index(x as int, y as int, z as int),
    {
        x + y * CHUNK_SIZE + z * CHUNK_SIZE * CHUNK_SIZE
    }

    /// The block at local coordinates `(x, y, z)`.
    pub fn get(&self, x: usize, y: usize, z: usize) -> (block: Block)
        requires
            cell_index(x as int, y as int, z as int) < self.blocks@.len(),
        ensures
            block == self.blocks@[cell_index(x as int, y as int, z as int)],
    {
        assert(self.blocks@.len() == self.blocks.len());
        self.blocks[Self::index(x, y, z)]
    }

    /// Replaces the block at local coordinates `(x, y, z)`.
    pub fn set(&mut self, x: usize, y: usize, z: usize, block: Block)
        requires
            cell_index(x as int, y as int, z as int) < old(self).blocks@.len(),
        ensures
            final(self).position == old(self).position,
            final(self).blocks@ == old(self).blocks@.update(
                cell_index(x as int, y as int, z as int),
                block,
            ),
    {
        assert(self.blocks@.len() == self.blocks.len());
        let index = Self::index(x, y, z);
        self.blocks.set(index, block);
    }
}

/// Within a chunk, reading a cell after writing it gives the block written,
/// and writing a cell leaves every other in-chunk cell as it was.
pub proof fn lemma_set_then_get(
    before: Seq<Block>,
    x: int,
    y: int,
    z: int,
    block: Block,
    x2: int,
    y2: int,
    z2: int,
)
    requires
        cell_index(x, y, z) < before.len(),
        in_chunk(x, y, z),
        in_chunk(x2, y2, z2),
    ensures
        before.update(cell_index(x, y, z), block)[cell_index(x, y, z)] == block,
        !(x == x2 && y == y2 && z == z2) && cell_index(x2, y2, z2) < before.len() ==> before.update(cell_index(x, y, z), block)[cell_index(
            x2,
            y2,
            z2,
        )] == before[cell_index(x2, y2, z2)],
{
    lemma_cell_index_bijective();
    assert(cell_index(x, y, z) == cell_index(x, y, z));
    assert(cell_index(x2, y2, z2) == cell_index(x2, y2, z2));
}

/// An immutable copy of a chunk, handed to meshing.
#[derive(Clone)]
pub struct ChunkSnapshot {
    pub position: ChunkPos,
    pub blocks: Vec<Block>,
}

impl ChunkSnapshot {
    /// Whether the snapshot stores a block for every in-chunk cell.
    pub open spec fn is_complete(&self) -> bool {
        self.blocks@.len() >= CHUNK_VOLUME
    }

    /// The block stored for local coordinates `(x, y, z)`.
    pub open spec fn block_at(&self, x: int, y: int, z: int) -> Block {
        self.blocks@[cell_index(x, y, z)]
    }

    /// The block at local coordinates `(x, y, z)`.
    pub fn get(&self, x: usize, y: usize, z: usize) -> (block: Block)
        requires
            cell_index(x as int, y as int, z as int) < self.blocks@.len(),
        ensures
            block == self.blocks@[cell_index(x as int, y as int, z as int)],
    {
        assert(self.blocks@.len() == self.blocks.len());
        self.blocks[Chunk::index(x, y, z)]
    }

    /// A snapshot holding the chunk's position and a copy of its blocks.
    pub fn from_chunk(chunk: &Chunk) -> (snapshot: Self)
        ensures
            snapshot.position == chunk.position,
            snapshot.blocks@ == chunk.blocks@,
    {
        let blocks = chunk.blocks.clone();
        assert(blocks@ =~= chunk.blocks@);
        Self { position: chunk.position, blocks }
    }
}

} // verus!
