use voxel_world::block::Block;
use voxel_world::chunk::{Chunk, ChunkPos, ChunkSnapshot, CHUNK_VOLUME};

fn origin() -> ChunkPos {
    ChunkPos { x: 0, y: 0, z: 0 }
}

#[test]
fn index_is_x_then_y_then_z() {
    assert_eq!(Chunk::index(0, 0, 0), 0);
    assert_eq!(Chunk::index(1, 2, 3), 1 + 2 * 16 + 3 * 256);
    assert_eq!(Chunk::index(15, 15, 15), CHUNK_VOLUME - 1);
}

#[test]
fn new_chunk_is_all_air() {
    let chunk = Chunk::new(ChunkPos { x: 3, y: -1, z: 7 });
    assert_eq!(chunk.position, ChunkPos { x: 3, y: -1, z: 7 });
    assert_eq!(chunk.blocks.len(), CHUNK_VOLUME);
    assert!(chunk.blocks.iter().all(|b| *b == Block::Air));
}

#[test]
fn set_then_get_reads_back_and_leaves_others() {
    let mut chunk = Chunk::new(origin());
    chunk.set(4, 5, 6, Block::Stone);
    assert_eq!(chunk.get(4, 5, 6), Block::Stone);
    assert_eq!(chunk.get(5, 5, 6), Block::Air);
    assert_eq!(chunk.get(4, 6, 6), Block::Air);
    assert_eq!(chunk.blocks[4 + 5 * 16 + 6 * 256], Block::Stone);
}

#[test]
fn snapshot_copies_position_and_blocks() {
    let mut chunk = Chunk::new(ChunkPos { x: 1, y: 2, z: 3 });
    chunk.set(0, 0, 0, Block::Dirt);
    let snapshot = ChunkSnapshot::from_chunk(&chunk);
    assert_eq!(snapshot.position, chunk.position);
    assert_eq!(snapshot.blocks, chunk.blocks);
    assert_eq!(snapshot.get(0, 0, 0), Block::Dirt);
}
