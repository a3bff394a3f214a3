use voxel_world::block::Block;
use voxel_world::chunk::{Chunk, ChunkPos};
use voxel_world::world::World;
use voxel_world::world_generator::generate_chunk;

fn pos(x: i64, y: i64, z: i64) -> ChunkPos {
    ChunkPos { x, y, z }
}

#[test]
fn empty_world_reads_air() {
    let world = World::new();
    assert_eq!(world.get_block(0, 0, 0), Block::Air);
    assert_eq!(world.get_block(-100, 7, 12345), Block::Air);
    assert!(world.get_chunk(pos(0, 0, 0)).is_none());
    assert!(!world.contains_chunk(pos(0, 0, 0)));
}

#[test]
fn set_then_get_in_a_loaded_chunk() {
    let mut world = World::new();
    world.add_chunk(Chunk::new(pos(0, 0, 0)));
    world.set_block(3, 4, 5, Block::Stone);
    assert_eq!(world.get_block(3, 4, 5), Block::Stone);
    assert_eq!(world.get_block(4, 4, 5), Block::Air);
    assert_eq!(world.get_chunk(pos(0, 0, 0)).unwrap().get(3, 4, 5), Block::Stone);
}

#[test]
fn negative_coordinates_use_floor_division() {
    let mut world = World::new();
    world.add_chunk(Chunk::new(pos(-1, -1, -1)));
    world.set_block(-1, -16, -17, Block::Dirt);
    // -1 is local 15 of chunk -1; -16 is local 0 of chunk -1; -17 is local 15 of chunk -2
    assert_eq!(world.get_block(-1, -16, -17), Block::Air);
    world.set_block(-1, -16, -1, Block::Dirt);
    assert_eq!(world.get_chunk(pos(-1, -1, -1)).unwrap().get(15, 0, 15), Block::Dirt);
    assert_eq!(world.get_block(-1, -16, -1), Block::Dirt);
}

#[test]
fn set_in_an_unloaded_chunk_does_nothing() {
    let mut world = World::new();
    world.add_chunk(Chunk::new(pos(0, 0, 0)));
    world.set_block(16, 0, 0, Block::Stone);
    assert_eq!(world.get_block(16, 0, 0), Block::Air);
    assert!(!world.contains_chunk(pos(1, 0, 0)));
}

#[test]
fn add_chunk_replaces_the_chunk_at_its_position() {
    let mut world = World::new();
    let mut first = Chunk::new(pos(2, 0, 0));
    first.set(0, 0, 0, Block::Stone);
    world.add_chunk(first);
    world.add_chunk(Chunk::new(pos(2, 0, 0)));
    assert_eq!(world.get_block(32, 0, 0), Block::Air);
    assert!(world.contains_chunk(pos(2, 0, 0)));
}

#[test]
fn get_chunk_mut_changes_the_stored_chunk() {
    let mut world = World::new();
    world.add_chunk(Chunk::new(pos(0, 1, 0)));
    {
        let chunk = world.get_chunk_mut(pos(0, 1, 0)).unwrap();
        chunk.set(1, 1, 1, Block::Grass);
    }
    assert_eq!(world.get_block(1, 17, 1), Block::Grass);
    assert!(world.get_chunk_mut(pos(9, 9, 9)).is_none());
}

#[test]
fn generated_columns_are_stone_dirt_grass_air() {
    let mut heights = [2usize; 16];
    heights[5] = 4;
    let chunk = generate_chunk(pos(7, 0, -3), &heights);
    assert_eq!(chunk.position, pos(7, 0, -3));
    for z in 0..16 {
        assert_eq!(chunk.get(0, 0, z), Block::Stone);
        assert_eq!(chunk.get(0, 1, z), Block::Stone);
        assert_eq!(chunk.get(0, 2, z), Block::Dirt);
        assert_eq!(chunk.get(0, 5, z), Block::Dirt);
        assert_eq!(chunk.get(0, 6, z), Block::Grass);
        assert_eq!(chunk.get(0, 7, z), Block::Air);
        assert_eq!(chunk.get(5, 3, z), Block::Stone);
        assert_eq!(chunk.get(5, 4, z), Block::Dirt);
        assert_eq!(chunk.get(5, 8, z), Block::Grass);
        assert_eq!(chunk.get(5, 9, z), Block::Air);
        assert_eq!(chunk.get(5, 15, z), Block::Air);
    }
}

#[test]
fn world_generate_chunk_stores_the_terrain() {
    let mut world = World::new();
    world.generate_chunk(pos(1, 0, 0), &[3usize; 16]);
    assert_eq!(world.get_block(16, 2, 0), Block::Stone);
    assert_eq!(world.get_block(31, 3, 15), Block::Dirt);
    assert_eq!(world.get_block(20, 7, 9), Block::Grass);
    assert_eq!(world.get_block(20, 8, 9), Block::Air);
}
