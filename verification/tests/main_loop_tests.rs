use std::time::Duration;
use voxel_world::block::Block;
use voxel_world::block_registry::BlockRegistry;
use voxel_world::camera_input::{MovementKey, MovementKeys};
use voxel_world::chunk::{Chunk, ChunkPos, ChunkSnapshot};
use voxel_world::chunk_worker::{process_request, ChunkRequest};
use voxel_world::main_loop::{ChunkSet, ChunkTracker, GameLoop};
use voxel_world::world::World;
use voxel_world::world_generator::generate_chunk;

fn pos(x: i64, y: i64, z: i64) -> ChunkPos {
    ChunkPos { x, y, z }
}

fn position_of(r: &ChunkRequest) -> ChunkPos {
    match r {
        ChunkRequest::Generate { position, .. } => *position,
        ChunkRequest::Remesh { position, .. } => *position,
    }
}

#[test]
fn neighbor_positions_are_the_six_faces() {
    let n = GameLoop::neighbor_positions(pos(5, -2, 9));
    assert_eq!(
        n,
        [pos(4, -2, 9), pos(6, -2, 9), pos(5, -3, 9), pos(5, -1, 9), pos(5, -2, 8), pos(5, -2, 10)]
    );
}

#[test]
fn accumulate_runs_whole_ticks_and_keeps_the_rest() {
    let mut game_loop = GameLoop::new();
    assert_eq!(game_loop.accumulate(120_000_000), 2);
    assert_eq!(game_loop.accumulate(30_000_000), 1);
    assert_eq!(game_loop.accumulate(0), 0);
    assert_eq!(game_loop.accumulate(49_999_999), 0);
    assert_eq!(game_loop.accumulate(1), 1);
}

#[test]
fn a_long_stall_is_capped_at_five_ticks() {
    let mut game_loop = GameLoop::new();
    assert_eq!(game_loop.accumulate(3_000_000_000), 5);
    assert_eq!(game_loop.accumulate(u128::MAX), 5);
    assert_eq!(game_loop.accumulate(10_000_000), 0);
}

#[test]
fn advance_runs_one_tick_per_whole_fifty_milliseconds() {
    let mut game_loop = GameLoop::new();
    // a long stall is capped at five ticks and leaves no backlog
    let start = std::time::Instant::now() + Duration::from_secs(10);
    assert_eq!(game_loop.advance(start), 5);
    // 120 ms: two ticks, 20 ms kept
    let later = start + Duration::from_millis(120);
    assert_eq!(game_loop.advance(later), 2);
    // 30 ms more makes the kept 20 ms a whole tick
    assert_eq!(game_loop.advance(later + Duration::from_millis(30)), 1);
    // no time passed: no tick
    assert_eq!(game_loop.advance(later + Duration::from_millis(30)), 0);
}

#[test]
fn advance_never_runs_more_than_five_ticks() {
    let mut game_loop = GameLoop::new();
    let now = std::time::Instant::now();
    assert!(game_loop.advance(now) <= 5);
}

#[test]
fn chunk_set_inserts_and_removes() {
    let mut set = ChunkSet::new();
    assert!(set.insert(pos(1, 2, 3)));
    assert!(!set.insert(pos(1, 2, 3)));
    assert!(set.contains(pos(1, 2, 3)));
    assert!(!set.contains(pos(3, 2, 1)));
    assert!(set.remove(pos(1, 2, 3)));
    assert!(!set.remove(pos(1, 2, 3)));
    assert!(!set.contains(pos(1, 2, 3)));
}

#[test]
fn requests_start_at_the_centre_and_stop_at_fifty() {
    let mut tracker = ChunkTracker::new(World::new());
    let requests = GameLoop::request_chunks(&mut tracker, 100, -50);
    assert_eq!(requests.len(), 50);
    let positions: Vec<ChunkPos> = requests.iter().map(position_of).collect();
    assert_eq!(positions[0], pos(100, 0, -50));
    // ring 1, by x then z
    assert_eq!(positions[1], pos(99, 0, -51));
    assert_eq!(positions[2], pos(99, 0, -50));
    assert_eq!(positions[3], pos(99, 0, -49));
    assert_eq!(positions[4], pos(100, 0, -51));
    assert_eq!(positions[5], pos(100, 0, -49));
    assert_eq!(positions[8], pos(101, 0, -49));
    // ring 2 starts at the 10th request
    assert_eq!(positions[9], pos(98, 0, -52));
    for p in &positions {
        assert!(tracker.pending_chunks.contains(*p));
    }
    // the next tick continues where this one stopped
    let more = GameLoop::request_chunks(&mut tracker, 100, -50);
    assert_eq!(more.len(), 50);
    for r in &more {
        assert!(!positions.contains(&position_of(r)));
    }
}

#[test]
fn loaded_and_pending_chunks_are_not_requested() {
    let mut world = World::new();
    world.add_chunk(generate_chunk(pos(0, 0, 0), &[2usize; 16]));
    let mut tracker = ChunkTracker::new(world);
    tracker.pending_chunks.insert(pos(-1, 0, -1));
    let requests = GameLoop::request_chunks(&mut tracker, 0, 0);
    let positions: Vec<ChunkPos> = requests.iter().map(position_of).collect();
    assert!(!positions.contains(&pos(0, 0, 0)));
    assert!(!positions.contains(&pos(-1, 0, -1)));
    assert_eq!(positions[0], pos(-1, 0, 0));
    // the request for a neighbour of the loaded chunk carries its snapshot
    match &requests[0] {
        ChunkRequest::Generate { neighbors, .. } => {
            assert!(neighbors[1].is_some());
            assert!(neighbors[0].is_none());
        }
        _ => panic!("expected a generation request"),
    }
}

#[test]
fn small_radius_world_requests_everything_missing() {
    // with almost everything loaded, fewer than 50 are wanted and all are requested
    let mut world = World::new();
    for x in -10..=10 {
        for z in -10..=10 {
            if !(x == 3 && z == -7) && !(x == -10 && z == 10) {
                world.add_chunk(Chunk::new(pos(x, 0, z)));
            }
        }
    }
    let mut tracker = ChunkTracker::new(world);
    let requests = GameLoop::request_chunks(&mut tracker, 0, 0);
    let positions: Vec<ChunkPos> = requests.iter().map(position_of).collect();
    assert_eq!(positions, vec![pos(3, 0, -7), pos(-10, 0, 10)]);
}

#[test]
fn queue_remesh_marks_a_second_request_for_later() {
    let mut world = World::new();
    world.add_chunk(Chunk::new(pos(0, 0, 0)));
    let mut tracker = ChunkTracker::new(world);
    let first = GameLoop::queue_remesh(&mut tracker, pos(0, 0, 0));
    assert!(matches!(first, Some(ChunkRequest::Remesh { .. })));
    assert!(tracker.pending_remeshes.contains(pos(0, 0, 0)));
    let second = GameLoop::queue_remesh(&mut tracker, pos(0, 0, 0));
    assert!(second.is_none());
    assert!(tracker.remesh_again.contains(pos(0, 0, 0)));
    // nothing to remesh where no chunk is loaded
    assert!(GameLoop::queue_remesh(&mut tracker, pos(4, 0, 0)).is_none());
    assert!(!tracker.pending_remeshes.contains(pos(4, 0, 0)));
}

#[test]
fn receiving_a_chunk_stores_it_and_remeshes_loaded_neighbors() {
    let mut world = World::new();
    world.add_chunk(Chunk::new(pos(1, 0, 0)));
    world.add_chunk(Chunk::new(pos(0, 0, -1)));
    let mut tracker = ChunkTracker::new(world);
    tracker.pending_chunks.insert(pos(0, 0, 0));
    let requests = GameLoop::receive_chunk(&mut tracker, pos(0, 0, 0), Some(Chunk::new(pos(0, 0, 0))));
    assert!(!tracker.pending_chunks.contains(pos(0, 0, 0)));
    assert!(tracker.world.contains_chunk(pos(0, 0, 0)));
    let positions: Vec<ChunkPos> = requests.iter().map(position_of).collect();
    assert_eq!(positions, vec![pos(1, 0, 0), pos(0, 0, -1)]);
    // the remesh of +X carries the new chunk as its -X neighbour
    match &requests[0] {
        ChunkRequest::Remesh { neighbors, chunk, .. } => {
            assert_eq!(chunk.position, pos(1, 0, 0));
            assert_eq!(neighbors[0].as_ref().unwrap().position, pos(0, 0, 0));
        }
        _ => panic!("expected a remesh request"),
    }
}

#[test]
fn a_finished_remesh_marked_again_is_requested_again() {
    let mut world = World::new();
    world.add_chunk(Chunk::new(pos(0, 0, 0)));
    let mut tracker = ChunkTracker::new(world);
    GameLoop::queue_remesh(&mut tracker, pos(0, 0, 0));
    GameLoop::queue_remesh(&mut tracker, pos(0, 0, 0));
    let requests = GameLoop::receive_chunk(&mut tracker, pos(0, 0, 0), None);
    assert_eq!(requests.len(), 1);
    assert!(!tracker.remesh_again.contains(pos(0, 0, 0)));
    assert!(tracker.pending_remeshes.contains(pos(0, 0, 0)));
    let done = GameLoop::receive_chunk(&mut tracker, pos(0, 0, 0), None);
    assert!(done.is_empty());
    assert!(!tracker.pending_remeshes.contains(pos(0, 0, 0)));
}

#[test]
fn worker_generates_and_meshes() {
    let registry = BlockRegistry::from_textures(1, 2, 3, 4);
    let request = ChunkRequest::Generate { position: pos(0, 0, 0), neighbors: [None, None, None, None, None, None] };
    let result = process_request(request, &registry, &[2usize; 16]);
    assert_eq!(result.position, pos(0, 0, 0));
    let chunk = result.chunk.unwrap();
    assert_eq!(chunk.get(0, 0, 0), Block::Stone);
    assert_eq!(chunk.get(0, 6, 0), Block::Grass);
    // flat terrain: one quad per side of each layer kind, the top a full grass face
    assert!(!result.mesh.vertices.is_empty());
    assert!(result.mesh.vertices.iter().any(|v| v.normal == [0, 1, 0] && v.position[1] == 7 && v.texture_index == 4));
}

#[test]
fn worker_remesh_returns_no_chunk() {
    let registry = BlockRegistry::from_textures(1, 2, 3, 4);
    let mut chunk = Chunk::new(pos(0, 0, 0));
    chunk.set(0, 0, 0, Block::Dirt);
    let request = ChunkRequest::Remesh {
        position: pos(0, 0, 0),
        chunk: ChunkSnapshot::from_chunk(&chunk),
        neighbors: [None, None, None, None, None, None],
    };
    let result = process_request(request, &registry, &[2usize; 16]);
    assert!(result.chunk.is_none());
    assert_eq!(result.mesh.vertices.len(), 24);
    assert_eq!(result.mesh.indices.len(), 36);
}

#[test]
fn movement_keys_track_presses_and_releases() {
    let mut keys = MovementKeys::new();
    assert!(keys.handle_key(Some(MovementKey::Forward), true));
    assert!(keys.handle_key(Some(MovementKey::Fast), true));
    assert!(keys.forward && keys.fast && !keys.backward);
    assert!(keys.handle_key(Some(MovementKey::Forward), false));
    assert!(!keys.forward && keys.fast);
    assert!(!keys.handle_key(None, true));
    assert_eq!(keys, MovementKeys { forward: false, backward: false, left: false, right: false, up: false, down: false, fast: true });
}

#[test]
fn mesh_slot_finds_the_first_mesh_of_a_position() {
    let positions = vec![pos(0, 0, 0), pos(1, 0, 0), pos(0, 0, 0)];
    assert_eq!(voxel_world::main_loop::mesh_slot(&positions, pos(1, 0, 0)), Some(1));
    assert_eq!(voxel_world::main_loop::mesh_slot(&positions, pos(0, 0, 0)), Some(0));
    assert_eq!(voxel_world::main_loop::mesh_slot(&positions, pos(2, 0, 0)), None);
    assert_eq!(voxel_world::main_loop::mesh_slot(&[], pos(2, 0, 0)), None);
}
