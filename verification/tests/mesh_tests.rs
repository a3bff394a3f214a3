use voxel_world::block::Block;
use voxel_world::block_model::{BlockModel, CubeModel};
use voxel_world::block_registry::BlockRegistry;
use voxel_world::chunk::{Chunk, ChunkPos, ChunkSnapshot};
use voxel_world::chunk_mesh::{build_chunk_mesh, cube_texture, get_block, ChunkMesh, MeshVertex};

fn registry() -> BlockRegistry {
    // stone = 1, dirt = 2, grass side = 3, grass top = 4
    BlockRegistry::from_textures(1, 2, 3, 4)
}

fn snapshot_with(cells: &[(usize, usize, usize, Block)]) -> ChunkSnapshot {
    let mut chunk = Chunk::new(ChunkPos { x: 0, y: 0, z: 0 });
    for &(x, y, z, b) in cells {
        chunk.set(x, y, z, b);
    }
    ChunkSnapshot::from_chunk(&chunk)
}

fn solid(block: Block) -> ChunkSnapshot {
    let mut chunk = Chunk::new(ChunkPos { x: 0, y: 0, z: 0 });
    for i in 0..chunk.blocks.len() {
        chunk.blocks[i] = block;
    }
    ChunkSnapshot::from_chunk(&chunk)
}

fn no_neighbors() -> [Option<ChunkSnapshot>; 6] {
    [None, None, None, None, None, None]
}

fn quads(mesh: &ChunkMesh) -> usize {
    assert_eq!(mesh.vertices.len() % 4, 0);
    assert_eq!(mesh.indices.len(), mesh.vertices.len() / 4 * 6);
    mesh.vertices.len() / 4
}

#[test]
fn registry_models_standard_blocks() {
    let r = registry();
    assert_eq!(r.model(Block::Air), None);
    assert_eq!(r.model(Block::Stone), Some(BlockModel::Cube(CubeModel::all(1))));
    assert_eq!(r.model(Block::Dirt), Some(BlockModel::Cube(CubeModel::all(2))));
    assert_eq!(
        r.model(Block::Grass),
        Some(BlockModel::Cube(CubeModel::new(3, 3, 3, 3, 4, 2)))
    );
}

#[test]
fn empty_chunk_has_empty_mesh() {
    let mesh = build_chunk_mesh(&snapshot_with(&[]), &no_neighbors(), &registry());
    assert!(mesh.vertices.is_empty());
    assert!(mesh.indices.is_empty());
}

#[test]
fn single_block_has_six_faces() {
    let mesh = build_chunk_mesh(&snapshot_with(&[(0, 0, 0, Block::Stone)]), &no_neighbors(), &registry());
    assert_eq!(quads(&mesh), 6);
    // every index names a vertex
    assert!(mesh.indices.iter().all(|&i| (i as usize) < mesh.vertices.len()));
}

#[test]
fn first_face_is_the_west_face_of_the_block() {
    let mesh = build_chunk_mesh(&snapshot_with(&[(0, 0, 0, Block::Stone)]), &no_neighbors(), &registry());
    let west: Vec<MeshVertex> = mesh.vertices[0..4].to_vec();
    assert_eq!(west[0], MeshVertex { position: [0, 0, 0], tex_coords: [0, 1], normal: [-1, 0, 0], texture_index: 1 });
    assert_eq!(west[1], MeshVertex { position: [0, 0, 1], tex_coords: [1, 1], normal: [-1, 0, 0], texture_index: 1 });
    assert_eq!(west[2], MeshVertex { position: [0, 1, 1], tex_coords: [1, 0], normal: [-1, 0, 0], texture_index: 1 });
    assert_eq!(west[3], MeshVertex { position: [0, 1, 0], tex_coords: [0, 0], normal: [-1, 0, 0], texture_index: 1 });
    assert_eq!(mesh.indices[0..6].to_vec(), vec![0, 1, 2, 0, 2, 3]);
    assert_eq!(mesh.indices[6..12].to_vec(), vec![4, 5, 6, 4, 6, 7]);
}

#[test]
fn east_face_uses_the_positive_winding() {
    let mesh = build_chunk_mesh(&snapshot_with(&[(0, 0, 0, Block::Stone)]), &no_neighbors(), &registry());
    // second quad: the +X face on the plane x = 1
    let east: Vec<MeshVertex> = mesh.vertices[4..8].to_vec();
    assert_eq!(east[0].position, [1, 0, 0]);
    assert_eq!(east[1].position, [1, 1, 0]);
    assert_eq!(east[2].position, [1, 1, 1]);
    assert_eq!(east[3].position, [1, 0, 1]);
    assert_eq!(east[0].normal, [1, 0, 0]);
    assert_eq!(east[0].tex_coords, [0, 1]);
    assert_eq!(east[2].tex_coords, [1, 0]);
}

#[test]
fn grass_faces_take_their_textures() {
    let mesh = build_chunk_mesh(&snapshot_with(&[(2, 3, 4, Block::Grass)]), &no_neighbors(), &registry());
    assert_eq!(quads(&mesh), 6);
    let textures: Vec<u32> = mesh.vertices.chunks(4).map(|q| q[0].texture_index).collect();
    // order: -X, +X, -Y (bottom), +Y (top), -Z, +Z
    assert_eq!(textures, vec![3, 3, 2, 4, 3, 3]);
}

#[test]
fn equal_neighbors_merge_into_one_quad_per_side() {
    let mesh = build_chunk_mesh(
        &snapshot_with(&[(0, 0, 0, Block::Stone), (1, 0, 0, Block::Stone)]),
        &no_neighbors(),
        &registry(),
    );
    assert_eq!(quads(&mesh), 6);
}

#[test]
fn different_blocks_do_not_merge() {
    let mesh = build_chunk_mesh(
        &snapshot_with(&[(0, 0, 0, Block::Stone), (1, 0, 0, Block::Dirt)]),
        &no_neighbors(),
        &registry(),
    );
    // -X and +X faces, and one face each for the two blocks on the four
    // other sides
    assert_eq!(quads(&mesh), 10);
}

#[test]
fn solid_chunk_is_six_full_faces() {
    let mesh = build_chunk_mesh(&solid(Block::Stone), &no_neighbors(), &registry());
    assert_eq!(quads(&mesh), 6);
    let max = mesh.vertices.iter().map(|v| v.position.iter().copied().max().unwrap()).max().unwrap();
    assert_eq!(max, 16);
    // the +Y face spans the whole top: texture repeats 16 times each way
    assert!(mesh.vertices.iter().any(|v| v.tex_coords == [16, 16]));
}

#[test]
fn solid_neighbor_hides_the_shared_face() {
    let mut neighbors = no_neighbors();
    neighbors[0] = Some(solid(Block::Dirt));
    let mesh = build_chunk_mesh(&solid(Block::Stone), &neighbors, &registry());
    assert_eq!(quads(&mesh), 5);
    assert!(mesh.vertices.iter().all(|v| v.normal != [-1, 0, 0]));
}

#[test]
fn air_chunk_shows_the_face_of_a_solid_neighbor() {
    let mut neighbors = no_neighbors();
    neighbors[3] = Some(solid(Block::Stone));
    let mesh = build_chunk_mesh(&snapshot_with(&[]), &neighbors, &registry());
    // the bottom of the chunk above, on the plane y = 16, facing down
    assert_eq!(quads(&mesh), 1);
    assert!(mesh.vertices.iter().all(|v| v.normal == [0, -1, 0] && v.position[1] == 16));
    assert!(mesh.vertices.iter().all(|v| v.texture_index == 1));
}

#[test]
fn checkerboard_faces_are_each_drawn_once() {
    let mut cells = Vec::new();
    for x in 0..4 {
        for z in 0..4 {
            if (x + z) % 2 == 0 {
                cells.push((x, 0, z, Block::Stone));
            }
        }
    }
    let mesh = build_chunk_mesh(&snapshot_with(&cells), &no_neighbors(), &registry());
    // 8 blocks touching only along edges: no two faces are adjacent on a
    // plane, so every face is its own quad
    assert_eq!(quads(&mesh), 8 * 6);
}

#[test]
fn every_triangle_faces_the_way_its_face_looks() {
    let mesh = build_chunk_mesh(
        &snapshot_with(&[(3, 4, 5, Block::Grass), (4, 4, 5, Block::Grass), (9, 9, 9, Block::Dirt)]),
        &no_neighbors(),
        &registry(),
    );
    assert!(!mesh.indices.is_empty());
    for tri in mesh.indices.chunks(3) {
        let p: Vec<[i64; 3]> = tri
            .iter()
            .map(|&i| {
                let q = mesh.vertices[i as usize].position;
                [q[0] as i64, q[1] as i64, q[2] as i64]
            })
            .collect();
        let a = [p[1][0] - p[0][0], p[1][1] - p[0][1], p[1][2] - p[0][2]];
        let b = [p[2][0] - p[0][0], p[2][1] - p[0][1], p[2][2] - p[0][2]];
        let n = [a[1] * b[2] - a[2] * b[1], a[2] * b[0] - a[0] * b[2], a[0] * b[1] - a[1] * b[0]];
        let face = mesh.vertices[tri[0] as usize].normal;
        let dot = n[0] * face[0] as i64 + n[1] * face[1] as i64 + n[2] * face[2] as i64;
        let len2 = n[0] * n[0] + n[1] * n[1] + n[2] * n[2];
        // the cross product is a positive multiple of the face normal
        assert!(dot > 0);
        assert_eq!(dot * dot, len2);
    }
}

#[test]
fn texture_coordinates_repeat_once_per_block() {
    let mesh = build_chunk_mesh(&solid(Block::Stone), &no_neighbors(), &registry());
    for v in &mesh.vertices {
        assert!(v.tex_coords[0] == 0 || v.tex_coords[0] == 16);
        assert!(v.tex_coords[1] == 0 || v.tex_coords[1] == 16);
    }
}

#[test]
fn north_face_texture_runs_along_x_and_down_y() {
    let mesh = build_chunk_mesh(&snapshot_with(&[(0, 0, 0, Block::Stone)]), &no_neighbors(), &registry());
    // quads come X faces, Y faces, then the -Z face on plane z = 0
    let north: Vec<MeshVertex> = mesh.vertices[16..20].to_vec();
    assert_eq!(north[0], MeshVertex { position: [0, 0, 0], tex_coords: [0, 1], normal: [0, 0, -1], texture_index: 1 });
    assert_eq!(north[1], MeshVertex { position: [0, 1, 0], tex_coords: [0, 0], normal: [0, 0, -1], texture_index: 1 });
    assert_eq!(north[2], MeshVertex { position: [1, 1, 0], tex_coords: [1, 0], normal: [0, 0, -1], texture_index: 1 });
    assert_eq!(north[3], MeshVertex { position: [1, 0, 0], tex_coords: [1, 1], normal: [0, 0, -1], texture_index: 1 });
}

#[test]
fn only_the_touching_layer_of_a_neighbor_matters() {
    let chunk = snapshot_with(&[(0, 5, 5, Block::Stone), (15, 5, 5, Block::Dirt)]);
    // -X neighbour: stone on its touching layer x = 15 at (5, 5), other blocks deeper inside
    let near = snapshot_with(&[(15, 5, 5, Block::Stone), (3, 5, 5, Block::Dirt)]);
    let near_other_inside = snapshot_with(&[(15, 5, 5, Block::Stone), (7, 1, 2, Block::Grass)]);
    let mut n1 = no_neighbors();
    n1[0] = Some(near);
    let mut n2 = no_neighbors();
    n2[0] = Some(near_other_inside);
    let m1 = build_chunk_mesh(&chunk, &n1, &registry());
    let m2 = build_chunk_mesh(&chunk, &n2, &registry());
    assert_eq!(m1.vertices, m2.vertices);
    assert_eq!(m1.indices, m2.indices);
    // an all-air neighbour meshes like no neighbour
    let mut n3 = no_neighbors();
    n3[1] = Some(snapshot_with(&[]));
    let m3 = build_chunk_mesh(&chunk, &n3, &registry());
    let m4 = build_chunk_mesh(&chunk, &no_neighbors(), &registry());
    assert_eq!(m3.vertices, m4.vertices);
    assert_eq!(m3.indices, m4.indices);
    // the stone in the touching layer hides the chunk's west face there
    assert_eq!(quads(&m1) + 1, quads(&m4));
}

#[test]
fn get_block_reads_across_one_face_only() {
    let chunk = snapshot_with(&[(0, 3, 4, Block::Dirt)]);
    let mut neighbors = no_neighbors();
    neighbors[0] = Some(snapshot_with(&[(15, 3, 4, Block::Stone)]));
    neighbors[3] = Some(snapshot_with(&[(2, 0, 2, Block::Grass)]));
    assert_eq!(get_block(&chunk, &neighbors, 0, 3, 4), Block::Dirt);
    assert_eq!(get_block(&chunk, &neighbors, -1, 3, 4), Block::Stone);
    assert_eq!(get_block(&chunk, &neighbors, 2, 16, 2), Block::Grass);
    // the +X neighbour is missing: air
    assert_eq!(get_block(&chunk, &neighbors, 16, 3, 4), Block::Air);
    // two axes outside: air, even where a neighbour holds a block
    assert_eq!(get_block(&chunk, &neighbors, -1, 16, 4), Block::Air);
}

#[test]
fn cube_texture_follows_the_standard_models() {
    let r = registry();
    for axis in 0..3 {
        for positive in [false, true] {
            assert_eq!(cube_texture(Block::Stone, axis, positive, &r), 1);
            assert_eq!(cube_texture(Block::Dirt, axis, positive, &r), 2);
            assert_eq!(cube_texture(Block::Air, axis, positive, &r), 0);
            if axis != 1 {
                assert_eq!(cube_texture(Block::Grass, axis, positive, &r), 3);
            }
        }
    }
    assert_eq!(cube_texture(Block::Grass, 1, true, &r), 4);
    assert_eq!(cube_texture(Block::Grass, 1, false, &r), 2);
}
