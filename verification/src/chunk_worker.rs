use vstd::prelude::*;

use crate::block_registry::BlockRegistry;
use crate::chunk::{in_chunk, Chunk, ChunkPos, ChunkSnapshot, CHUNK_VOLUME};
use crate::chunk_mesh::{build_chunk_mesh, mesh_quads, quads_indices, quads_vertices, snapshots_complete, ChunkMesh};
use crate::world_generator::{column_block, generate_chunk};

verus! {

/// Work for the chunk worker.
pub enum ChunkRequest {
    /// Generate the chunk at `position` and mesh it against `neighbors`.
    Generate { position: ChunkPos, neighbors: [Option<ChunkSnapshot>; 6] },
    /// Mesh the existing `chunk` at `position` again against `neighbors`.
    Remesh { position: ChunkPos, chunk: ChunkSnapshot, neighbors: [Option<ChunkSnapshot>; 6] },
}

/// What the worker hands back: the mesh for `position`, and the chunk
/// itself when it was newly generated.
pub struct GeneratedChunk {
    pub position: ChunkPos,
    pub chunk: Option<Chunk>,
    pub mesh: ChunkMesh,
}

/// Whether `mesh` is the greedy mesh of `chunk` against `neighbors`.
pub open spec fn is_mesh_of(
    mesh: ChunkMesh,
    chunk: ChunkSnapshot,
    neighbors: [Option<ChunkSnapshot>; 6],
    registry: BlockRegistry,
) -> bool {
    &&& mesh.vertices@ == quads_vertices(mesh_quads(chunk, neighbors, registry))
    &&& mesh.indices@ == quads_indices(mesh_quads(chunk, neighbors, registry))
}

/// Whether every snapshot a request carries stores all of its cells.
pub open spec fn request_complete(request: ChunkRequest) -> bool {
    match request {
        ChunkRequest::Generate { neighbors, .. } => forall|i: int|
            0 <= i < 6 ==> (#[trigger] neighbors[i] matches Some(n) ==> n.is_complete()),
        ChunkRequest::Remesh { chunk, neighbors, .. } => snapshots_complete(chunk, neighbors),
    }
}

/// Carries out one request. A generation request gets the terrain chunk
/// (stone heights `column_heights` by local X, see
/// `world_generator::generate_chunk`) and its mesh; a remesh request gets the
/// mesh of the chunk it carries.
pub fn process_request(
    request: ChunkRequest,
    registry: &BlockRegistry,
    column_heights: &[usize; 16],
) -> (result: GeneratedChunk)
    requires
        request_complete(request),
        forall|x: int| 0 <= x < 16 ==> #[trigger] column_heights[x] + 4 < 16,
    ensures
        match request {
            ChunkRequest::Generate { position, neighbors } => {
                &&& result.position == position
                &&& result.chunk matches Some(c) && {
                    &&& c.position == position
                    &&& c.blocks@.len() == CHUNK_VOLUME
                    &&& forall|x: int, y: int, z: int|
                        #![trigger c.block_at(x, y, z)]
                        in_chunk(x, y, z) ==> c.block_at(x, y, z) == column_block(
                            column_heights[x] as int,
                            y,
                        )
                    &&& is_mesh_of(
                        result.mesh,
                        ChunkSnapshot { position: c.position, blocks: c.blocks },
                        neighbors,
                        *registry,
                    )
                }
            },
            ChunkRequest::Remesh { position, chunk, neighbors } => {
                &&& result.position == position
                &&& result.chunk is None
                &&& is_mesh_of(result.mesh, chunk, neighbors, *registry)
            },
        },
{
    match request {
        ChunkRequest::Generate { position, neighbors } => {
            let generated = generate_chunk(position, column_heights);
            let snapshot = ChunkSnapshot { position: generated.position, blocks: generated.blocks };
            let mesh = build_chunk_mesh(&snapshot, &neighbors, registry);
            let chunk = Chunk { position: snapshot.position, blocks: snapshot.blocks };
            GeneratedChunk { position, chunk: Some(chunk), mesh }
        },
        ChunkRequest::Remesh { position, chunk, neighbors } => {
            let mesh = build_chunk_mesh(&chunk, &neighbors, registry);
            GeneratedChunk { position, chunk: None, mesh }
        },
    }
}

} // verus!
