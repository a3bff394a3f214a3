use vstd::prelude::*;

use crate::block::Block;
use crate::block_model::BlockModel;
use crate::block_registry::BlockRegistry;
use crate::chunk::{cell_index, in_chunk, ChunkSnapshot, CHUNK_SIZE, CHUNK_VOLUME};

verus! {

/// One corner of a mesh quad. Positions are in block units relative to the
/// chunk origin; texture coordinates count block-sized texture repeats.
#[derive(Clone, Copy, Debug, PartialEq)]
pub struct MeshVertex {
    pub position: [u32; 3],
    pub tex_coords: [u32; 2],
    pub normal: [i32; 3],
    pub texture_index: u32,
}

/// The geometry of a chunk: four vertices and six indices per quad.
pub struct ChunkMesh {
    pub vertices: Vec<MeshVertex>,
    pub indices: Vec<u32>,
}

/// A visible face on a slice plane: which block shows it, whether it faces
/// the positive direction of the axis, and its texture.
#[derive(Clone, Copy, Debug, PartialEq, Eq, Structural)]
pub struct MaskCell {
    pub block: Block,
    pub positive: bool,
    pub texture_index: u32,
}

/// Whether a coordinate lies in `0..CHUNK_SIZE`.
pub open spec fn in_range(c: int) -> bool {
    0 <= c < 16
}

/// The block a neighbour snapshot holds at local coordinates, air where there
/// is no neighbour.
pub open spec fn neighbor_block(neighbor: Option<ChunkSnapshot>, x: int, y: int, z: int) -> Block {
    match neighbor {
        Some(n) => n.block_at(x, y, z),
        None => Block::Air,
    }
}

/// The block at chunk-local coordinates `(x, y, z)` as meshing sees it.
/// Inside the chunk it is the chunk's block. One step outside a face it is
/// the facing boundary layer of the neighbour on that side (neighbours are
/// ordered -X, +X, -Y, +Y, -Z, +Z), or air where that neighbour is absent.
/// Anywhere else it is air.
pub open spec fn lookup_block(
    chunk: ChunkSnapshot,
    neighbors: [Option<ChunkSnapshot>; 6],
    x: int,
    y: int,
    z: int,
) -> Block {
    if in_chunk(x, y, z) {
        chunk.block_at(x, y, z)
    } else if x < 0 {
        if !(in_range(y) && in_range(z)) {
            Block::Air
        } else {
            neighbor_block(neighbors[0], 15, y, z)
        }
    } else if x >= 16 {
        if !(in_range(y) && in_range(z)) {
            Block::Air
        } else {
            neighbor_block(neighbors[1], 0, y, z)
        }
    } else if y < 0 {
        if !(in_range(x) && in_range(z)) {
            Block::Air
        } else {
            neighbor_block(neighbors[2], x, 15, z)
        }
    } else if y >= 16 {
        if !(in_range(x) && in_range(z)) {
            Block::Air
        } else {
            neighbor_block(neighbors[3], x, 0, z)
        }
    } else if z < 0 {
        if !(in_range(x) && in_range(y)) {
            Block::Air
        } else {
            neighbor_block(neighbors[4], x, y, 15)
        }
    } else {
        if !(in_range(x) && in_range(y)) {
            Block::Air
        } else {
            neighbor_block(neighbors[5], x, y, 0)
        }
    }
}

/// Every snapshot that meshing reads stores all of its cells.
pub open spec fn snapshots_complete(chunk: ChunkSnapshot, neighbors: [Option<ChunkSnapshot>; 6]) -> bool {
    &&& chunk.is_complete()
    &&& forall|i: int|
        0 <= i < 6 ==> (#[trigger] neighbors[i] matches Some(n) ==> n.is_complete())
}

/// The texture of the face of `block` that faces the positive (`positive`)
/// or negative direction of `axis`: east/west on X, top/bottom on Y,
/// south/north on Z; 0 for a block without a cube model.
pub open spec fn face_texture(registry: BlockRegistry, block: Block, axis: int, positive: bool) -> u32 {
    match registry@[block.slot() as int] {
        Some(BlockModel::Cube(cube)) => {
            if axis == 0 {
                if positive { cube.east } else { cube.west }
            } else if axis == 1 {
                if positive { cube.top } else { cube.bottom }
            } else {
                if positive { cube.south } else { cube.north }
            }
        },
        None => 0,
    }
}

/// Chunk-local coordinates of the cell at position `along` on `axis` and at
/// `(u, v)` on the two other axes (Y,Z for X; X,Z for Y; X,Y for Z).
pub open spec fn cell_coords(axis: int, along: int, u: int, v: int) -> (int, int, int) {
    if axis == 0 {
        (along, u, v)
    } else if axis == 1 {
        (u, along, v)
    } else {
        (u, v, along)
    }
}

/// The face, if any, on the plane `slice` of `axis` at `(u, v)`: the plane
/// separates the cell below it (`slice - 1`) from the cell above it
/// (`slice`). A face is drawn exactly where one of the two is air and the
/// other is not; it belongs to the solid block and faces the air.
pub open spec fn face_cell(
    chunk: ChunkSnapshot,
    neighbors: [Option<ChunkSnapshot>; 6],
    registry: BlockRegistry,
    axis: int,
    slice: int,
    u: int,
    v: int,
) -> Option<MaskCell> {
    let a = cell_coords(axis, slice - 1, u, v);
    let b = cell_coords(axis, slice, u, v);
    let block_a = lookup_block(chunk, neighbors, a.0, a.1, a.2);
    let block_b = lookup_block(chunk, neighbors, b.0, b.1, b.2);
    if block_a != Block::Air && block_b == Block::Air {
        Some(
            MaskCell {
                block: block_a,
                positive: true,
                texture_index: face_texture(registry, block_a, axis, true),
            },
        )
    } else if block_b != Block::Air && block_a == Block::Air {
        Some(
            MaskCell {
                block: block_b,
                positive: false,
                texture_index: face_texture(registry, block_b, axis, false),
            },
        )
    } else {
        None
    }
}

/// The block at chunk-local coordinates, reading across into the six
/// neighbours.
pub fn get_block(
    chunk: &ChunkSnapshot,
    neighbors: &[Option<ChunkSnapshot>; 6],
    x: i32,
    y: i32,
    z: i32,
) -> (block: Block)
    requires
        snapshots_complete(*chunk, *neighbors),
    ensures
        block == lookup_block(*chunk, *neighbors, x as int, y as int, z as int),
{
    let size: i32 = 16;
    if x >= 0 && x < size && y >= 0 && y < size && z >= 0 && z < size {
        return chunk.get(x as usize, y as usize, z as usize);
    }
    if x < 0 {
        if y < 0 || y >= size || z < 0 || z >= size {
            return Block::Air;
        }
        assert(neighbors[0] matches Some(n) ==> n.is_complete());
        return match &neighbors[0] {
            Some(neighbor) => neighbor.get(CHUNK_SIZE - 1, y as usize, z as usize),
            None => Block::Air,
        };
    }
    if x >= size {
        if y < 0 || y >= size || z < 0 || z >= size {
            return Block::Air;
        }
        assert(neighbors[1] matches Some(n) ==> n.is_complete());
        return match &neighbors[1] {
            Some(neighbor) => neighbor.get(0, y as usize, z as usize),
            None => Block::Air,
        };
    }
    if y < 0 {
        if x < 0 || x >= size || z < 0 || z >= size {
            return Block::Air;
        }
        assert(neighbors[2] matches Some(n) ==> n.is_complete());
        return match &neighbors[2] {
            Some(neighbor) => neighbor.get(x as usize, CHUNK_SIZE - 1, z as usize),
            None => Block::Air,
        };
    }
    if y >= size {
        if x < 0 || x >= size || z < 0 || z >= size {
            return Block::Air;
        }
        assert(neighbors[3] matches Some(n) ==> n.is_complete());
        return match &neighbors[3] {
            Some(neighbor) => neighbor.get(x as usize, 0, z as usize),
            None => Block::Air,
        };
    }
    if z < 0 {
        if x < 0 || x >= size || y < 0 || y >= size {
            return Block::Air;
        }
        assert(neighbors[4] matches Some(n) ==> n.is_complete());
        return match &neighbors[4] {
            Some(neighbor) => neighbor.get(x as usize, y as usize, CHUNK_SIZE - 1),
            None => Block::Air,
        };
    }
    if x < 0 || x >= size || y < 0 || y >= size {
        return Block::Air;
    }
    assert(neighbors[5] matches Some(n) ==> n.is_complete());
    match &neighbors[5] {
        Some(neighbor) => neighbor.get(x as usize, y as usize, 0),
        None => Block::Air,
    }
}

/// The texture of one face of a block.
pub fn cube_texture(block: Block, axis: usize, positive: bool, registry: &BlockRegistry) -> (texture:
    u32)
    requires
        axis < 3,
    ensures
        texture == face_texture(*registry, block, axis as int, positive),
{
    let cube = match registry.model(block) {
        Some(BlockModel::Cube(cube)) => cube,
        None => {
            return 0;
        },
    };
    if axis == 0 {
        if positive {
            cube.east
        } else {
            cube.west
        }
    } else if axis == 1 {
        if positive {
            cube.top
        } else {
            cube.bottom
        }
    } else {
        if positive {
            cube.south
        } else {
            cube.north
        }
    }
}

/// Exec form of `cell_coords`.
fn coords(axis: usize, along: i32, u: i32, v: i32) -> (c: (i32, i32, i32))
    ensures
        (c.0 as int, c.1 as int, c.2 as int) == cell_coords(axis as int, along as int, u as int, v as int),
{
    if axis == 0 {
        (along, u, v)
    } else if axis == 1 {
        (u, along, v)
    } else {
        (u, v, along)
    }
}

/// The face on plane `slice` of `axis` at `(u, v)`.
fn face_at(
    chunk: &ChunkSnapshot,
    neighbors: &[Option<ChunkSnapshot>; 6],
    registry: &BlockRegistry,
    axis: usize,
    slice: usize,
    u: usize,
    v: usize,
) -> (cell: Option<MaskCell>)
    requires
        snapshots_complete(*chunk, *neighbors),
        axis < 3,
        slice <= 16,
        u < 16,
        v < 16,
    ensures
        cell == face_cell(*chunk, *neighbors, *registry, axis as int, slice as int, u as int, v as int),
{
    let s = slice as i32;
    let a = coords(axis, s - 1, u as i32, v as i32);
    let b = coords(axis, s, u as i32, v as i32);
    let block_a = get_block(chunk, neighbors, a.0, a.1, a.2);
    let block_b = get_block(chunk, neighbors, b.0, b.1, b.2);
    if block_a != Block::Air && block_b == Block::Air {
        Some(
            MaskCell {
                block: block_a,
                positive: true,
                texture_index: cube_texture(block_a, axis, true, registry),
            },
        )
    } else if block_b != Block::Air && block_a == Block::Air {
        Some(
            MaskCell {
                block: block_b,
                positive: false,
                texture_index: cube_texture(block_b, axis, false, registry),
            },
        )
    } else {
        None
    }
}

/// A rectangle of `width` by `height` equal faces on a slice plane, with its
/// corner at `(u, v)`.
pub struct FaceRect {
    pub u: int,
    pub v: int,
    pub width: int,
    pub height: int,
    pub cell: MaskCell,
}

/// A face rectangle placed on the plane `slice` of `axis`.
pub struct FaceQuad {
    pub axis: int,
    pub slice: int,
    pub rect: FaceRect,
}

/// A corner point of a quad, in block units.
pub open spec fn corner(axis: int, slice: int, u: int, v: int) -> [u32; 3] {
    let c = cell_coords(axis, slice, u, v);
    [c.0 as u32, c.1 as u32, c.2 as u32]
}

/// The unit normal of a face on `axis`, pointing the way the face looks.
pub open spec fn face_normal(axis: int, positive: bool) -> [i32; 3] {
    let n: i32 = if positive { 1i32 } else { -1i32 };
    if axis == 0 {
        [n, 0, 0]
    } else if axis == 1 {
        [0, n, 0]
    } else {
        [0, 0, n]
    }
}

/// A vertex of a quad on `axis` with the given corner and texture coordinates.
pub open spec fn quad_vertex(
    axis: int,
    positive: bool,
    texture_index: u32,
    position: [u32; 3],
    s: int,
    t: int,
) -> MeshVertex {
    MeshVertex {
        position,
        tex_coords: [s as u32, t as u32],
        normal: face_normal(axis, positive),
        texture_index,
    }
}

/// The four vertices of a quad. With `p0` its corner at `(u, v)`, `p1` one
/// width along `u`, `p2` the opposite corner and `p3` one height along `v`,
/// the corners run `p0 p1 p2 p3` on the +X, -Y and +Z faces and
/// `p0 p3 p2 p1` on the others, so that every face winds counter-clockwise
/// seen from the side it faces. Texture coordinates count whole blocks. On
/// every face the first texture coordinate runs along one horizontal axis
/// (Z on the X faces, X on the others) and the second along the face's
/// other axis (Y on the side faces, counted down from the top edge; Z on
/// the top and bottom faces).
pub open spec fn quad_vertices(q: FaceQuad) -> Seq<MeshVertex> {
    let r = q.rect;
    let w = r.width;
    let h = r.height;
    let p0 = corner(q.axis, q.slice, r.u, r.v);
    let p1 = corner(q.axis, q.slice, r.u + w, r.v);
    let p2 = corner(q.axis, q.slice, r.u + w, r.v + h);
    let p3 = corner(q.axis, q.slice, r.u, r.v + h);
    let vx = |p: [u32; 3], s: int, t: int|
        quad_vertex(q.axis, r.cell.positive, r.cell.texture_index, p, s, t);
    if q.axis == 0 {
        if r.cell.positive {
            seq![vx(p0, 0, w), vx(p1, 0, 0), vx(p2, h, 0), vx(p3, h, w)]
        } else {
            seq![vx(p0, 0, w), vx(p3, h, w), vx(p2, h, 0), vx(p1, 0, 0)]
        }
    } else if q.axis == 1 {
        if r.cell.positive {
            seq![vx(p0, 0, 0), vx(p3, 0, h), vx(p2, w, h), vx(p1, w, 0)]
        } else {
            seq![vx(p0, 0, 0), vx(p1, w, 0), vx(p2, w, h), vx(p3, 0, h)]
        }
    } else {
        if r.cell.positive {
            seq![vx(p0, 0, h), vx(p1, w, h), vx(p2, w, 0), vx(p3, 0, 0)]
        } else {
            seq![vx(p0, 0, h), vx(p3, 0, 0), vx(p2, w, 0), vx(p1, w, h)]
        }
    }
}

/// The two triangles of the quad whose first vertex is `start`.
pub open spec fn quad_indices(start: int) -> Seq<u32> {
    seq![
        start as u32,
        (start + 1) as u32,
        (start + 2) as u32,
        start as u32,
        (start + 2) as u32,
        (start + 3) as u32,
    ]
}

/// Exec form of `corner`.
fn corner_point(axis: usize, slice: usize, u: usize, v: usize) -> (p: [u32; 3])
    requires
        axis < 3,
        slice <= u32::MAX,
        u <= u32::MAX,
        v <= u32::MAX,
    ensures
        p == corner(axis as int, slice as int, u as int, v as int),
{
    if axis == 0 {
        [slice as u32, u as u32, v as u32]
    } else if axis == 1 {
        [u as u32, slice as u32, v as u32]
    } else {
        [u as u32, v as u32, slice as u32]
    }
}

/// Appends the four vertices and six indices of one quad.
fn add_greedy_quad(
    vertices: &mut Vec<MeshVertex>,
    indices: &mut Vec<u32>,
    axis: usize,
    slice: usize,
    u: usize,
    v: usize,
    width: usize,
    height: usize,
    positive: bool,
    texture_index: u32,
    block: Ghost<Block>,
)
    requires
        axis < 3,
        slice <= u32::MAX,
        u + width <= u32::MAX,
        v + height <= u32::MAX,
        old(vertices)@.len() + 3 <= u32::MAX,
    ensures
        final(vertices)@ == old(vertices)@ + quad_vertices(
            FaceQuad {
                axis: axis as int,
                slice: slice as int,
                rect: FaceRect {
                    u: u as int,
                    v: v as int,
                    width: width as int,
                    height: height as int,
                    cell: MaskCell { block: block@, positive, texture_index },
                },
            },
        ),
        final(indices)@ == old(indices)@ + quad_indices(old(vertices)@.len() as int),
{
    let start = vertices.len() as u32;
    let p0 = corner_point(axis, slice, u, v);
    let p1 = corner_point(axis, slice, u + width, v);
    let p2 = corner_point(axis, slice, u + width, v + height);
    let p3 = corner_point(axis, slice, u, v + height);
    let n: i32 = if positive { 1 } else { -1 };
    let normal = if axis == 0 {
        [n, 0, 0]
    } else if axis == 1 {
        [0, n, 0]
    } else {
        [0, 0, n]
    };
    let w = width as u32;
    let h = height as u32;
    let (positions, tex_coords) = if axis == 0 {
        if positive {
            ([p0, p1, p2, p3], [[0, w], [0, 0], [h, 0], [h, w]])
        } else {
            ([p0, p3, p2, p1], [[0, w], [h, w], [h, 0], [0, 0]])
        }
    } else if axis == 1 {
        if positive {
            ([p0, p3, p2, p1], [[0, 0], [0, h], [w, h], [w, 0]])
        } else {
            ([p0, p1, p2, p3], [[0, 0], [w, 0], [w, h], [0, h]])
        }
    } else {
        if positive {
            ([p0, p1, p2, p3], [[0, h], [w, h], [w, 0], [0, 0]])
        } else {
            ([p0, p3, p2, p1], [[0, h], [0, 0], [w, 0], [w, h]])
        }
    };
    let ghost q = FaceQuad {
        axis: axis as int,
        slice: slice as int,
        rect: FaceRect {
            u: u as int,
            v: v as int,
            width: width as int,
            height: height as int,
            cell: MaskCell { block: block@, positive, texture_index },
        },
    };
    let ghost before = vertices@;
    let mut i: usize = 0;
    while i < 4
        invariant
            0 <= i <= 4,
            vertices@ == before + quad_vertices(q).subrange(0, i as int),
            quad_vertices(q).len() == 4,
            forall|k: int|
                0 <= k < 4 ==> quad_vertices(q)[k] == (MeshVertex {
                    position: positions[k],
                    tex_coords: tex_coords[k],
                    normal,
                    texture_index,
                }),
        decreases 4 - i,
    {
        vertices.push(
            MeshVertex { position: positions[i], tex_coords: tex_coords[i], normal, texture_index },
        );
        assert(quad_vertices(q).subrange(0, i + 1) =~= quad_vertices(q).subrange(0, i as int).push(
            quad_vertices(q)[i as int],
        ));
        i += 1;
    }
    assert(quad_vertices(q).subrange(0, 4) =~= quad_vertices(q));
    indices.push(start);
    indices.push(start + 1);
    indices.push(start + 2);
    indices.push(start);
    indices.push(start + 2);
    indices.push(start + 3);
    assert(indices@ =~= old(indices)@ + quad_indices(old(vertices)@.len() as int));
}

/// `a + b * d` splits back into quotient `b` and remainder `a`.
pub proof fn lemma_split_index(a: int, b: int, d: int)
    requires
        0 < d,
        0 <= a < d,
    ensures
        (a + b * d) % d == a,
        (a + b * d) / d == b,
{
    vstd::arithmetic::div_mod::lemma_fundamental_div_mod_converse(a + b * d, d, b, a);
}

/// The cell at `(u, v)` of a slice mask, stored row by row.
pub open spec fn mask_at(m: Seq<Option<MaskCell>>, u: int, v: int) -> Option<MaskCell> {
    m[u + v * 16]
}

/// The faces of plane `slice` of `axis`, row by row (`u` fastest).
pub open spec fn face_mask(
    chunk: ChunkSnapshot,
    neighbors: [Option<ChunkSnapshot>; 6],
    registry: BlockRegistry,
    axis: int,
    slice: int,
) -> Seq<Option<MaskCell>> {
    Seq::new(256, |i: int| face_cell(chunk, neighbors, registry, axis, slice, i % 16, i / 16))
}

/// How many cells equal to `cell` follow one another in row `v` from `u` on.
pub open spec fn run_length(m: Seq<Option<MaskCell>>, u: int, v: int, cell: MaskCell) -> int
    decreases 16 - u,
{
    if 0 <= u < 16 && mask_at(m, u, v) == Some(cell) {
        1 + run_length(m, u + 1, v, cell)
    } else {
        0
    }
}

/// Whether the `width` cells of row `v` from `u` on all equal `cell`.
pub open spec fn row_matches(m: Seq<Option<MaskCell>>, u: int, v: int, width: int, cell: MaskCell) -> bool {
    forall|k: int| 0 <= k < width ==> #[trigger] mask_at(m, u + k, v) == Some(cell)
}

/// How many rows from `v` on match `cell` across `width` cells from `u` on.
pub open spec fn run_height(
    m: Seq<Option<MaskCell>>,
    u: int,
    v: int,
    width: int,
    cell: MaskCell,
) -> int
    decreases 16 - v,
{
    if 0 <= v < 16 && row_matches(m, u, v, width, cell) {
        1 + run_height(m, u, v + 1, width, cell)
    } else {
        0
    }
}

/// Whether the cell `(u, v)` lies inside the rectangle.
pub open spec fn in_rect(r: FaceRect, u: int, v: int) -> bool {
    r.u <= u < r.u + r.width && r.v <= v < r.v + r.height
}

/// The mask with the cells of the rectangle emptied.
pub open spec fn clear_rect(m: Seq<Option<MaskCell>>, r: FaceRect) -> Seq<Option<MaskCell>> {
    Seq::new(m.len(), |i: int| if in_rect(r, i % 16, i / 16) { None } else { m[i] })
}

/// A run that starts on a face is at least one cell long and stays in the row.
pub proof fn lemma_run_length_bounds(m: Seq<Option<MaskCell>>, u: int, v: int, cell: MaskCell)
    requires
        0 <= u <= 16,
    ensures
        0 <= run_length(m, u, v, cell) <= 16 - u,
        u < 16 && mask_at(m, u, v) == Some(cell) ==> run_length(m, u, v, cell) >= 1,
    decreases 16 - u,
{
    if u < 16 {
        lemma_run_length_bounds(m, u + 1, v, cell);
    }
}

/// The greedy merge of a slice mask, scanning from `(u, v)` in row order:
/// at the first face found it takes the longest run of equal faces along
/// the row, grows it over as many following rows as match across that whole
/// width, records the rectangle, empties its cells, and continues after it.
pub open spec fn greedy_from(m: Seq<Option<MaskCell>>, u: int, v: int) -> Seq<FaceRect>
    decreases 16 - v, 16 - u,
{
    if v < 0 || v >= 16 || u < 0 {
        seq![]
    } else if u >= 16 {
        greedy_from(m, 0, v + 1)
    } else {
        match mask_at(m, u, v) {
            None => greedy_from(m, u + 1, v),
            Some(cell) => {
                let width = run_length(m, u, v, cell);
                let rect = FaceRect {
                    u,
                    v,
                    width,
                    height: run_height(m, u, v, width, cell),
                    cell,
                };
                proof {
                    lemma_run_length_bounds(m, u, v, cell);
                }
                seq![rect] + greedy_from(clear_rect(m, rect), u + width, v)
            },
        }
    }
}

/// The quads of one slice plane.
pub open spec fn slice_quads(
    chunk: ChunkSnapshot,
    neighbors: [Option<ChunkSnapshot>; 6],
    registry: BlockRegistry,
    axis: int,
    slice: int,
) -> Seq<FaceQuad> {
    tag_rects(axis, slice, greedy_from(face_mask(chunk, neighbors, registry, axis, slice), 0, 0))
}

/// The rectangles placed on plane `slice` of `axis`.
pub open spec fn tag_rects(axis: int, slice: int, rects: Seq<FaceRect>) -> Seq<FaceQuad> {
    rects.map_values(|r: FaceRect| FaceQuad { axis, slice, rect: r })
}

/// The quads of the first `k` slice planes, taken axis by axis (X, Y, Z)
/// and, on each axis, plane by plane from 0 to `CHUNK_SIZE`.
pub open spec fn quads_before(
    chunk: ChunkSnapshot,
    neighbors: [Option<ChunkSnapshot>; 6],
    registry: BlockRegistry,
    k: int,
) -> Seq<FaceQuad>
    decreases k,
{
    if k <= 0 {
        seq![]
    } else {
        quads_before(chunk, neighbors, registry, k - 1) + slice_quads(
            chunk,
            neighbors,
            registry,
            (k - 1) / 17,
            (k - 1) % 17,
        )
    }
}

/// All quads of a chunk's mesh, in the order they are emitted.
pub open spec fn mesh_quads(
    chunk: ChunkSnapshot,
    neighbors: [Option<ChunkSnapshot>; 6],
    registry: BlockRegistry,
) -> Seq<FaceQuad> {
    quads_before(chunk, neighbors, registry, 51)
}

/// The vertices of a sequence of quads, four per quad.
pub open spec fn quads_vertices(qs: Seq<FaceQuad>) -> Seq<MeshVertex>
    decreases qs.len(),
{
    if qs.len() == 0 {
        seq![]
    } else {
        quads_vertices(qs.drop_last()) + quad_vertices(qs.last())
    }
}

/// The indices of a sequence of quads, six per quad, the `k`-th quad
/// starting at vertex `4 * k`.
pub open spec fn quads_indices(qs: Seq<FaceQuad>) -> Seq<u32>
    decreases qs.len(),
{
    if qs.len() == 0 {
        seq![]
    } else {
        quads_indices(qs.drop_last()) + quad_indices(4 * (qs.len() - 1))
    }
}

/// Whether the mask cell holds `cell`.
fn holds(entry: Option<MaskCell>, cell: MaskCell) -> (b: bool)
    ensures
        b == (entry == Some(cell)),
{
    match entry {
        Some(c) => c == cell,
        None => false,
    }
}

/// Exec form of `row_matches`.
fn row_matches_exec(mask: &Vec<Option<MaskCell>>, u: usize, v: usize, width: usize, cell: MaskCell) -> (b: bool)
    requires
        mask@.len() == 256,
        u + width <= 16,
        v < 16,
    ensures
        b == row_matches(mask@, u as int, v as int, width as int, cell),
{
    let mut x: usize = 0;
    while x < width
        invariant
            x <= width,
            u + width <= 16,
            v < 16,
            mask@.len() == 256,
            row_matches(mask@, u as int, v as int, x as int, cell),
        decreases width - x,
    {
        if !holds(mask[(u + x) + v * CHUNK_SIZE], cell) {
            assert(mask_at(mask@, u + x, v as int) != Some(cell));
            return false;
        }
        x += 1;
    }
    true
}

/// Length of the run of `cell` along row `v` from `u`.
fn face_width(mask: &Vec<Option<MaskCell>>, u: usize, v: usize, cell: MaskCell) -> (width: usize)
    requires
        mask@.len() == 256,
        u < 16,
        v < 16,
        mask_at(mask@, u as int, v as int) == Some(cell),
    ensures
        width == run_length(mask@, u as int, v as int, cell),
        1 <= width <= 16 - u,
        row_matches(mask@, u as int, v as int, width as int, cell),
{
    let mut width: usize = 1;
    while u + width < CHUNK_SIZE
        invariant
            1 <= width,
            u + width <= 16,
            v < 16,
            mask@.len() == 256,
            row_matches(mask@, u as int, v as int, width as int, cell),
        ensures
            1 <= width,
            u + width <= 16,
            row_matches(mask@, u as int, v as int, width as int, cell),
            u + width == 16 || mask_at(mask@, u + width, v as int) != Some(cell),
        decreases 16 - width,
    {
        if !holds(mask[(u + width) + v * CHUNK_SIZE], cell) {
            break;
        }
        width += 1;
    }
    proof {
        lemma_run_length_exact(mask@, u as int, v as int, cell, width as int);
    }
    width
}

/// A run that matches for `w` cells and then stops has length `w`.
proof fn lemma_run_length_exact(m: Seq<Option<MaskCell>>, u: int, v: int, cell: MaskCell, w: int)
    requires
        0 <= u,
        0 <= w,
        u + w <= 16,
        row_matches(m, u, v, w, cell),
        u + w == 16 || mask_at(m, u + w, v) != Some(cell),
    ensures
        run_length(m, u, v, cell) == w,
    decreases w,
{
    if w > 0 {
        assert(mask_at(m, u + 0, v) == Some(cell));
        assert(row_matches(m, u + 1, v, w - 1, cell)) by {
            assert forall|k: int| 0 <= k < w - 1 implies #[trigger] mask_at(m, u + 1 + k, v) == Some(
                cell,
            ) by {
                assert(mask_at(m, u + (k + 1), v) == Some(cell));
            }
        }
        lemma_run_length_exact(m, u + 1, v, cell, w - 1);
    }
}

/// Rows that match for `h` rows and then stop give a height of `h`.
proof fn lemma_run_height_exact(
    m: Seq<Option<MaskCell>>,
    u: int,
    v: int,
    width: int,
    cell: MaskCell,
    h: int,
)
    requires
        0 <= v,
        0 <= h,
        v + h <= 16,
        forall|k: int| 0 <= k < h ==> row_matches(m, u, #[trigger] (v + k), width, cell),
        v + h == 16 || !row_matches(m, u, v + h, width, cell),
    ensures
        run_height(m, u, v, width, cell) == h,
    decreases h,
{
    if h > 0 {
        assert(row_matches(m, u, v + 0, width, cell));
        assert forall|k: int| 0 <= k < h - 1 implies row_matches(m, u, #[trigger] ((v + 1) + k), width, cell) by {
            assert(row_matches(m, u, v + (k + 1), width, cell));
        }
        lemma_run_height_exact(m, u, v + 1, width, cell, h - 1);
    }
}

/// Number of rows from `v` on that match `cell` across `width` cells.
fn face_height(mask: &Vec<Option<MaskCell>>, u: usize, v: usize, width: usize, cell: MaskCell) -> (height: usize)
    requires
        mask@.len() == 256,
        u + width <= 16,
        v < 16,
        row_matches(mask@, u as int, v as int, width as int, cell),
    ensures
        height == run_height(mask@, u as int, v as int, width as int, cell),
        1 <= height <= 16 - v,
{
    let mut height: usize = 1;
    while v + height < CHUNK_SIZE
        invariant
            1 <= height,
            v + height <= 16,
            u + width <= 16,
            mask@.len() == 256,
            forall|k: int| 0 <= k < height ==> row_matches(mask@, u as int, #[trigger] (v + k), width as int, cell),
        ensures
            1 <= height,
            v + height <= 16,
            forall|k: int| 0 <= k < height ==> row_matches(mask@, u as int, #[trigger] (v + k), width as int, cell),
            v + height == 16 || !row_matches(mask@, u as int, v + height, width as int, cell),
        decreases 16 - height,
    {
        if !row_matches_exec(mask, u, v + height, width, cell) {
            break;
        }
        height += 1;
    }
    proof {
        assert(row_matches(mask@, u as int, v + 0, width as int, cell));
        lemma_run_height_exact(mask@, u as int, v as int, width as int, cell, height as int);
    }
    height
}

/// The rectangle with its height cut to `height`.
pub open spec fn with_height(r: FaceRect, height: int) -> FaceRect {
    FaceRect { u: r.u, v: r.v, width: r.width, height, cell: r.cell }
}

/// Empties the cells of a rectangle in the mask.
fn clear_face_rect(
    mask: &mut Vec<Option<MaskCell>>,
    u: usize,
    v: usize,
    width: usize,
    height: usize,
    rect: Ghost<FaceRect>,
)
    requires
        old(mask)@.len() == 256,
        u + width <= 16,
        v + height <= 16,
        rect@.u == u,
        rect@.v == v,
        rect@.width == width,
        rect@.height == height,
    ensures
        final(mask)@ == clear_rect(old(mask)@, rect@),
{
    let ghost m = mask@;
    let mut y: usize = 0;
    while y < height
        invariant
            y <= height,
            u + width <= 16,
            v + height <= 16,
            rect@.u == u,
            rect@.v == v,
            rect@.width == width,
            mask@.len() == 256,
            forall|i: int|
                0 <= i < 256 ==> #[trigger] mask@[i] == (if in_rect(
                    with_height(rect@, y as int),
                    i % 16,
                    i / 16,
                ) {
                    None
                } else {
                    m[i]
                }),
        decreases height - y,
    {
        let mut x: usize = 0;
        while x < width
            invariant
                x <= width,
                y < height,
                u + width <= 16,
                v + height <= 16,
                rect@.u == u,
                rect@.v == v,
                rect@.width == width,
                mask@.len() == 256,
                forall|i: int|
                    0 <= i < 256 ==> #[trigger] mask@[i] == (if in_rect(
                        with_height(rect@, y as int),
                        i % 16,
                        i / 16,
                    ) || (i / 16 == v + y && u <= i % 16 < u + x) {
                        None
                    } else {
                        m[i]
                    }),
            decreases width - x,
        {
            let ghost before = mask@;
            let j = (u + x) + (v + y) * CHUNK_SIZE;
            mask.set(j, None);
            proof {
                lemma_split_index((u + x) as int, (v + y) as int, 16);
                assert forall|i: int| 0 <= i < 256 implies #[trigger] mask@[i] == (if in_rect(
                    with_height(rect@, y as int),
                    i % 16,
                    i / 16,
                ) || (i / 16 == v + y && u <= i % 16 < u + x + 1) {
                    None
                } else {
                    m[i]
                }) by {
                    vstd::arithmetic::div_mod::lemma_fundamental_div_mod(i, 16);
                    if i != j {
                        assert(mask@[i] == before[i]);
                        if i / 16 == v + y && i % 16 == u + x {
                            assert(i == (i % 16) + (i / 16) * 16);
                            assert(false);
                        }
                    }
                }
            }
            x += 1;
        }
        assert forall|i: int| 0 <= i < 256 implies #[trigger] mask@[i] == (if in_rect(
            with_height(rect@, (y + 1) as int),
            i % 16,
            i / 16,
        ) {
            None
        } else {
            m[i]
        }) by {}
        y += 1;
    }
    assert(mask@ =~= clear_rect(m, rect@));
}

/// The face mask of plane `slice` of `axis`.
fn build_mask(
    chunk: &ChunkSnapshot,
    neighbors: &[Option<ChunkSnapshot>; 6],
    registry: &BlockRegistry,
    axis: usize,
    slice: usize,
) -> (mask: Vec<Option<MaskCell>>)
    requires
        snapshots_complete(*chunk, *neighbors),
        axis < 3,
        slice <= 16,
    ensures
        mask@ == face_mask(*chunk, *neighbors, *registry, axis as int, slice as int),
{
    let mut mask: Vec<Option<MaskCell>> = Vec::new();
    let mut v: usize = 0;
    while v < CHUNK_SIZE
        invariant
            v <= 16,
            axis < 3,
            slice <= 16,
            snapshots_complete(*chunk, *neighbors),
            mask@.len() == v * 16,
            forall|i: int|
                0 <= i < mask@.len() ==> #[trigger] mask@[i] == face_cell(
                    *chunk,
                    *neighbors,
                    *registry,
                    axis as int,
                    slice as int,
                    i % 16,
                    i / 16,
                ),
        decreases 16 - v,
    {
        let mut u: usize = 0;
        while u < CHUNK_SIZE
            invariant
                u <= 16,
                v < 16,
                axis < 3,
                slice <= 16,
                snapshots_complete(*chunk, *neighbors),
                mask@.len() == v * 16 + u,
                forall|i: int|
                    0 <= i < mask@.len() ==> #[trigger] mask@[i] == face_cell(
                        *chunk,
                        *neighbors,
                        *registry,
                        axis as int,
                        slice as int,
                        i % 16,
                        i / 16,
                    ),
            decreases 16 - u,
        {
            let cell = face_at(chunk, neighbors, registry, axis, slice, u, v);
            proof {
                lemma_split_index(u as int, v as int, 16);
            }
            mask.push(cell);
            u += 1;
        }
        v += 1;
    }
    assert(mask@ =~= face_mask(*chunk, *neighbors, *registry, axis as int, slice as int));
    mask
}

/// The greedy scan makes at most one rectangle per remaining cell.
pub proof fn lemma_greedy_len(m: Seq<Option<MaskCell>>, u: int, v: int)
    requires
        0 <= u <= 16,
        0 <= v < 16,
    ensures
        greedy_from(m, u, v).len() + 16 * v + u <= 256,
    decreases 16 - v, 16 - u,
{
    if u >= 16 {
        if v + 1 < 16 {
            lemma_greedy_len(m, 0, v + 1);
        }
    } else {
        match mask_at(m, u, v) {
            None => {
                lemma_greedy_len(m, u + 1, v);
            },
            Some(cell) => {
                let width = run_length(m, u, v, cell);
                let rect = FaceRect {
                    u,
                    v,
                    width,
                    height: run_height(m, u, v, width, cell),
                    cell,
                };
                lemma_run_length_bounds(m, u, v, cell);
                lemma_greedy_len(clear_rect(m, rect), u + width, v);
            },
        }
    }
}

/// Appending one quad appends its four vertices and its six indices.
proof fn lemma_push_quad(qs: Seq<FaceQuad>, q: FaceQuad)
    ensures
        quads_vertices(qs.push(q)) == quads_vertices(qs) + quad_vertices(q),
        quads_indices(qs.push(q)) == quads_indices(qs) + quad_indices((4 * qs.len()) as int),
{
    assert(qs.push(q).drop_last() =~= qs);
}

/// Four vertices per quad.
pub proof fn lemma_quads_vertices_len(qs: Seq<FaceQuad>)
    ensures
        quads_vertices(qs).len() == 4 * qs.len(),
    decreases qs.len(),
{
    if qs.len() > 0 {
        lemma_quads_vertices_len(qs.drop_last());
    }
}

/// Emits the greedy quads of one slice mask, emptying the mask.
fn emit_slice_quads(
    vertices: &mut Vec<MeshVertex>,
    indices: &mut Vec<u32>,
    mask: &mut Vec<Option<MaskCell>>,
    axis: usize,
    slice: usize,
    all: Ghost<Seq<FaceQuad>>,
)
    requires
        old(mask)@.len() == 256,
        axis < 3,
        slice <= 16,
        old(vertices)@ == quads_vertices(all@),
        old(indices)@ == quads_indices(all@),
        all@.len() <= 256 * 50,
    ensures
        final(vertices)@ == quads_vertices(all@ + tag_rects(axis as int, slice as int, greedy_from(old(mask)@, 0, 0))),
        final(indices)@ == quads_indices(all@ + tag_rects(axis as int, slice as int, greedy_from(old(mask)@, 0, 0))),
{
    let ghost m0 = mask@;
    let ghost mut done: Seq<FaceRect> = seq![];
    proof {
        lemma_greedy_len(m0, 0, 0);
        lemma_quads_vertices_len(all@);
        assert(done + greedy_from(m0, 0, 0) =~= greedy_from(m0, 0, 0));
        assert(all@ + tag_rects(axis as int, slice as int, done) =~= all@);
    }
    let mut v: usize = 0;
    while v < CHUNK_SIZE
        invariant
            v <= 16,
            axis < 3,
            slice <= 16,
            mask@.len() == 256,
            v < 16 ==> done + greedy_from(mask@, 0, v as int) == greedy_from(m0, 0, 0),
            v == 16 ==> done == greedy_from(m0, 0, 0),
            greedy_from(m0, 0, 0).len() <= 256,
            vertices@ == quads_vertices(all@ + tag_rects(axis as int, slice as int, done)),
            indices@ == quads_indices(all@ + tag_rects(axis as int, slice as int, done)),
            vertices@.len() == 4 * (all@.len() + done.len()),
            all@.len() <= 256 * 50,
        decreases 16 - v,
    {
        let mut u: usize = 0;
        while u < CHUNK_SIZE
            invariant
                u <= 16,
                v < 16,
                axis < 3,
                slice <= 16,
                mask@.len() == 256,
                done + greedy_from(mask@, u as int, v as int) == greedy_from(m0, 0, 0),
                greedy_from(m0, 0, 0).len() <= 256,
                vertices@ == quads_vertices(all@ + tag_rects(axis as int, slice as int, done)),
                indices@ == quads_indices(all@ + tag_rects(axis as int, slice as int, done)),
                vertices@.len() == 4 * (all@.len() + done.len()),
                all@.len() <= 256 * 50,
            decreases 16 - u,
        {
            let index = u + v * CHUNK_SIZE;
            match mask[index] {
                None => {
                    u += 1;
                },
                Some(face) => {
                    let width = face_width(mask, u, v, face);
                    let height = face_height(mask, u, v, width, face);
                    let ghost rect = FaceRect {
                        u: u as int,
                        v: v as int,
                        width: width as int,
                        height: height as int,
                        cell: face,
                    };
                    let ghost q = FaceQuad { axis: axis as int, slice: slice as int, rect };
                    let ghost xs = all@ + tag_rects(axis as int, slice as int, done);
                    proof {
                        assert(greedy_from(mask@, u as int, v as int) == seq![rect] + greedy_from(
                            clear_rect(mask@, rect),
                            u + width,
                            v as int,
                        ));
                        lemma_greedy_len(mask@, u as int, v as int);
                        lemma_push_quad(xs, q);
                    }
                    add_greedy_quad(
                        vertices,
                        indices,
                        axis,
                        slice,
                        u,
                        v,
                        width,
                        height,
                        face.positive,
                        face.texture_index,
                        Ghost(face.block),
                    );
                    let ghost before = mask@;
                    clear_face_rect(mask, u, v, width, height, Ghost(rect));
                    proof {
                        assert(tag_rects(axis as int, slice as int, done.push(rect)) =~= tag_rects(
                            axis as int,
                            slice as int,
                            done,
                        ).push(q));
                        assert(all@ + tag_rects(axis as int, slice as int, done.push(rect)) =~= xs.push(q));
                        assert(done.push(rect) + greedy_from(mask@, u + width, v as int) =~= done + (
                        seq![rect] + greedy_from(clear_rect(before, rect), u + width, v as int)));
                        done = done.push(rect);
                    }
                    u += width;
                },
            }
        }
        proof {
            if v + 1 < 16 {
                assert(greedy_from(mask@, 16, v as int) == greedy_from(mask@, 0, v + 1));
            } else {
                assert(greedy_from(mask@, 16, v as int) == greedy_from(mask@, 0, v + 1));
                assert(greedy_from(mask@, 0, 16) =~= Seq::<FaceRect>::empty());
                assert(done =~= greedy_from(m0, 0, 0));
            }
        }
        v += 1;
    }
}

/// Greedy-merges the faces of every slice plane of the chunk into quads.
fn build_greedy_mesh(
    chunk: &ChunkSnapshot,
    neighbors: &[Option<ChunkSnapshot>; 6],
    registry: &BlockRegistry,
) -> (mesh: ChunkMesh)
    requires
        snapshots_complete(*chunk, *neighbors),
    ensures
        mesh.vertices@ == quads_vertices(mesh_quads(*chunk, *neighbors, *registry)),
        mesh.indices@ == quads_indices(mesh_quads(*chunk, *neighbors, *registry)),
        mesh_quads(*chunk, *neighbors, *registry).len() <= 51 * 256,
{
    let mut vertices: Vec<MeshVertex> = Vec::new();
    let mut indices: Vec<u32> = Vec::new();
    let ghost mut all: Seq<FaceQuad> = seq![];
    let mut axis: usize = 0;
    while axis < 3
        invariant
            axis <= 3,
            snapshots_complete(*chunk, *neighbors),
            all == quads_before(*chunk, *neighbors, *registry, axis * 17),
            all.len() <= 256 * (axis * 17),
            vertices@ == quads_vertices(all),
            indices@ == quads_indices(all),
        decreases 3 - axis,
    {
        let mut slice: usize = 0;
        while slice <= CHUNK_SIZE
            invariant
                axis < 3,
                slice <= 17,
                snapshots_complete(*chunk, *neighbors),
                all == quads_before(*chunk, *neighbors, *registry, axis * 17 + slice),
                all.len() <= 256 * (axis * 17 + slice),
                vertices@ == quads_vertices(all),
                indices@ == quads_indices(all),
            decreases 17 - slice,
        {
            let mut mask = build_mask(chunk, neighbors, registry, axis, slice);
            let ghost m0 = mask@;
            emit_slice_quads(&mut vertices, &mut indices, &mut mask, axis, slice, Ghost(all));
            proof {
                let k = axis * 17 + slice;
                lemma_split_index(slice as int, axis as int, 17);
                lemma_greedy_len(m0, 0, 0);
                assert(quads_before(*chunk, *neighbors, *registry, k + 1) == quads_before(
                    *chunk,
                    *neighbors,
                    *registry,
                    k as int,
                ) + slice_quads(*chunk, *neighbors, *registry, axis as int, slice as int));
                all = all + slice_quads(*chunk, *neighbors, *registry, axis as int, slice as int);
            }
            slice += 1;
        }
        axis += 1;
    }
    ChunkMesh { vertices, indices }
}

/// The greedy mesh of a chunk, reading the boundary layers of its six
/// neighbours (-X, +X, -Y, +Y, -Z, +Z) to decide which boundary faces show.
/// Every index names one of the mesh's vertices.
pub fn build_chunk_mesh(
    chunk: &ChunkSnapshot,
    neighbors: &[Option<ChunkSnapshot>; 6],
    registry: &BlockRegistry,
) -> (mesh: ChunkMesh)
    requires
        snapshots_complete(*chunk, *neighbors),
    ensures
        mesh.vertices@ == quads_vertices(mesh_quads(*chunk, *neighbors, *registry)),
        mesh.indices@ == quads_indices(mesh_quads(*chunk, *neighbors, *registry)),
        forall|j: int| 0 <= j < mesh.indices@.len() ==> #[trigger] mesh.indices@[j] < mesh.vertices@.len(),
{
    let mesh = build_greedy_mesh(chunk, neighbors, registry);
    proof {
        lemma_mesh_indices_in_range(mesh_quads(*chunk, *neighbors, *registry));
    }
    mesh
}

/// A rectangle that lies inside the 16 by 16 plane, covers at least one
/// cell, and whose every cell holds its face in the mask.
pub open spec fn rect_fits(m: Seq<Option<MaskCell>>, r: FaceRect) -> bool {
    &&& 1 <= r.width
    &&& 1 <= r.height
    &&& 0 <= r.u
    &&& r.u + r.width <= 16
    &&& 0 <= r.v
    &&& r.v + r.height <= 16
    &&& forall|x: int, y: int| #[trigger] in_rect(r, x, y) ==> mask_at(m, x, y) == Some(r.cell)
}

/// A run is a run: every cell it counts holds the face.
proof fn lemma_run_length_matches(m: Seq<Option<MaskCell>>, u: int, v: int, cell: MaskCell)
    requires
        0 <= u <= 16,
    ensures
        row_matches(m, u, v, run_length(m, u, v, cell), cell),
    decreases 16 - u,
{
    if u < 16 && mask_at(m, u, v) == Some(cell) {
        lemma_run_length_matches(m, u + 1, v, cell);
        let w = run_length(m, u, v, cell);
        assert forall|k: int| 0 <= k < w implies #[trigger] mask_at(m, u + k, v) == Some(cell) by {
            if k > 0 {
                assert(mask_at(m, (u + 1) + (k - 1), v) == Some(cell));
            }
        }
    }
}

/// Every row a height counts matches, and the height stays in the plane.
proof fn lemma_run_height_rows(m: Seq<Option<MaskCell>>, u: int, v: int, width: int, cell: MaskCell)
    requires
        0 <= v <= 16,
    ensures
        0 <= run_height(m, u, v, width, cell) <= 16 - v,
        forall|k: int|
            0 <= k < run_height(m, u, v, width, cell) ==> row_matches(m, u, #[trigger] (v + k), width, cell),
    decreases 16 - v,
{
    if 0 <= v < 16 && row_matches(m, u, v, width, cell) {
        lemma_run_height_rows(m, u, v + 1, width, cell);
        assert forall|k: int| 0 <= k < run_height(m, u, v, width, cell) implies row_matches(m, u, #[trigger] (v + k), width, cell) by {
            if k > 0 {
                assert(row_matches(m, u, (v + 1) + (k - 1), width, cell));
            }
        }
    }
}

/// Reading a cleared mask: cells of the rectangle are empty, the rest unchanged.
proof fn lemma_clear_rect_at(m: Seq<Option<MaskCell>>, r: FaceRect, x: int, y: int)
    requires
        m.len() == 256,
        0 <= x < 16,
        0 <= y < 16,
    ensures
        mask_at(clear_rect(m, r), x, y) == (if in_rect(r, x, y) { None } else { mask_at(m, x, y) }),
{
    lemma_split_index(x, y, 16);
}

/// The exact-cover property of the greedy scan from `(u, v)` on, proved by
/// following the scan.
proof fn lemma_greedy_cover_from(m: Seq<Option<MaskCell>>, u: int, v: int)
    requires
        m.len() == 256,
        0 <= u <= 16,
        0 <= v < 16,
    ensures
        forall|i: int|
            0 <= i < greedy_from(m, u, v).len() ==> rect_fits(m, #[trigger] greedy_from(m, u, v)[i])
                && greedy_from(m, u, v)[i].u + 16 * greedy_from(m, u, v)[i].v >= u + 16 * v,
        forall|i: int, j: int, x: int, y: int|
            0 <= i < j < greedy_from(m, u, v).len() ==> !(#[trigger] in_rect(greedy_from(m, u, v)[i], x, y)
                && #[trigger] in_rect(greedy_from(m, u, v)[j], x, y)),
        forall|x: int, y: int|
            0 <= x < 16 && 0 <= y < 16 && x + 16 * y >= u + 16 * v && (#[trigger] mask_at(m, x, y)) is Some
                ==> exists|i: int| 0 <= i < greedy_from(m, u, v).len() && #[trigger] in_rect(greedy_from(m, u, v)[i], x, y),
    decreases 16 - v, 16 - u,
{
    let rs = greedy_from(m, u, v);
    if u >= 16 {
        if v + 1 < 16 {
            lemma_greedy_cover_from(m, 0, v + 1);
        } else {
            assert(greedy_from(m, 0, v + 1) =~= Seq::<FaceRect>::empty());
            assert(rs.len() == 0);
        }
    } else {
        match mask_at(m, u, v) {
            None => {
                lemma_greedy_cover_from(m, u + 1, v);
                assert forall|x: int, y: int|
                    0 <= x < 16 && 0 <= y < 16 && x + 16 * y >= u + 16 * v && (#[trigger] mask_at(m, x, y)) is Some
                    implies exists|i: int| 0 <= i < rs.len() && #[trigger] in_rect(rs[i], x, y) by {
                    if x + 16 * y == u + 16 * v {
                        lemma_split_index(x, y, 16);
                        lemma_split_index(u, v, 16);
                    }
                }
            },
            Some(cell) => {
                let width = run_length(m, u, v, cell);
                let height = run_height(m, u, v, width, cell);
                let r0 = FaceRect { u, v, width, height, cell };
                let m2 = clear_rect(m, r0);
                let rest = greedy_from(m2, u + width, v);
                lemma_run_length_bounds(m, u, v, cell);
                lemma_run_length_matches(m, u, v, cell);
                lemma_run_height_rows(m, u, v, width, cell);
                lemma_run_height_rows(m, u, v + 1, width, cell);
                assert(row_matches(m, u, v, width, cell));
                assert(height >= 1);
                lemma_greedy_cover_from(m2, u + width, v);
                assert(rs == seq![r0] + rest);
                assert forall|x: int, y: int| #[trigger] in_rect(r0, x, y) implies mask_at(m, x, y) == Some(cell) by {
                    assert(row_matches(m, u, v + (y - v), width, cell));
                    assert(mask_at(m, u + (x - u), y) == Some(cell));
                }
                assert(rect_fits(m, r0));
                assert forall|i: int| 0 <= i < rs.len() implies rect_fits(m, #[trigger] rs[i]) && rs[i].u + 16 * rs[i].v >= u + 16 * v by {
                    if i > 0 {
                        let r = rest[i - 1];
                        assert(rs[i] == r);
                        assert(rect_fits(m2, r));
                        assert forall|x: int, y: int| #[trigger] in_rect(r, x, y) implies mask_at(m, x, y) == Some(r.cell) by {
                            lemma_clear_rect_at(m, r0, x, y);
                        }
                    }
                }
                assert forall|i: int, j: int, x: int, y: int|
                    0 <= i < j < rs.len() implies !(#[trigger] in_rect(rs[i], x, y) && #[trigger] in_rect(rs[j], x, y)) by {
                    if i == 0 {
                        let r = rest[j - 1];
                        assert(rs[j] == r);
                        if in_rect(r0, x, y) && in_rect(r, x, y) {
                            assert(rect_fits(m2, r));
                            lemma_clear_rect_at(m, r0, x, y);
                            assert(false);
                        }
                    } else {
                        assert(rs[i] == rest[i - 1]);
                        assert(rs[j] == rest[j - 1]);
                    }
                }
                assert forall|x: int, y: int|
                    0 <= x < 16 && 0 <= y < 16 && x + 16 * y >= u + 16 * v && (#[trigger] mask_at(m, x, y)) is Some
                    implies exists|i: int| 0 <= i < rs.len() && #[trigger] in_rect(rs[i], x, y) by {
                    if in_rect(r0, x, y) {
                        assert(in_rect(rs[0], x, y));
                    } else {
                        lemma_clear_rect_at(m, r0, x, y);
                        assert(mask_at(m2, x, y) is Some);
                        if x + 16 * y < (u + width) + 16 * v {
                            assert(y == v) by {
                                lemma_split_index(x, y, 16);
                                lemma_split_index(u, v, 16);
                                if y > v {
                                    assert(x + 16 * y >= 16 * v + 16);
                                }
                                if y < v {
                                    assert(x + 16 * y < 16 * v);
                                }
                            }
                            assert(in_rect(r0, x, y));
                        }
                        let k = choose|k: int| 0 <= k < rest.len() && #[trigger] in_rect(rest[k], x, y);
                        assert(rs[k + 1] == rest[k]);
                        assert(in_rect(rs[k + 1], x, y));
                    }
                }
            },
        }
    }
}

/// The greedy merge of a slice is an exact cover of its faces: every
/// rectangle lies in the plane and shows one face kind over all its cells,
/// no two rectangles share a cell, and every face of the mask lies in some
/// rectangle. So each visible face is drawn exactly once, with its own
/// texture and direction.
pub proof fn lemma_greedy_exact_cover(m: Seq<Option<MaskCell>>)
    requires
        m.len() == 256,
    ensures
        forall|i: int| 0 <= i < greedy_from(m, 0, 0).len() ==> rect_fits(m, #[trigger] greedy_from(m, 0, 0)[i]),
        forall|i: int, j: int, x: int, y: int|
            0 <= i < j < greedy_from(m, 0, 0).len() ==> !(#[trigger] in_rect(greedy_from(m, 0, 0)[i], x, y)
                && #[trigger] in_rect(greedy_from(m, 0, 0)[j], x, y)),
        forall|x: int, y: int|
            0 <= x < 16 && 0 <= y < 16 && (#[trigger] mask_at(m, x, y)) is Some ==> exists|i: int|
                0 <= i < greedy_from(m, 0, 0).len() && #[trigger] in_rect(greedy_from(m, 0, 0)[i], x, y),
{
    lemma_greedy_cover_from(m, 0, 0);
}

/// A mesh of `n` quads has `4 n` vertices and `6 n` indices, and every index
/// names one of its vertices.
pub proof fn lemma_mesh_indices_in_range(qs: Seq<FaceQuad>)
    requires
        4 * qs.len() <= u32::MAX + 1,
    ensures
        quads_vertices(qs).len() == 4 * qs.len(),
        quads_indices(qs).len() == 6 * qs.len(),
        forall|j: int| 0 <= j < quads_indices(qs).len() ==> #[trigger] quads_indices(qs)[j] < 4 * qs.len(),
    decreases qs.len(),
{
    lemma_quads_vertices_len(qs);
    if qs.len() > 0 {
        let front = qs.drop_last();
        lemma_mesh_indices_in_range(front);
        let base = 4 * (qs.len() - 1);
        assert forall|j: int| 0 <= j < quads_indices(qs).len() implies #[trigger] quads_indices(qs)[j] < 4 * qs.len() by {
            if j >= quads_indices(front).len() {
                let t = j - quads_indices(front).len();
                assert(quads_indices(qs)[j] == quad_indices(base)[t]);
            } else {
                assert(quads_indices(qs)[j] == quads_indices(front)[j]);
            }
        }
    }
}

/// Every block lookup that meshing makes is inside the chunk or one step
/// past exactly one of its faces: on a slice plane the two cells compared lie
/// at `slice - 1` and `slice` along the axis (so between -1 and 16) and
/// inside the chunk on the two other axes.
pub proof fn lemma_mesh_lookups_cross_one_face(axis: int, slice: int, u: int, v: int)
    requires
        0 <= axis < 3,
        0 <= slice <= 16,
        0 <= u < 16,
        0 <= v < 16,
    ensures
        ({
            let a = cell_coords(axis, slice - 1, u, v);
            let b = cell_coords(axis, slice, u, v);
            &&& (in_range(a.0) as int) + (in_range(a.1) as int) + (in_range(a.2) as int) >= 2
            &&& (in_range(b.0) as int) + (in_range(b.1) as int) + (in_range(b.2) as int) >= 2
            &&& -1 <= a.0 <= 16 && -1 <= a.1 <= 16 && -1 <= a.2 <= 16
            &&& -1 <= b.0 <= 16 && -1 <= b.1 <= 16 && -1 <= b.2 <= 16
        }),
{
}

/// A point of a vertex, as integers.
pub open spec fn point(p: [u32; 3]) -> (int, int, int) {
    (p[0] as int, p[1] as int, p[2] as int)
}

/// The difference of two points.
pub open spec fn minus(a: (int, int, int), b: (int, int, int)) -> (int, int, int) {
    (a.0 - b.0, a.1 - b.1, a.2 - b.2)
}

/// The cross product of two vectors.
pub open spec fn cross(a: (int, int, int), b: (int, int, int)) -> (int, int, int) {
    (a.1 * b.2 - a.2 * b.1, a.2 * b.0 - a.0 * b.2, a.0 * b.1 - a.1 * b.0)
}

/// The normal of the triangle `(a, b, c)` by the right-hand rule.
pub open spec fn triangle_normal(a: [u32; 3], b: [u32; 3], c: [u32; 3]) -> (int, int, int) {
    cross(minus(point(b), point(a)), minus(point(c), point(a)))
}

/// The face normal scaled by `k`.
pub open spec fn scaled_normal(axis: int, positive: bool, k: int) -> (int, int, int) {
    let n = if positive { k } else { -k };
    if axis == 0 {
        (n, 0, 0)
    } else if axis == 1 {
        (0, n, 0)
    } else {
        (0, 0, n)
    }
}

/// A corner inside the chunk's bounds is the cell's coordinates, exactly.
proof fn lemma_corner_point(axis: int, slice: int, u: int, v: int)
    requires
        0 <= slice <= u32::MAX,
        0 <= u <= u32::MAX,
        0 <= v <= u32::MAX,
    ensures
        point(corner(axis, slice, u, v)) == cell_coords(axis, slice, u, v),
{
    let c = cell_coords(axis, slice, u, v);
    let p = corner(axis, slice, u, v);
    assert(p[0] == c.0 as u32);
    assert(p[1] == c.1 as u32);
    assert(p[2] == c.2 as u32);
}

/// The normals, by the right-hand rule, of the two triangles of a
/// `w` by `h` rectangle on plane `slice` of `axis` with corners
/// `P0 = (u, v)`, `P1 = (u + w, v)`, `P2 = (u + w, v + h)`,
/// `P3 = (u, v + h)`: taken `P0 P1 P2` and `P0 P2 P3` they point up the axis
/// for X and Z and down it for Y, with length `w * h`; taken the other way
/// round they point the opposite way.
#[verifier::spinoff_prover]
proof fn lemma_rect_normals(axis: int, slice: int, u: int, v: int, w: int, h: int)
    requires
        0 <= axis < 3,
    ensures
        ({
            let p0 = cell_coords(axis, slice, u, v);
            let p1 = cell_coords(axis, slice, u + w, v);
            let p2 = cell_coords(axis, slice, u + w, v + h);
            let p3 = cell_coords(axis, slice, u, v + h);
            &&& cross(minus(p1, p0), minus(p2, p0)) == scaled_normal(axis, axis != 1, w * h)
            &&& cross(minus(p2, p0), minus(p3, p0)) == scaled_normal(axis, axis != 1, w * h)
            &&& cross(minus(p3, p0), minus(p2, p0)) == scaled_normal(axis, axis == 1, w * h)
            &&& cross(minus(p2, p0), minus(p1, p0)) == scaled_normal(axis, axis == 1, w * h)
        }),
{
    assert(h * w == w * h) by (nonlinear_arith);
    assert((-w) * h == -(w * h)) by (nonlinear_arith);
    assert(w * (-h) == -(w * h)) by (nonlinear_arith);
    assert((-h) * w == -(w * h)) by (nonlinear_arith);
    assert(h * (-w) == -(w * h)) by (nonlinear_arith);
    let p0 = cell_coords(axis, slice, u, v);
    let d1 = minus(cell_coords(axis, slice, u + w, v), p0);
    let d2 = minus(cell_coords(axis, slice, u + w, v + h), p0);
    let d3 = minus(cell_coords(axis, slice, u, v + h), p0);
    let k = w * h;
    assert(0int * w == 0 && w * 0int == 0 && 0int * h == 0 && h * 0int == 0 && 0int * 0int == 0)
        by (nonlinear_arith);
    if axis == 0 {
        assert(d1 == (0int, w, 0int));
        assert(d2 == (0int, w, h));
        assert(d3 == (0int, 0int, h));
        assert(cross(d1, d2) == (k, 0int, 0int));
        assert(cross(d2, d3) == (k, 0int, 0int));
        assert(cross(d3, d2) == (-k, 0int, 0int));
        assert(cross(d2, d1) == (-k, 0int, 0int));
    } else if axis == 1 {
        assert(d1 == (w, 0int, 0int));
        assert(d2 == (w, 0int, h));
        assert(d3 == (0int, 0int, h));
        assert(cross(d1, d2) == (0int, -k, 0int));
        assert(cross(d2, d3) == (0int, -k, 0int));
        assert(cross(d3, d2) == (0int, k, 0int));
        assert(cross(d2, d1) == (0int, k, 0int));
    } else {
        assert(d1 == (w, 0int, 0int));
        assert(d2 == (w, h, 0int));
        assert(d3 == (0int, h, 0int));
        assert(cross(d1, d2) == (0int, 0int, k));
        assert(cross(d2, d3) == (0int, 0int, k));
        assert(cross(d3, d2) == (0int, 0int, -k));
        assert(cross(d2, d1) == (0int, 0int, -k));
    }
}

/// Both triangles of every quad wind so that, by the right-hand rule, they
/// face the way the face does: out of the solid block and into the air. So
/// the quad's two triangles have the same front, which is the side the face
/// is seen from.
#[verifier::spinoff_prover]
pub proof fn lemma_quad_winding(q: FaceQuad)
    requires
        0 <= q.axis < 3,
        0 <= q.slice <= u32::MAX,
        0 <= q.rect.u,
        0 <= q.rect.v,
        1 <= q.rect.width,
        1 <= q.rect.height,
        q.rect.u + q.rect.width <= u32::MAX,
        q.rect.v + q.rect.height <= u32::MAX,
    ensures
        ({
            let vs = quad_vertices(q);
            let k = q.rect.width * q.rect.height;
            &&& triangle_normal(vs[0].position, vs[1].position, vs[2].position) == scaled_normal(
                q.axis,
                q.rect.cell.positive,
                k,
            )
            &&& triangle_normal(vs[0].position, vs[2].position, vs[3].position) == scaled_normal(
                q.axis,
                q.rect.cell.positive,
                k,
            )
        }),
{
    let r = q.rect;
    let w = r.width;
    let h = r.height;
    lemma_corner_point(q.axis, q.slice, r.u, r.v);
    lemma_corner_point(q.axis, q.slice, r.u + w, r.v);
    lemma_corner_point(q.axis, q.slice, r.u + w, r.v + h);
    lemma_corner_point(q.axis, q.slice, r.u, r.v + h);
    let vs = quad_vertices(q);
    let p0 = corner(q.axis, q.slice, r.u, r.v);
    let p1 = corner(q.axis, q.slice, r.u + w, r.v);
    let p2 = corner(q.axis, q.slice, r.u + w, r.v + h);
    let p3 = corner(q.axis, q.slice, r.u, r.v + h);
    lemma_rect_normals(q.axis, q.slice, r.u, r.v, w, h);
    assert(vs[0].position == p0);
    assert(vs[2].position == p2);
    if r.cell.positive == (q.axis != 1) {
        assert(vs[1].position == p1);
        assert(vs[3].position == p3);
    } else {
        assert(vs[1].position == p3);
        assert(vs[3].position == p1);
    }
}

/// The geometry axes along which a face's two texture coordinates run:
/// Z then Y on the X faces, X then Z on the Y faces, X then Y on the Z faces.
pub open spec fn texture_axes(axis: int) -> (int, int) {
    if axis == 0 {
        (2, 1)
    } else if axis == 1 {
        (0, 2)
    } else {
        (0, 1)
    }
}

/// The distance between two integers.
pub open spec fn gap(a: int, b: int) -> int {
    if a >= b {
        a - b
    } else {
        b - a
    }
}

/// One coordinate of a vertex's position, as an integer.
pub open spec fn coord(p: [u32; 3], k: int) -> int {
    if k == 0 {
        p[0] as int
    } else if k == 1 {
        p[1] as int
    } else {
        p[2] as int
    }
}

/// On every face the texture lies square on the quad, one texture unit per
/// block: between any two corners, the first texture coordinate changes by
/// exactly as much as the position along the face's horizontal texture axis,
/// and the second by as much as along its vertical one (Z and Y on the X
/// faces, X and Z on the Y faces, X and Y on the Z faces).
#[verifier::spinoff_prover]
pub proof fn lemma_quad_texture_axes(q: FaceQuad)
    requires
        0 <= q.axis < 3,
        0 <= q.slice <= u32::MAX,
        0 <= q.rect.u,
        0 <= q.rect.v,
        0 <= q.rect.width,
        0 <= q.rect.height,
        q.rect.u + q.rect.width <= u32::MAX,
        q.rect.v + q.rect.height <= u32::MAX,
    ensures
        forall|i: int, j: int|
            #![trigger quad_vertices(q)[i], quad_vertices(q)[j]]
            0 <= i < 4 && 0 <= j < 4 ==> {
                &&& gap(
                    quad_vertices(q)[i].tex_coords[0] as int,
                    quad_vertices(q)[j].tex_coords[0] as int,
                ) == gap(
                    coord(quad_vertices(q)[i].position, texture_axes(q.axis).0),
                    coord(quad_vertices(q)[j].position, texture_axes(q.axis).0),
                )
                &&& gap(
                    quad_vertices(q)[i].tex_coords[1] as int,
                    quad_vertices(q)[j].tex_coords[1] as int,
                ) == gap(
                    coord(quad_vertices(q)[i].position, texture_axes(q.axis).1),
                    coord(quad_vertices(q)[j].position, texture_axes(q.axis).1),
                )
            },
{
    let r = q.rect;
    let w = r.width;
    let h = r.height;
    lemma_corner_point(q.axis, q.slice, r.u, r.v);
    lemma_corner_point(q.axis, q.slice, r.u + w, r.v);
    lemma_corner_point(q.axis, q.slice, r.u + w, r.v + h);
    lemma_corner_point(q.axis, q.slice, r.u, r.v + h);
    let vs = quad_vertices(q);
    assert(vs.len() == 4);
}

/// The texture coordinates of a quad run over whole blocks: its corners sit
/// at 0 and at the quad's extent along each texture direction, so the texture
/// repeats once per block (`height` across and `width` up on the X faces,
/// `width` across and `height` up on the others).
pub proof fn lemma_quad_texture_repeats(q: FaceQuad)
    requires
        0 <= q.axis < 3,
        0 <= q.rect.width <= u32::MAX,
        0 <= q.rect.height <= u32::MAX,
    ensures
        ({
            let vs = quad_vertices(q);
            let across = if q.axis == 0 { q.rect.height } else { q.rect.width };
            let up = if q.axis == 0 { q.rect.width } else { q.rect.height };
            forall|k: int|
                0 <= k < 4 ==> (#[trigger] vs[k].tex_coords[0] == 0 || vs[k].tex_coords[0] == across)
                    && (vs[k].tex_coords[1] == 0 || vs[k].tex_coords[1] == up)
        }),
{
}

/// The block that neighbour `d` (ordered -X, +X, -Y, +Y, -Z, +Z) shows at
/// `(a, b)` of its layer touching the chunk: local X 15, X 0, Y 15, Y 0,
/// Z 15, Z 0 respectively, `(a, b)` running over the two other axes in
/// order; air where there is no neighbour.
pub open spec fn touching_block(neighbor: Option<ChunkSnapshot>, d: int, a: int, b: int) -> Block {
    if d == 0 {
        neighbor_block(neighbor, 15, a, b)
    } else if d == 1 {
        neighbor_block(neighbor, 0, a, b)
    } else if d == 2 {
        neighbor_block(neighbor, a, 15, b)
    } else if d == 3 {
        neighbor_block(neighbor, a, 0, b)
    } else if d == 4 {
        neighbor_block(neighbor, a, b, 15)
    } else {
        neighbor_block(neighbor, a, b, 0)
    }
}

/// Whether two neighbour sets show the same touching layers.
pub open spec fn same_touching_layers(n1: [Option<ChunkSnapshot>; 6], n2: [Option<ChunkSnapshot>; 6]) -> bool {
    forall|d: int, a: int, b: int|
        0 <= d < 6 && in_range(a) && in_range(b) ==> #[trigger] touching_block(n1[d], d, a, b)
            == #[trigger] touching_block(n2[d], d, a, b)
}

/// Meshing reads the same blocks through two neighbour sets that show the
/// same touching layers.
proof fn lemma_lookup_same_layers(
    chunk: ChunkSnapshot,
    n1: [Option<ChunkSnapshot>; 6],
    n2: [Option<ChunkSnapshot>; 6],
    x: int,
    y: int,
    z: int,
)
    requires
        same_touching_layers(n1, n2),
    ensures
        lookup_block(chunk, n1, x, y, z) == lookup_block(chunk, n2, x, y, z),
{
    if in_chunk(x, y, z) {
    } else if x < 0 {
        if in_range(y) && in_range(z) {
            assert(touching_block(n1[0], 0, y, z) == touching_block(n2[0], 0, y, z));
        }
    } else if x >= 16 {
        if in_range(y) && in_range(z) {
            assert(touching_block(n1[1], 1, y, z) == touching_block(n2[1], 1, y, z));
        }
    } else if y < 0 {
        if in_range(x) && in_range(z) {
            assert(touching_block(n1[2], 2, x, z) == touching_block(n2[2], 2, x, z));
        }
    } else if y >= 16 {
        if in_range(x) && in_range(z) {
            assert(touching_block(n1[3], 3, x, z) == touching_block(n2[3], 3, x, z));
        }
    } else if z < 0 {
        if in_range(x) && in_range(y) {
            assert(touching_block(n1[4], 4, x, y) == touching_block(n2[4], 4, x, y));
        }
    } else {
        if in_range(x) && in_range(y) {
            assert(touching_block(n1[5], 5, x, y) == touching_block(n2[5], 5, x, y));
        }
    }
}

/// The quads of the first `k` slice planes agree for two neighbour sets
/// that show the same touching layers.
proof fn lemma_quads_before_same_layers(
    chunk: ChunkSnapshot,
    n1: [Option<ChunkSnapshot>; 6],
    n2: [Option<ChunkSnapshot>; 6],
    registry: BlockRegistry,
    k: int,
)
    requires
        same_touching_layers(n1, n2),
    ensures
        quads_before(chunk, n1, registry, k) == quads_before(chunk, n2, registry, k),
    decreases k,
{
    if k > 0 {
        lemma_quads_before_same_layers(chunk, n1, n2, registry, k - 1);
        let axis = (k - 1) / 17;
        let slice = (k - 1) % 17;
        let m1 = face_mask(chunk, n1, registry, axis, slice);
        let m2 = face_mask(chunk, n2, registry, axis, slice);
        assert forall|i: int| 0 <= i < 256 implies #[trigger] m1[i] == m2[i] by {
            let a = cell_coords(axis, slice - 1, i % 16, i / 16);
            let b = cell_coords(axis, slice, i % 16, i / 16);
            lemma_lookup_same_layers(chunk, n1, n2, a.0, a.1, a.2);
            lemma_lookup_same_layers(chunk, n1, n2, b.0, b.1, b.2);
        }
        assert(m1 =~= m2);
    }
}

/// Only the layer of each neighbour that touches the chunk matters to its
/// mesh, and a missing neighbour counts as all air: two neighbour sets that
/// show the same touching layers give the same quads, so the same vertices
/// and indices.
pub proof fn lemma_mesh_depends_on_touching_layers(
    chunk: ChunkSnapshot,
    n1: [Option<ChunkSnapshot>; 6],
    n2: [Option<ChunkSnapshot>; 6],
    registry: BlockRegistry,
)
    requires
        same_touching_layers(n1, n2),
    ensures
        mesh_quads(chunk, n1, registry) == mesh_quads(chunk, n2, registry),
        quads_vertices(mesh_quads(chunk, n1, registry)) == quads_vertices(mesh_quads(chunk, n2, registry)),
        quads_indices(mesh_quads(chunk, n1, registry)) == quads_indices(mesh_quads(chunk, n2, registry)),
{
    lemma_quads_before_same_layers(chunk, n1, n2, registry, 51);
}

/// With the standard block models (as `BlockRegistry::new` and
/// `BlockRegistry::from_textures` build them), every face of stone shows the
/// stone texture and every face of dirt the dirt texture; grass shows its top
/// texture facing up, dirt facing down and its side texture on the four
/// sides; air faces get texture 0.
pub proof fn lemma_standard_face_textures(
    registry: BlockRegistry,
    stone: u32,
    dirt: u32,
    grass_side: u32,
    grass_top: u32,
    axis: int,
    positive: bool,
)
    requires
        registry@ == crate::block_registry::standard_models(stone, dirt, grass_side, grass_top),
        0 <= axis < 3,
    ensures
        face_texture(registry, Block::Grass, 1, true) == grass_top,
        face_texture(registry, Block::Grass, 1, false) == dirt,
        axis != 1 ==> face_texture(registry, Block::Grass, axis, positive) == grass_side,
        face_texture(registry, Block::Stone, axis, positive) == stone,
        face_texture(registry, Block::Dirt, axis, positive) == dirt,
        face_texture(registry, Block::Air, axis, positive) == 0,
{
}

/// The face mask of a slice holds, at `(u, v)`, the face on that cell.
proof fn lemma_face_mask_at(
    chunk: ChunkSnapshot,
    neighbors: [Option<ChunkSnapshot>; 6],
    registry: BlockRegistry,
    axis: int,
    slice: int,
    u: int,
    v: int,
)
    requires
        0 <= u < 16,
        0 <= v < 16,
    ensures
        mask_at(face_mask(chunk, neighbors, registry, axis, slice), u, v) == face_cell(
            chunk,
            neighbors,
            registry,
            axis,
            slice,
            u,
            v,
        ),
{
    lemma_split_index(u, v, 16);
    assert(u + v * 16 == u + 16 * v);
}

/// Whether quad `q` lies on a slice plane of the chunk, inside it, and on
/// every cell it covers draws the face that cell has.
pub open spec fn quad_on_faces(
    chunk: ChunkSnapshot,
    neighbors: [Option<ChunkSnapshot>; 6],
    registry: BlockRegistry,
    q: FaceQuad,
) -> bool {
    &&& 0 <= q.axis < 3
    &&& 0 <= q.slice <= 16
    &&& 1 <= q.rect.width && 0 <= q.rect.u && q.rect.u + q.rect.width <= 16
    &&& 1 <= q.rect.height && 0 <= q.rect.v && q.rect.v + q.rect.height <= 16
    &&& forall|x: int, y: int|
        #[trigger] in_rect(q.rect, x, y) ==> face_cell(chunk, neighbors, registry, q.axis, q.slice, x, y)
            == Some(q.rect.cell)
}

/// What the quads of the first `k` slice planes satisfy: each sits on its
/// own faces on a plane before `k`; every face on such a plane is covered;
/// and no two quads of one plane overlap.
proof fn lemma_quads_before_on_faces(
    chunk: ChunkSnapshot,
    neighbors: [Option<ChunkSnapshot>; 6],
    registry: BlockRegistry,
    k: int,
)
    requires
        0 <= k <= 51,
    ensures
        forall|i: int|
            0 <= i < quads_before(chunk, neighbors, registry, k).len() ==> {
                let q = #[trigger] quads_before(chunk, neighbors, registry, k)[i];
                &&& quad_on_faces(chunk, neighbors, registry, q)
                &&& q.axis * 17 + q.slice < k
            },
        forall|j: int, x: int, y: int|
            0 <= j < k && 0 <= x < 16 && 0 <= y < 16 && (#[trigger] face_cell(
                chunk,
                neighbors,
                registry,
                j / 17,
                j % 17,
                x,
                y,
            )) is Some ==> exists|i: int|
                0 <= i < quads_before(chunk, neighbors, registry, k).len()
                    && (#[trigger] quads_before(chunk, neighbors, registry, k)[i]).axis == j / 17
                    && quads_before(chunk, neighbors, registry, k)[i].slice == j % 17 && in_rect(
                    quads_before(chunk, neighbors, registry, k)[i].rect,
                    x,
                    y,
                ),
        forall|i1: int, i2: int, x: int, y: int|
            #![trigger in_rect(quads_before(chunk, neighbors, registry, k)[i1].rect, x, y), in_rect(quads_before(chunk, neighbors, registry, k)[i2].rect, x, y)]
            0 <= i1 < i2 < quads_before(chunk, neighbors, registry, k).len() && (quads_before(
                chunk,
                neighbors,
                registry,
                k,
            )[i1]).axis == (quads_before(chunk, neighbors, registry, k)[i2]).axis
                && quads_before(chunk, neighbors, registry, k)[i1].slice == quads_before(
                chunk,
                neighbors,
                registry,
                k,
            )[i2].slice ==> !(in_rect(quads_before(chunk, neighbors, registry, k)[i1].rect, x, y)
                && in_rect(quads_before(chunk, neighbors, registry, k)[i2].rect, x, y)),
    decreases k,
{
    if k > 0 {
        lemma_quads_before_on_faces(chunk, neighbors, registry, k - 1);
        let prev = quads_before(chunk, neighbors, registry, k - 1);
        let qb = quads_before(chunk, neighbors, registry, k);
        let a = (k - 1) / 17;
        let s = (k - 1) % 17;
        let m = face_mask(chunk, neighbors, registry, a, s);
        let rs = greedy_from(m, 0, 0);
        let sq = slice_quads(chunk, neighbors, registry, a, s);
        lemma_greedy_exact_cover(m);
        assert(qb == prev + sq);
        assert(sq.len() == rs.len());
        assert forall|t: int| 0 <= t < sq.len() implies #[trigger] sq[t] == (FaceQuad {
            axis: a,
            slice: s,
            rect: rs[t],
        }) by {}
        let lp = prev.len();
        assert(a * 17 + s == k - 1);
        assert forall|i: int| 0 <= i < qb.len() implies {
            let q = #[trigger] qb[i];
            &&& quad_on_faces(chunk, neighbors, registry, q)
            &&& q.axis * 17 + q.slice < k
        } by {
            if i < lp {
                assert(qb[i] == prev[i]);
            } else {
                let t = i - lp;
                assert(qb[i] == sq[t]);
                let r = rs[t];
                assert(rect_fits(m, r));
                assert forall|x: int, y: int| #[trigger] in_rect(r, x, y) implies face_cell(
                    chunk,
                    neighbors,
                    registry,
                    a,
                    s,
                    x,
                    y,
                ) == Some(r.cell) by {
                    lemma_face_mask_at(chunk, neighbors, registry, a, s, x, y);
                }
            }
        }
        assert forall|j: int, x: int, y: int|
            0 <= j < k && 0 <= x < 16 && 0 <= y < 16 && (#[trigger] face_cell(
                chunk,
                neighbors,
                registry,
                j / 17,
                j % 17,
                x,
                y,
            )) is Some implies exists|i: int|
            0 <= i < qb.len() && (#[trigger] qb[i]).axis == j / 17 && qb[i].slice == j % 17 && in_rect(
                qb[i].rect,
                x,
                y,
            ) by {
            if j < k - 1 {
                let i0 = choose|i: int|
                    0 <= i < prev.len() && (#[trigger] prev[i]).axis == j / 17 && prev[i].slice == j % 17
                        && in_rect(prev[i].rect, x, y);
                assert(qb[i0] == prev[i0]);
            } else {
                lemma_face_mask_at(chunk, neighbors, registry, a, s, x, y);
                assert(mask_at(m, x, y) is Some);
                let t = choose|t: int| 0 <= t < rs.len() && #[trigger] in_rect(rs[t], x, y);
                assert(qb[lp + t] == sq[t]);
            }
        }
        assert forall|i1: int, i2: int, x: int, y: int|
            #![trigger in_rect(qb[i1].rect, x, y), in_rect(qb[i2].rect, x, y)]
            0 <= i1 < i2 < qb.len() && (qb[i1]).axis == (qb[i2]).axis
                && qb[i1].slice == qb[i2].slice implies !(in_rect(qb[i1].rect, x, y) && in_rect(
                qb[i2].rect,
                x,
                y,
            )) by {
            if i2 < lp {
                assert(qb[i1] == prev[i1]);
                assert(qb[i2] == prev[i2]);
            } else if i1 < lp {
                assert(qb[i1] == prev[i1]);
                assert(qb[i2] == sq[i2 - lp]);
                assert(prev[i1].axis * 17 + prev[i1].slice < k - 1);
            } else {
                assert(qb[i1] == sq[i1 - lp]);
                assert(qb[i2] == sq[i2 - lp]);
                assert(!(in_rect(rs[i1 - lp], x, y) && in_rect(rs[i2 - lp], x, y)));
            }
        }
    }
}

/// Every quad of a chunk's mesh is drawn where its faces are: it lies on a
/// slice plane inside the chunk, and each cell `(u, v)` it covers on that
/// plane has exactly the face the quad draws (`face_cell`, which reads the
/// two blocks on either side of the plane at `cell_coords(axis, ..., u, v)`,
/// the same coordinates the quad's corners are placed at). Every face of
/// the chunk is covered by a quad on its own plane, and no two quads of one
/// plane overlap: each face is drawn once, in its place.
pub proof fn lemma_mesh_quads_draw_faces_in_place(
    chunk: ChunkSnapshot,
    neighbors: [Option<ChunkSnapshot>; 6],
    registry: BlockRegistry,
)
    ensures
        forall|i: int|
            0 <= i < mesh_quads(chunk, neighbors, registry).len() ==> {
                let q = #[trigger] mesh_quads(chunk, neighbors, registry)[i];
                &&& 0 <= q.axis < 3
                &&& 0 <= q.slice <= 16
                &&& 1 <= q.rect.width && 0 <= q.rect.u && q.rect.u + q.rect.width <= 16
                &&& 1 <= q.rect.height && 0 <= q.rect.v && q.rect.v + q.rect.height <= 16
                &&& forall|x: int, y: int|
                    #[trigger] in_rect(q.rect, x, y) ==> face_cell(
                        chunk,
                        neighbors,
                        registry,
                        q.axis,
                        q.slice,
                        x,
                        y,
                    ) == Some(q.rect.cell)
            },
        forall|axis: int, slice: int, x: int, y: int|
            0 <= axis < 3 && 0 <= slice <= 16 && 0 <= x < 16 && 0 <= y < 16 && (#[trigger] face_cell(
                chunk,
                neighbors,
                registry,
                axis,
                slice,
                x,
                y,
            )) is Some ==> exists|i: int|
                0 <= i < mesh_quads(chunk, neighbors, registry).len() && (#[trigger] mesh_quads(
                    chunk,
                    neighbors,
                    registry,
                )[i]).axis == axis && mesh_quads(chunk, neighbors, registry)[i].slice == slice
                    && in_rect(mesh_quads(chunk, neighbors, registry)[i].rect, x, y),
        forall|i1: int, i2: int, x: int, y: int|
            #![trigger in_rect(mesh_quads(chunk, neighbors, registry)[i1].rect, x, y), in_rect(mesh_quads(chunk, neighbors, registry)[i2].rect, x, y)]
            0 <= i1 < i2 < mesh_quads(chunk, neighbors, registry).len() && (mesh_quads(
                chunk,
                neighbors,
                registry,
            )[i1]).axis == (mesh_quads(chunk, neighbors, registry)[i2]).axis
                && mesh_quads(chunk, neighbors, registry)[i1].slice == mesh_quads(
                chunk,
                neighbors,
                registry,
            )[i2].slice ==> !(in_rect(mesh_quads(chunk, neighbors, registry)[i1].rect, x, y)
                && in_rect(mesh_quads(chunk, neighbors, registry)[i2].rect, x, y)),
{
    lemma_quads_before_on_faces(chunk, neighbors, registry, 51);
    let qs = mesh_quads(chunk, neighbors, registry);
    assert forall|i: int| 0 <= i < qs.len() implies {
        let q = #[trigger] qs[i];
        &&& 0 <= q.axis < 3
        &&& 0 <= q.slice <= 16
        &&& 1 <= q.rect.width && 0 <= q.rect.u && q.rect.u + q.rect.width <= 16
        &&& 1 <= q.rect.height && 0 <= q.rect.v && q.rect.v + q.rect.height <= 16
        &&& forall|x: int, y: int|
            #[trigger] in_rect(q.rect, x, y) ==> face_cell(chunk, neighbors, registry, q.axis, q.slice, x, y)
                == Some(q.rect.cell)
    } by {
        assert(quad_on_faces(chunk, neighbors, registry, qs[i]));
    }
    assert forall|axis: int, slice: int, x: int, y: int|
        0 <= axis < 3 && 0 <= slice <= 16 && 0 <= x < 16 && 0 <= y < 16 && (#[trigger] face_cell(
            chunk,
            neighbors,
            registry,
            axis,
            slice,
            x,
            y,
        )) is Some implies exists|i: int|
        0 <= i < qs.len() && (#[trigger] qs[i]).axis == axis && qs[i].slice == slice && in_rect(
            qs[i].rect,
            x,
            y,
        ) by {
        let j = axis * 17 + slice;
        lemma_split_index(slice, axis, 17);
        assert(j / 17 == axis && j % 17 == slice);
        assert(face_cell(chunk, neighbors, registry, j / 17, j % 17, x, y) is Some);
    }
}

/// The least of coordinate `c` over the first four vertices.
pub open spec fn least_coord(vs: Seq<MeshVertex>, c: int) -> int {
    let a = coord(vs[0].position, c);
    let b = coord(vs[1].position, c);
    let d = coord(vs[2].position, c);
    let e = coord(vs[3].position, c);
    let ab = if a <= b { a } else { b };
    let de = if d <= e { d } else { e };
    if ab <= de { ab } else { de }
}

/// The greatest of coordinate `c` over the first four vertices.
pub open spec fn greatest_coord(vs: Seq<MeshVertex>, c: int) -> int {
    let a = coord(vs[0].position, c);
    let b = coord(vs[1].position, c);
    let d = coord(vs[2].position, c);
    let e = coord(vs[3].position, c);
    let ab = if a >= b { a } else { b };
    let de = if d >= e { d } else { e };
    if ab >= de { ab } else { de }
}

/// Every quad is textured upright and unmirrored along its horizontal axis,
/// in block units: on the four side faces (X and Z) the second texture
/// coordinate is the distance down from the quad's top edge (the greatest
/// Y), so the texture's top edge is at the top of the block, and the first
/// is the distance along Z (on X faces) or X (on Z faces) from the quad's
/// low edge; on the top and bottom faces the two coordinates are the
/// distances along X and Z from the quad's low corner.
#[verifier::spinoff_prover]
pub proof fn lemma_quad_texture_upright(q: FaceQuad)
    requires
        0 <= q.axis < 3,
        0 <= q.slice <= u32::MAX,
        0 <= q.rect.u,
        0 <= q.rect.v,
        0 <= q.rect.width,
        0 <= q.rect.height,
        q.rect.u + q.rect.width <= u32::MAX,
        q.rect.v + q.rect.height <= u32::MAX,
    ensures
        forall|k: int|
            0 <= k < 4 ==> {
                let vs = quad_vertices(q);
                let t = (#[trigger] quad_vertices(q)[k]).tex_coords;
                let p = quad_vertices(q)[k].position;
                &&& q.axis == 0 ==> t[0] == coord(p, 2) - least_coord(vs, 2) && t[1] == greatest_coord(vs, 1)
                    - coord(p, 1)
                &&& q.axis == 2 ==> t[0] == coord(p, 0) - least_coord(vs, 0) && t[1] == greatest_coord(vs, 1)
                    - coord(p, 1)
                &&& q.axis == 1 ==> t[0] == coord(p, 0) - least_coord(vs, 0) && t[1] == coord(p, 2)
                    - least_coord(vs, 2)
            },
{
    let r = q.rect;
    let w = r.width;
    let h = r.height;
    lemma_corner_point(q.axis, q.slice, r.u, r.v);
    lemma_corner_point(q.axis, q.slice, r.u + w, r.v);
    lemma_corner_point(q.axis, q.slice, r.u + w, r.v + h);
    lemma_corner_point(q.axis, q.slice, r.u, r.v + h);
    let vs = quad_vertices(q);
    assert(vs.len() == 4);
}

/// Whether a face with mask entry `cell` lies between the block `low` (on
/// the lower side of its plane) and `high` (on the upper side): the face
/// belongs to the solid one of the two, the other is air, and it faces the
/// air.
pub open spec fn face_between(low: Block, high: Block, cell: MaskCell) -> bool {
    if cell.positive {
        low == cell.block && low != Block::Air && high == Block::Air
    } else {
        high == cell.block && high != Block::Air && low == Block::Air
    }
}

/// Every quad of a chunk's mesh, written out in chunk coordinates: an X
/// quad on plane `x = slice` spanning Y `u..u + width` and Z
/// `v..v + height` has, at each block it covers, the solid block at
/// `x = slice - 1` or at `x = slice` and air on the other side (likewise a
/// Y quad spans X and Z, and a Z quad spans X and Y); and its four corners
/// are the four corners of that rectangle on that plane.
pub proof fn lemma_mesh_quads_between_solid_and_air(
    chunk: ChunkSnapshot,
    neighbors: [Option<ChunkSnapshot>; 6],
    registry: BlockRegistry,
)
    ensures
        forall|i: int, a: int, b: int|
            0 <= i < mesh_quads(chunk, neighbors, registry).len() && #[trigger] in_rect(
                mesh_quads(chunk, neighbors, registry)[i].rect,
                a,
                b,
            ) ==> {
                let q = mesh_quads(chunk, neighbors, registry)[i];
                let s = q.slice;
                let lb = |x: int, y: int, z: int| lookup_block(chunk, neighbors, x, y, z);
                &&& q.axis == 0 ==> face_between(lb(s - 1, a, b), lb(s, a, b), q.rect.cell)
                &&& q.axis == 1 ==> face_between(lb(a, s - 1, b), lb(a, s, b), q.rect.cell)
                &&& q.axis == 2 ==> face_between(lb(a, b, s - 1), lb(a, b, s), q.rect.cell)
            },
        forall|i: int, k: int|
            0 <= i < mesh_quads(chunk, neighbors, registry).len() && 0 <= k < 4 ==> {
                let q = mesh_quads(chunk, neighbors, registry)[i];
                let p = (#[trigger] quad_vertices(mesh_quads(chunk, neighbors, registry)[i])[k]).position;
                let (u0, u1, v0, v1) = (q.rect.u, q.rect.u + q.rect.width, q.rect.v, q.rect.v + q.rect.height);
                &&& q.axis == 0 ==> p[0] == q.slice && (p[1] == u0 || p[1] == u1) && (p[2] == v0 || p[2] == v1)
                &&& q.axis == 1 ==> p[1] == q.slice && (p[0] == u0 || p[0] == u1) && (p[2] == v0 || p[2] == v1)
                &&& q.axis == 2 ==> p[2] == q.slice && (p[0] == u0 || p[0] == u1) && (p[1] == v0 || p[1] == v1)
            },
{
    lemma_mesh_quads_draw_faces_in_place(chunk, neighbors, registry);
    let qs = mesh_quads(chunk, neighbors, registry);
    assert forall|i: int, k: int| 0 <= i < qs.len() && 0 <= k < 4 implies {
        let q = qs[i];
        let p = (#[trigger] quad_vertices(qs[i])[k]).position;
        let (u0, u1, v0, v1) = (q.rect.u, q.rect.u + q.rect.width, q.rect.v, q.rect.v + q.rect.height);
        &&& q.axis == 0 ==> p[0] == q.slice && (p[1] == u0 || p[1] == u1) && (p[2] == v0 || p[2] == v1)
        &&& q.axis == 1 ==> p[1] == q.slice && (p[0] == u0 || p[0] == u1) && (p[2] == v0 || p[2] == v1)
        &&& q.axis == 2 ==> p[2] == q.slice && (p[0] == u0 || p[0] == u1) && (p[1] == v0 || p[1] == v1)
    } by {
        let q = qs[i];
        let r = q.rect;
        assert(0 <= q.axis < 3);
        lemma_corner_point(q.axis, q.slice, r.u, r.v);
        lemma_corner_point(q.axis, q.slice, r.u + r.width, r.v);
        lemma_corner_point(q.axis, q.slice, r.u + r.width, r.v + r.height);
        lemma_corner_point(q.axis, q.slice, r.u, r.v + r.height);
        assert(quad_vertices(q).len() == 4);
    }
}

} // verus!
