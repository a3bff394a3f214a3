use vstd::prelude::*;

use crate::block::Block;
use crate::chunk::{cell_index, Chunk, ChunkPos, CHUNK_SIZE};
use crate::world_generator;

verus! {

/// The chunk coordinate of a world coordinate (floor division by the chunk size).
pub open spec fn chunk_coord(w: int) -> int {
    w / 16
}

/// The chunk-local coordinate of a world coordinate (always in `0..CHUNK_SIZE`).
pub open spec fn local_coord(w: int) -> int {
    w % 16
}

/// The chunk holding the block at world coordinates `(wx, wy, wz)`.
pub open spec fn chunk_containing(wx: int, wy: int, wz: int) -> ChunkPos {
    ChunkPos { x: chunk_coord(wx) as i64, y: chunk_coord(wy) as i64, z: chunk_coord(wz) as i64 }
}

/// A world coordinate splits into a chunk coordinate and a local coordinate
/// in `0..CHUNK_SIZE` with `chunk * CHUNK_SIZE + local == w`, and the split
/// determines the coordinate.
pub proof fn lemma_world_coord_split(w: int, w2: int)
    ensures
        chunk_coord(w) * 16 + local_coord(w) == w,
        0 <= local_coord(w) < 16,
        chunk_coord(w) == chunk_coord(w2) && local_coord(w) == local_coord(w2) ==> w == w2,
        i64::MIN <= w <= i64::MAX ==> i64::MIN <= chunk_coord(w) <= i64::MAX,
{
    vstd::arithmetic::div_mod::lemma_fundamental_div_mod(w, 16);
    vstd::arithmetic::div_mod::lemma_fundamental_div_mod(w2, 16);
    vstd::arithmetic::div_mod::lemma_mod_bound(w, 16);
    if i64::MIN <= w <= i64::MAX {
        vstd::arithmetic::div_mod::lemma_div_is_ordered(i64::MIN as int, w, 16);
        vstd::arithmetic::div_mod::lemma_div_is_ordered(w, i64::MAX as int, 16);
    }
}

/// The loaded chunks, keyed by position.
pub struct World {
    chunks: Vec<(ChunkPos, Chunk)>,
}

impl View for World {
    type V = Map<ChunkPos, Chunk>;

    closed spec fn view(&self) -> Map<ChunkPos, Chunk> {
        Map::new(|p: ChunkPos| self.has_key(p), |p: ChunkPos| self.chunks@[self.index_of(p)].1)
    }
}

impl World {
    /// Whether a chunk is stored under `p`.
    closed spec fn has_key(&self, p: ChunkPos) -> bool {
        exists|i: int| 0 <= i < self.chunks@.len() && self.chunks@[i].0 == p
    }

    /// Where the chunk under `p` is stored.
    closed spec fn index_of(&self, p: ChunkPos) -> int {
        choose|i: int| 0 <= i < self.chunks@.len() && self.chunks@[i].0 == p
    }

    /// No position is stored twice.
    pub closed spec fn wf(&self) -> bool {
        forall|i: int, j: int|
            0 <= i < j < self.chunks@.len() ==> self.chunks@[i].0 != self.chunks@[j].0
    }

    /// The block at world coordinates `(wx, wy, wz)`: the block of the
    /// containing chunk at the local coordinates, or air where that chunk is
    /// not loaded.
    pub open spec fn block_at(&self, wx: int, wy: int, wz: int) -> Block {
        let c = chunk_containing(wx, wy, wz);
        if self@.contains_key(c) {
            self@[c].blocks@[cell_index(local_coord(wx), local_coord(wy), local_coord(wz))]
        } else {
            Block::Air
        }
    }

    /// Whether the chunk holding `(wx, wy, wz)`, if loaded, stores that cell.
    pub open spec fn can_reach(&self, wx: int, wy: int, wz: int) -> bool {
        let c = chunk_containing(wx, wy, wz);
        self@.contains_key(c) ==> cell_index(local_coord(wx), local_coord(wy), local_coord(wz))
            < self@[c].blocks@.len()
    }

    proof fn lemma_lookup(&self, i: int)
        requires
            self.wf(),
            0 <= i < self.chunks@.len(),
        ensures
            self@.contains_key(self.chunks@[i].0),
            self@[self.chunks@[i].0] == self.chunks@[i].1,
    {
        let p = self.chunks@[i].0;
        assert(self.has_key(p));
        let j = self.index_of(p);
        assert(j == i);
    }

    /// An empty world.
    pub fn new() -> (world: Self)
        ensures
            world.wf(),
            world@ == Map::<ChunkPos, Chunk>::empty(),
    {
        let world = Self { chunks: Vec::new() };
        assert(world@ =~= Map::<ChunkPos, Chunk>::empty());
        world
    }

    /// Where the chunk at `pos` is stored, if it is loaded.
    fn find(&self, pos: ChunkPos) -> (found: Option<usize>)
        requires
            self.wf(),
        ensures
            match found {
                Some(i) => i < self.chunks@.len() && self.chunks@[i as int].0 == pos
                    && self@.contains_key(pos) && self@[pos] == self.chunks@[i as int].1,
                None => !self@.contains_key(pos),
            },
    {
        let mut i: usize = 0;
        while i < self.chunks.len()
            invariant
                i <= self.chunks@.len(),
                self.wf(),
                forall|k: int| 0 <= k < i ==> self.chunks@[k].0 != pos,
            decreases self.chunks@.len() - i,
        {
            if self.chunks[i].0 == pos {
                proof {
                    self.lemma_lookup(i as int);
                }
                return Some(i);
            }
            i += 1;
        }
        None
    }

    /// Whether the chunk at `pos` is loaded.
    pub fn contains_chunk(&self, pos: ChunkPos) -> (loaded: bool)
        requires
            self.wf(),
        ensures
            loaded == self@.contains_key(pos),
    {
        self.find(pos).is_some()
    }

    /// Stores `chunk` under its position, replacing any chunk stored there.
    pub fn add_chunk(&mut self, chunk: Chunk)
        requires
            old(self).wf(),
        ensures
            final(self).wf(),
            final(self)@ == old(self)@.insert(chunk.position, chunk),
    {
        let pos = chunk.position;
        let ghost c = chunk;
        match self.find(pos) {
            Some(i) => {
                self.chunks.set(i, (pos, chunk));
                proof {
                    assert forall|p: ChunkPos| #[trigger] self@.contains_key(p) == old(self)@.insert(
                        pos,
                        c,
                    ).contains_key(p) by {
                        if old(self).has_key(p) {
                            let k = old(self).index_of(p);
                            assert(self.chunks@[k].0 == p);
                        }
                        if self.has_key(p) {
                            let k = self.index_of(p);
                            if k != i {
                                assert(old(self).chunks@[k].0 == p);
                            }
                        }
                    }
                    assert forall|p: ChunkPos| #[trigger] self@.contains_key(p) implies self@[p]
                        == old(self)@.insert(pos, c)[p] by {
                        let k = self.index_of(p);
                        self.lemma_lookup(k);
                        if p != pos {
                            old(self).lemma_lookup(k);
                        }
                    }
                    assert(self@ =~= old(self)@.insert(pos, c));
                }
            },
            None => {
                self.chunks.push((pos, chunk));
                proof {
                    let n = old(self).chunks@.len();
                    assert forall|p: ChunkPos| #[trigger] self@.contains_key(p) == old(self)@.insert(
                        pos,
                        c,
                    ).contains_key(p) by {
                        if old(self).has_key(p) {
                            let k = old(self).index_of(p);
                            assert(self.chunks@[k].0 == p);
                        }
                        if p == pos {
                            assert(self.chunks@[n as int].0 == p);
                        }
                        if self.has_key(p) {
                            let k = self.index_of(p);
                            if k != n {
                                assert(old(self).chunks@[k].0 == p);
                            }
                        }
                    }
                    assert forall|p: ChunkPos| #[trigger] self@.contains_key(p) implies self@[p]
                        == old(self)@.insert(pos, c)[p] by {
                        let k = self.index_of(p);
                        self.lemma_lookup(k);
                        if p != pos {
                            old(self).lemma_lookup(k);
                        }
                    }
                    assert(self@ =~= old(self)@.insert(pos, c));
                }
            },
        }
    }

    /// The chunk at `pos`, if loaded.
    pub fn get_chunk(&self, pos: ChunkPos) -> (chunk: Option<&Chunk>)
        requires
            self.wf(),
        ensures
            chunk is Some <==> self@.contains_key(pos),
            chunk matches Some(c) ==> *c == self@[pos],
    {
        match self.find(pos) {
            Some(i) => Some(&self.chunks[i].1),
            None => None,
        }
    }

    /// The chunk at `pos`, if loaded, for changing it in place.
    pub fn get_chunk_mut(&mut self, pos: ChunkPos) -> (chunk: Option<&mut Chunk>)
        requires
            old(self).wf(),
        ensures
            chunk is Some <==> old(self)@.contains_key(pos),
            chunk is None ==> final(self)@ == old(self)@ && final(self).wf(),
            chunk matches Some(c) ==> *c == old(self)@[pos],
            chunk matches Some(c) ==> final(self).wf() && final(self)@ == old(self)@.insert(pos, *final(c)),
    {
        match self.find(pos) {
            Some(i) => {
                proof {
                    assert forall|after: World, c: Chunk|
                        #![trigger after@, old(self)@.insert(pos, c)]
                        after.chunks@ == old(self).chunks@.update(i as int, (pos, c)) implies after.wf()
                            && after@ == old(self)@.insert(pos, c) by {
                        World::lemma_replace_value(*old(self), after, i as int, c);
                    }
                }
                Some(&mut self.chunks[i].1)
            },
            None => None,
        }
    }

    /// Replacing the chunk stored at one slot replaces the value under its key.
    proof fn lemma_replace_value(before: World, after: World, i: int, c: Chunk)
        requires
            before.wf(),
            0 <= i < before.chunks@.len(),
            after.chunks@ == before.chunks@.update(i, (before.chunks@[i].0, c)),
        ensures
            after.wf(),
            after@ == before@.insert(before.chunks@[i].0, c),
    {
        let pos = before.chunks@[i].0;
        assert forall|p: ChunkPos| #[trigger] after@.contains_key(p) == before@.insert(pos, c).contains_key(p) by {
            if before.has_key(p) {
                let k = before.index_of(p);
                assert(after.chunks@[k].0 == p);
            }
            if after.has_key(p) {
                let k = after.index_of(p);
                assert(before.chunks@[k].0 == p);
            }
        }
        assert forall|p: ChunkPos| #[trigger] after@.contains_key(p) implies after@[p] == before@.insert(pos, c)[p] by {
            let k = after.index_of(p);
            after.lemma_lookup(k);
            if p != pos {
                before.lemma_lookup(k);
            }
        }
        assert(after@ =~= before@.insert(pos, c));
    }

    /// Generates the terrain chunk at `position` (see
    /// `world_generator::generate_chunk`) and stores it.
    pub fn generate_chunk(&mut self, position: ChunkPos, column_heights: &[usize; 16])
        requires
            old(self).wf(),
            forall|x: int| 0 <= x < 16 ==> #[trigger] column_heights[x] + 4 < 16,
        ensures
            final(self).wf(),
            final(self)@.dom() == old(self)@.dom().insert(position),
            forall|p: ChunkPos| p != position && old(self)@.contains_key(p) ==> #[trigger] final(self)@[p] == old(self)@[p],
            final(self)@[position].position == position,
            final(self)@[position].blocks@.len() == crate::chunk::CHUNK_VOLUME,
            forall|x: int, y: int, z: int|
                #![trigger final(self)@[position].block_at(x, y, z)]
                crate::chunk::in_chunk(x, y, z) ==> final(self)@[position].block_at(x, y, z)
                    == world_generator::column_block(column_heights[x] as int, y),
    {
        let chunk = world_generator::generate_chunk(position, column_heights);
        self.add_chunk(chunk);
        assert(final(self)@.dom() =~= old(self)@.dom().insert(position));
    }

    /// Exec form of the split of a world position into a chunk position and
    /// local coordinates.
    fn locate(world_x: i64, world_y: i64, world_z: i64) -> (located: (ChunkPos, usize, usize, usize))
        ensures
            located.0 == chunk_containing(world_x as int, world_y as int, world_z as int),
            located.1 == local_coord(world_x as int),
            located.2 == local_coord(world_y as int),
            located.3 == local_coord(world_z as int),
            located.1 < 16 && located.2 < 16 && located.3 < 16,
    {
        proof {
            lemma_world_coord_split(world_x as int, 0);
            lemma_world_coord_split(world_y as int, 0);
            lemma_world_coord_split(world_z as int, 0);
        }
        let size = CHUNK_SIZE as i64;
        let chunk_x = world_x.checked_div_euclid(size).unwrap();
        let chunk_y = world_y.checked_div_euclid(size).unwrap();
        let chunk_z = world_z.checked_div_euclid(size).unwrap();
        let local_x = world_x.checked_rem_euclid(size).unwrap() as usize;
        let local_y = world_y.checked_rem_euclid(size).unwrap() as usize;
        let local_z = world_z.checked_rem_euclid(size).unwrap() as usize;
        (ChunkPos { x: chunk_x, y: chunk_y, z: chunk_z }, local_x, local_y, local_z)
    }

    /// The block at world coordinates; air where the containing chunk is not
    /// loaded.
    pub fn get_block(&self, world_x: i64, world_y: i64, world_z: i64) -> (block: Block)
        requires
            self.wf(),
            self.can_reach(world_x as int, world_y as int, world_z as int),
        ensures
            block == self.block_at(world_x as int, world_y as int, world_z as int),
    {
        let (chunk_pos, local_x, local_y, local_z) = Self::locate(world_x, world_y, world_z);
        match self.get_chunk(chunk_pos) {
            Some(chunk) => chunk.get(local_x, local_y, local_z),
            None => Block::Air,
        }
    }

    /// Places `block` at world coordinates, if the containing chunk is
    /// loaded; does nothing otherwise. Afterwards the position reads back the
    /// block placed (air if nothing was placed), and every other position
    /// reads as before.
    pub fn set_block(&mut self, world_x: i64, world_y: i64, world_z: i64, block: Block)
        requires
            old(self).wf(),
            old(self).can_reach(world_x as int, world_y as int, world_z as int),
        ensures
            final(self).wf(),
            !old(self)@.contains_key(chunk_containing(world_x as int, world_y as int, world_z as int))
                ==> final(self)@ == old(self)@,
            ({
                let c = chunk_containing(world_x as int, world_y as int, world_z as int);
                old(self)@.contains_key(c) ==> final(self)@ == old(self)@.insert(
                    c,
                    Chunk {
                        position: old(self)@[c].position,
                        blocks: final(self)@[c].blocks,
                    },
                ) && final(self)@[c].blocks@ == old(self)@[c].blocks@.update(
                    cell_index(
                        local_coord(world_x as int),
                        local_coord(world_y as int),
                        local_coord(world_z as int),
                    ),
                    block,
                )
            }),
            final(self)@.dom() == old(self)@.dom(),
            forall|p: ChunkPos| #[trigger] final(self)@.contains_key(p) ==> final(self)@[p].position == old(self)@[p].position
                && final(self)@[p].blocks@.len() == old(self)@[p].blocks@.len(),
            final(self).block_at(world_x as int, world_y as int, world_z as int) == (if old(self)@.contains_key(
                chunk_containing(world_x as int, world_y as int, world_z as int),
            ) {
                block
            } else {
                Block::Air
            }),
            forall|x: i64, y: i64, z: i64|
                !(x == world_x && y == world_y && z == world_z) && old(self).can_reach(x as int, y as int, z as int)
                    ==> #[trigger] final(self).block_at(
                    x as int,
                    y as int,
                    z as int,
                ) == old(self).block_at(x as int, y as int, z as int),
    {
        let (chunk_pos, local_x, local_y, local_z) = Self::locate(world_x, world_y, world_z);
        let ghost idx = cell_index(local_x as int, local_y as int, local_z as int);
        match self.get_chunk_mut(chunk_pos) {
            Some(chunk) => {
                chunk.set(local_x, local_y, local_z, block);
                proof {
                    let w = world_x as int;
                    let old_blocks = old(self)@[chunk_pos].blocks@;
                    assert(final(self)@ == old(self)@.insert(chunk_pos, *chunk));
                    assert(final(self)@.dom() =~= old(self)@.dom());
                    assert forall|x: i64, y: i64, z: i64|
                        !(x == world_x && y == world_y && z == world_z) && old(self).can_reach(x as int, y as int, z as int)
                            implies #[trigger] final(self).block_at(
                            x as int,
                            y as int,
                            z as int,
                        ) == old(self).block_at(x as int, y as int, z as int) by {
                        let c = chunk_containing(x as int, y as int, z as int);
                        if c == chunk_pos {
                            lemma_world_coord_split(x as int, world_x as int);
                            lemma_world_coord_split(y as int, world_y as int);
                            lemma_world_coord_split(z as int, world_z as int);
                            crate::chunk::lemma_set_then_get(
                                old_blocks,
                                local_x as int,
                                local_y as int,
                                local_z as int,
                                block,
                                local_coord(x as int),
                                local_coord(y as int),
                                local_coord(z as int),
                            );
                        }
                    }
                }
            },
            None => {},
        }
    }
}

} // verus!
