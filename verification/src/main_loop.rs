use vstd::prelude::*;

use std::time::Instant;

use crate::chunk::{in_chunk, Chunk, ChunkPos, ChunkSnapshot};
use crate::chunk_mesh::{in_range, lookup_block};
use crate::chunk_worker::ChunkRequest;
use crate::world::{chunk_containing, local_coord, World};

verus! {

/// A point in time read from the system's monotonic clock.
#[verifier::external_type_specification]
#[verifier::external_body]
pub struct ExInstant(Instant);

/// `std::time::Instant::now`: the current time. Nothing is stated of the
/// result: it depends on the clock.
#[verifier::external_body]
fn instant_now() -> Instant {
    Instant::now()
}

/// The time from the reading `earlier` to the reading `later`, in whole
/// nanoseconds (zero when `earlier` is the later one): what
/// `Instant::duration_since` followed by `Duration::as_nanos` gives.
pub uninterp spec fn elapsed_nanos(later: Instant, earlier: Instant) -> u128;

/// `std::time::Instant::duration_since` then `std::time::Duration::as_nanos`:
/// the time between two clock readings in nanoseconds. Both are functions of
/// the readings alone (the first saturates at zero and does not panic), so
/// the result is named by `elapsed_nanos`.
#[verifier::external_body]
fn elapsed_nanos_between(later: &Instant, earlier: &Instant) -> (nanos: u128)
    ensures
        nanos == elapsed_nanos(*later, *earlier),
{
    later.duration_since(*earlier).as_nanos()
}

/// Game ticks per second.
pub const TPS: u64 = 20;

/// Length of one game tick, in nanoseconds (one second over `TPS`).
pub const TICK_NANOS: u64 = 50_000_000;

/// The longest backlog of unsimulated time kept, in nanoseconds; older time
/// is dropped so that a long stall does not trigger a burst of ticks.
pub const MAX_BACKLOG_NANOS: u64 = 250_000_000;

/// The backlog after adding `delta` nanoseconds of elapsed time to `backlog`.
pub open spec fn capped_backlog(backlog: int, delta: int) -> int {
    if backlog + delta > MAX_BACKLOG_NANOS {
        MAX_BACKLOG_NANOS as int
    } else {
        backlog + delta
    }
}

/// Fixed-step game clock: collects elapsed time and tells how many whole
/// ticks are due.
pub struct GameLoop {
    last_time: Instant,
    accumulator_nanos: u64,
}

impl GameLoop {
    /// Time collected but not yet simulated, in nanoseconds.
    pub closed spec fn backlog(&self) -> int {
        self.accumulator_nanos as int
    }

    /// The clock reading that the backlog was last brought up to.
    pub closed spec fn last_reading(&self) -> Instant {
        self.last_time
    }

    /// The clock starts now with nothing collected.
    pub fn new() -> (game_loop: Self)
        ensures
            game_loop.backlog() == 0,
    {
        GameLoop { last_time: instant_now(), accumulator_nanos: 0 }
    }

    /// Adds `delta_nanos` of elapsed time, capped at `MAX_BACKLOG_NANOS` of
    /// backlog, and takes out every whole tick: returns how many ticks are
    /// due and keeps the remainder.
    pub fn accumulate(&mut self, delta_nanos: u128) -> (ticks: u64)
        requires
            old(self).backlog() < TICK_NANOS,
        ensures
            ticks == capped_backlog(old(self).backlog(), delta_nanos as int) / (TICK_NANOS as int),
            final(self).backlog() == capped_backlog(old(self).backlog(), delta_nanos as int) % (
            TICK_NANOS as int),
            final(self).last_reading() == old(self).last_reading(),
    {
        let backlog = self.accumulator_nanos as u128;
        let total: u64 = if delta_nanos >= MAX_BACKLOG_NANOS as u128 || backlog + delta_nanos
            > MAX_BACKLOG_NANOS as u128 {
            MAX_BACKLOG_NANOS
        } else {
            (backlog + delta_nanos) as u64
        };
        self.accumulator_nanos = total;
        let mut ticks: u64 = 0;
        while self.accumulator_nanos >= TICK_NANOS
            invariant
                self.accumulator_nanos <= total,
                ticks * TICK_NANOS + self.accumulator_nanos == total,
                ticks <= 5,
                total <= MAX_BACKLOG_NANOS,
                self.last_time == old(self).last_time,
            decreases self.accumulator_nanos,
        {
            self.accumulator_nanos = self.accumulator_nanos - TICK_NANOS;
            ticks += 1;
        }
        proof {
            vstd::arithmetic::div_mod::lemma_fundamental_div_mod_converse(
                total as int,
                TICK_NANOS as int,
                ticks as int,
                self.accumulator_nanos as int,
            );
        }
        ticks
    }

    /// Takes the clock reading `now`, collects the time elapsed since the
    /// last reading (capped at `MAX_BACKLOG_NANOS` of backlog), and returns
    /// how many whole ticks are due, keeping the remainder; at most
    /// `MAX_BACKLOG_NANOS / TICK_NANOS` ticks, whatever the clock said.
    pub fn advance(&mut self, now: Instant) -> (ticks: u64)
        requires
            old(self).backlog() < TICK_NANOS,
        ensures
            ticks == capped_backlog(
                old(self).backlog(),
                elapsed_nanos(now, old(self).last_reading()) as int,
            ) / (TICK_NANOS as int),
            final(self).backlog() == capped_backlog(
                old(self).backlog(),
                elapsed_nanos(now, old(self).last_reading()) as int,
            ) % (TICK_NANOS as int),
            ticks <= MAX_BACKLOG_NANOS / TICK_NANOS,
            final(self).backlog() < TICK_NANOS,
            final(self).last_reading() == now,
    {
        let delta = elapsed_nanos_between(&now, &self.last_time);
        self.last_time = now;
        let ticks = self.accumulate(delta);
        proof {
            vstd::arithmetic::div_mod::lemma_div_is_ordered(
                capped_backlog(old(self).backlog(), delta as int),
                MAX_BACKLOG_NANOS as int,
                TICK_NANOS as int,
            );
        }
        ticks
    }

    /// The positions of the six chunks that share a face with `position`,
    /// in the order -X, +X, -Y, +Y, -Z, +Z.
    pub fn neighbor_positions(position: ChunkPos) -> (neighbors: [ChunkPos; 6])
        requires
            i64::MIN < position.x < i64::MAX,
            i64::MIN < position.y < i64::MAX,
            i64::MIN < position.z < i64::MAX,
        ensures
            neighbors@ == face_neighbors(position),
    {
        let neighbors = [
            ChunkPos { x: position.x - 1, y: position.y, z: position.z },
            ChunkPos { x: position.x + 1, y: position.y, z: position.z },
            ChunkPos { x: position.x, y: position.y - 1, z: position.z },
            ChunkPos { x: position.x, y: position.y + 1, z: position.z },
            ChunkPos { x: position.x, y: position.y, z: position.z - 1 },
            ChunkPos { x: position.x, y: position.y, z: position.z + 1 },
        ];
        assert(neighbors@ =~= face_neighbors(position));
        neighbors
    }
}

/// The position one chunk away from `p` along `axis` (0 = X, 1 = Y, 2 = Z),
/// in direction `step` (-1 or +1).
pub open spec fn offset(p: ChunkPos, axis: int, step: int) -> ChunkPos {
    if axis == 0 {
        ChunkPos { x: (p.x + step) as i64, y: p.y, z: p.z }
    } else if axis == 1 {
        ChunkPos { x: p.x, y: (p.y + step) as i64, z: p.z }
    } else {
        ChunkPos { x: p.x, y: p.y, z: (p.z + step) as i64 }
    }
}

/// The six face neighbours of `p`: slot `2 * axis` is one step down the
/// axis and slot `2 * axis + 1` one step up.
pub open spec fn face_neighbors(p: ChunkPos) -> Seq<ChunkPos> {
    seq![
        offset(p, 0, -1),
        offset(p, 0, 1),
        offset(p, 1, -1),
        offset(p, 1, 1),
        offset(p, 2, -1),
        offset(p, 2, 1),
    ]
}

/// A game loop advanced by any elapsed time runs at most
/// `MAX_BACKLOG_NANOS / TICK_NANOS` ticks, keeps less than one tick of
/// backlog, and loses no time below the cap: the ticks run plus the backlog
/// kept add up to the capped total.
pub proof fn lemma_ticks_account_for_time(backlog: int, delta: int)
    requires
        0 <= backlog < TICK_NANOS,
        0 <= delta,
    ensures
        capped_backlog(backlog, delta) / (TICK_NANOS as int) <= MAX_BACKLOG_NANOS / TICK_NANOS,
        0 <= capped_backlog(backlog, delta) % (TICK_NANOS as int) < TICK_NANOS,
        (capped_backlog(backlog, delta) / (TICK_NANOS as int)) * TICK_NANOS + capped_backlog(
            backlog,
            delta,
        ) % (TICK_NANOS as int) == capped_backlog(backlog, delta),
        backlog + delta <= MAX_BACKLOG_NANOS ==> capped_backlog(backlog, delta) == backlog + delta,
{
    let total = capped_backlog(backlog, delta);
    vstd::arithmetic::div_mod::lemma_div_is_ordered(total, MAX_BACKLOG_NANOS as int, TICK_NANOS as int);
    vstd::arithmetic::div_mod::lemma_fundamental_div_mod(total, TICK_NANOS as int);
    vstd::arithmetic::div_mod::lemma_mod_bound(total, TICK_NANOS as int);
}

/// A set of chunk positions (the chunks waiting on the worker).
pub struct ChunkSet {
    items: Vec<ChunkPos>,
}

impl View for ChunkSet {
    type V = Set<ChunkPos>;

    closed spec fn view(&self) -> Set<ChunkPos> {
        Set::new(|p: ChunkPos| self.items@.contains(p))
    }
}

impl ChunkSet {
    /// No position is stored twice.
    pub closed spec fn wf(&self) -> bool {
        self.items@.no_duplicates()
    }

    /// The empty set.
    pub fn new() -> (set: Self)
        ensures
            set.wf(),
            set@ == Set::<ChunkPos>::empty(),
    {
        let set = ChunkSet { items: Vec::new() };
        assert(set@ =~= Set::<ChunkPos>::empty());
        set
    }

    /// Where `p` is stored, if it is.
    fn find(&self, p: ChunkPos) -> (found: Option<usize>)
        ensures
            match found {
                Some(i) => i < self.items@.len() && self.items@[i as int] == p,
                None => !self@.contains(p),
            },
    {
        let mut i: usize = 0;
        while i < self.items.len()
            invariant
                i <= self.items@.len(),
                forall|k: int| 0 <= k < i ==> self.items@[k] != p,
            decreases self.items@.len() - i,
        {
            if self.items[i] == p {
                return Some(i);
            }
            i += 1;
        }
        None
    }

    /// Whether `p` is in the set.
    pub fn contains(&self, p: ChunkPos) -> (found: bool)
        ensures
            found == self@.contains(p),
    {
        self.find(p).is_some()
    }

    /// Adds `p`; returns whether it was new.
    pub fn insert(&mut self, p: ChunkPos) -> (added: bool)
        requires
            old(self).wf(),
        ensures
            final(self).wf(),
            final(self)@ == old(self)@.insert(p),
            added == !old(self)@.contains(p),
    {
        if self.find(p).is_some() {
            assert(self@ =~= old(self)@.insert(p));
            return false;
        }
        self.items.push(p);
        assert(self@ =~= old(self)@.insert(p)) by {
            assert forall|q: ChunkPos| self.items@.contains(q) == (old(self).items@.contains(q) || q == p) by {
                if old(self).items@.contains(q) {
                    let k = choose|k: int| 0 <= k < old(self).items@.len() && old(self).items@[k] == q;
                    assert(self.items@[k] == q);
                }
                if q == p {
                    assert(self.items@[self.items@.len() - 1] == q);
                }
                if self.items@.contains(q) {
                    let k = choose|k: int| 0 <= k < self.items@.len() && self.items@[k] == q;
                    if k < old(self).items@.len() {
                        assert(old(self).items@[k] == q);
                    }
                }
            }
        }
        true
    }

    /// Removes `p`; returns whether it was there.
    pub fn remove(&mut self, p: ChunkPos) -> (removed: bool)
        requires
            old(self).wf(),
        ensures
            final(self).wf(),
            final(self)@ == old(self)@.remove(p),
            removed == old(self)@.contains(p),
    {
        match self.find(p) {
            None => {
                assert(self@ =~= old(self)@.remove(p));
                false
            },
            Some(i) => {
                let ghost before = self.items@;
                self.items.remove(i);
                assert(self.items@ == before.remove(i as int));
                assert(self@ =~= old(self)@.remove(p)) by {
                    assert forall|q: ChunkPos| self.items@.contains(q) == (before.contains(q) && q != p) by {
                        if self.items@.contains(q) {
                            let k = choose|k: int| 0 <= k < self.items@.len() && self.items@[k] == q;
                            if k < i {
                                assert(before[k] == q);
                            } else {
                                assert(before[k + 1] == q);
                            }
                        }
                        if before.contains(q) && q != p {
                            let k = choose|k: int| 0 <= k < before.len() && before[k] == q;
                            if k < i {
                                assert(self.items@[k] == q);
                            } else {
                                assert(k != i);
                                assert(self.items@[k - 1] == q);
                            }
                        }
                    }
                }
                assert(self.items@.no_duplicates()) by {
                    assert forall|a: int, b: int| 0 <= a < self.items@.len() && 0 <= b < self.items@.len() && a != b implies self.items@[a] != self.items@[b] by {
                        let a2 = if a < i { a } else { a + 1 };
                        let b2 = if b < i { b } else { b + 1 };
                        assert(self.items@[a] == before[a2]);
                        assert(self.items@[b] == before[b2]);
                    }
                }
                true
            },
        }
    }
}

/// Whether `p` and its face neighbours have coordinates within `margin` of
/// the ends of `i64`.
pub open spec fn away_from_edges(p: ChunkPos, margin: int) -> bool {
    &&& i64::MIN + margin <= p.x <= i64::MAX - margin
    &&& i64::MIN + margin <= p.y <= i64::MAX - margin
    &&& i64::MIN + margin <= p.z <= i64::MAX - margin
}

/// Whether `snapshot` copies the chunk `world` holds at `p`.
pub open spec fn snapshot_of(snapshot: ChunkSnapshot, world: Map<ChunkPos, Chunk>, p: ChunkPos) -> bool {
    &&& world.contains_key(p)
    &&& snapshot.position == world[p].position
    &&& snapshot.blocks@ == world[p].blocks@
}

/// Whether slot `k` of `neighbors` holds a copy of the chunk `world` holds
/// at the `k`-th face neighbour of `p`, and is empty when there is none.
pub open spec fn neighbor_snapshots_of(
    neighbors: [Option<ChunkSnapshot>; 6],
    world: Map<ChunkPos, Chunk>,
    p: ChunkPos,
) -> bool {
    forall|k: int|
        0 <= k < 6 ==> match #[trigger] neighbors[k] {
            Some(s) => snapshot_of(s, world, face_neighbors(p)[k]),
            None => !world.contains_key(face_neighbors(p)[k]),
        }
}

/// A copy of the chunk at `p`, if it is loaded.
fn snapshot_at(world: &World, p: ChunkPos) -> (snapshot: Option<ChunkSnapshot>)
    requires
        world.wf(),
    ensures
        match snapshot {
            Some(s) => snapshot_of(s, world@, p),
            None => !world@.contains_key(p),
        },
{
    match world.get_chunk(p) {
        Some(chunk) => Some(ChunkSnapshot::from_chunk(chunk)),
        None => None,
    }
}

impl GameLoop {
    /// Copies of the six face neighbours of `position`, where loaded, in the
    /// order -X, +X, -Y, +Y, -Z, +Z.
    pub fn get_neighbor_snapshots(world: &World, position: ChunkPos) -> (neighbors: [Option<ChunkSnapshot>; 6])
        requires
            world.wf(),
            away_from_edges(position, 1),
        ensures
            neighbor_snapshots_of(neighbors, world@, position),
    {
        let n = GameLoop::neighbor_positions(position);
        let neighbors = [
            snapshot_at(world, n[0]),
            snapshot_at(world, n[1]),
            snapshot_at(world, n[2]),
            snapshot_at(world, n[3]),
            snapshot_at(world, n[4]),
            snapshot_at(world, n[5]),
        ];
        assert forall|k: int| 0 <= k < 6 implies match #[trigger] neighbors[k] {
            Some(s) => snapshot_of(s, world@, face_neighbors(position)[k]),
            None => !world@.contains_key(face_neighbors(position)[k]),
        } by {
            assert(n[k] == face_neighbors(position)[k]);
        }
        neighbors
    }
}

/// The loaded world and the bookkeeping of work handed to the chunk worker.
pub struct ChunkTracker {
    pub world: World,
    /// Chunks whose generation was requested and has not come back.
    pub pending_chunks: ChunkSet,
    /// Chunks with a remesh in flight.
    pub pending_remeshes: ChunkSet,
    /// Chunks that changed while their remesh was in flight and need another.
    pub remesh_again: ChunkSet,
}

/// The remesh bookkeeping: remeshes in flight and remeshes owed.
pub struct RemeshState {
    pub pending: Set<ChunkPos>,
    pub again: Set<ChunkPos>,
}

/// One remesh request for `p` against `world`: if one is already in flight,
/// `p` is marked to be remeshed again when it returns; if `p` is not loaded
/// nothing happens; otherwise `p` becomes in flight and is requested.
pub open spec fn queue_step(world: Map<ChunkPos, Chunk>, s: RemeshState, p: ChunkPos) -> (RemeshState, Seq<ChunkPos>) {
    if s.pending.contains(p) {
        (RemeshState { pending: s.pending, again: s.again.insert(p) }, seq![])
    } else if !world.contains_key(p) {
        (s, seq![])
    } else {
        (RemeshState { pending: s.pending.insert(p), again: s.again }, seq![p])
    }
}

/// Remesh requests for each of `targets` in turn; the state reached and the
/// positions requested.
pub open spec fn queue_all(world: Map<ChunkPos, Chunk>, s: RemeshState, targets: Seq<ChunkPos>) -> (RemeshState, Seq<ChunkPos>)
    decreases targets.len(),
{
    if targets.len() == 0 {
        (s, seq![])
    } else {
        let front = queue_all(world, s, targets.drop_last());
        let last = queue_step(world, front.0, targets.last());
        (last.0, front.1 + last.1)
    }
}

/// The positions of `qs` whose chunk `world` holds, in order.
pub open spec fn loaded_only(world: Map<ChunkPos, Chunk>, qs: Seq<ChunkPos>) -> Seq<ChunkPos>
    decreases qs.len(),
{
    if qs.len() == 0 {
        seq![]
    } else if world.contains_key(qs.last()) {
        loaded_only(world, qs.drop_last()).push(qs.last())
    } else {
        loaded_only(world, qs.drop_last())
    }
}

/// Whether `request` is the remesh request for `p` against `world`.
pub open spec fn is_remesh_request(request: ChunkRequest, world: Map<ChunkPos, Chunk>, p: ChunkPos) -> bool {
    request matches ChunkRequest::Remesh { position, chunk, neighbors } && position == p && snapshot_of(
        chunk,
        world,
        p,
    ) && neighbor_snapshots_of(neighbors, world, p)
}

impl ChunkTracker {
    /// The world is consistent, every loaded chunk stores all its cells, and
    /// the three sets hold no duplicates.
    pub open spec fn wf(&self) -> bool {
        &&& self.world.wf()
        &&& self.pending_chunks.wf()
        &&& self.pending_remeshes.wf()
        &&& self.remesh_again.wf()
        &&& forall|p: ChunkPos| #[trigger] self.world@.contains_key(p) ==> self.world@[p].is_complete()
    }

    /// The remesh bookkeeping as sets.
    pub open spec fn remesh_state(&self) -> RemeshState {
        RemeshState { pending: self.pending_remeshes@, again: self.remesh_again@ }
    }

    /// Tracks `world` with nothing in flight.
    pub fn new(world: World) -> (tracker: Self)
        requires
            world.wf(),
            forall|p: ChunkPos| #[trigger] world@.contains_key(p) ==> world@[p].is_complete(),
        ensures
            tracker.wf(),
            tracker.world == world,
            tracker.pending_chunks@ == Set::<ChunkPos>::empty(),
            tracker.pending_remeshes@ == Set::<ChunkPos>::empty(),
            tracker.remesh_again@ == Set::<ChunkPos>::empty(),
    {
        ChunkTracker {
            world,
            pending_chunks: ChunkSet::new(),
            pending_remeshes: ChunkSet::new(),
            remesh_again: ChunkSet::new(),
        }
    }
}

impl GameLoop {
    /// Asks for a remesh of the chunk at `position` (see `queue_step`):
    /// returns the request to send, if any.
    pub fn queue_remesh(tracker: &mut ChunkTracker, position: ChunkPos) -> (request: Option<ChunkRequest>)
        requires
            old(tracker).wf(),
            !old(tracker).pending_remeshes@.contains(position) && old(tracker).world@.contains_key(
                position,
            ) ==> away_from_edges(position, 1),
        ensures
            final(tracker).wf(),
            final(tracker).world == old(tracker).world,
            final(tracker).pending_chunks@ == old(tracker).pending_chunks@,
            final(tracker).remesh_state() == queue_step(old(tracker).world@, old(tracker).remesh_state(), position).0,
            match request {
                Some(r) => queue_step(old(tracker).world@, old(tracker).remesh_state(), position).1 == seq![position]
                    && is_remesh_request(r, old(tracker).world@, position),
                None => queue_step(old(tracker).world@, old(tracker).remesh_state(), position).1 == Seq::<ChunkPos>::empty(),
            },
    {
        if tracker.pending_remeshes.contains(position) {
            tracker.remesh_again.insert(position);
            return None;
        }
        let chunk = match snapshot_at(&tracker.world, position) {
            Some(chunk) => chunk,
            None => {
                return None;
            },
        };
        let neighbors = GameLoop::get_neighbor_snapshots(&tracker.world, position);
        tracker.pending_remeshes.insert(position);
        Some(ChunkRequest::Remesh { position, chunk, neighbors })
    }
}

/// The world after a worker result that carries `chunk` (present for a
/// generated chunk, stored under its own position; absent for a remesh).
pub open spec fn world_after_result(world: Map<ChunkPos, Chunk>, position: ChunkPos, chunk: Option<Chunk>) -> Map<ChunkPos, Chunk> {
    match chunk {
        Some(c) => world.insert(c.position, c),
        None => world,
    }
}

/// The remesh bookkeeping and the remeshes requested after a worker result
/// for `position`: the result's own remesh is no longer in flight (for a
/// remesh result); a generated chunk asks for a remesh of each loaded face
/// neighbour, in slot order; and if `position` was marked for another
/// remesh, the mark is cleared and the remesh asked for.
pub open spec fn after_result(
    world: Map<ChunkPos, Chunk>,
    s: RemeshState,
    position: ChunkPos,
    is_new: bool,
) -> (RemeshState, Seq<ChunkPos>) {
    let s0 = if is_new {
        s
    } else {
        RemeshState { pending: s.pending.remove(position), again: s.again }
    };
    let targets = if is_new {
        loaded_only(world, face_neighbors(position))
    } else {
        seq![]
    };
    let a = queue_all(world, s0, targets);
    let s2 = RemeshState { pending: a.0.pending, again: a.0.again.remove(position) };
    let b = if a.0.again.contains(position) {
        queue_step(world, s2, position)
    } else {
        (s2, seq![])
    };
    (b.0, a.1 + b.1)
}

impl GameLoop {
    /// Takes in a worker result for `position`: stores a generated chunk
    /// (it is no longer pending) or notes a finished remesh, then asks for
    /// the remeshes `after_result` describes. Returns the requests to send;
    /// the result's mesh is the caller's to upload.
    pub fn receive_chunk(tracker: &mut ChunkTracker, position: ChunkPos, chunk: Option<Chunk>) -> (requests: Vec<ChunkRequest>)
        requires
            old(tracker).wf(),
            away_from_edges(position, 2),
            chunk matches Some(c) ==> c.is_complete(),
        ensures
            final(tracker).wf(),
            final(tracker).world@ == world_after_result(old(tracker).world@, position, chunk),
            final(tracker).pending_chunks@ == (if chunk is Some {
                old(tracker).pending_chunks@.remove(position)
            } else {
                old(tracker).pending_chunks@
            }),
            final(tracker).remesh_state() == after_result(
                world_after_result(old(tracker).world@, position, chunk),
                old(tracker).remesh_state(),
                position,
                chunk is Some,
            ).0,
            requests@.len() == after_result(
                world_after_result(old(tracker).world@, position, chunk),
                old(tracker).remesh_state(),
                position,
                chunk is Some,
            ).1.len(),
            forall|i: int|
                0 <= i < requests@.len() ==> is_remesh_request(
                    #[trigger] requests@[i],
                    world_after_result(old(tracker).world@, position, chunk),
                    after_result(
                        world_after_result(old(tracker).world@, position, chunk),
                        old(tracker).remesh_state(),
                        position,
                        chunk is Some,
                    ).1[i],
                ),
            chunk is Some ==> forall|n: ChunkPos|
                shares_a_face(position, n) && #[trigger] final(tracker).world@.contains_key(n) ==> (exists|i: int|
                    0 <= i < requests@.len() && is_remesh_request(
                        #[trigger] requests@[i],
                        final(tracker).world@,
                        n,
                    )) && final(tracker).pending_remeshes@.contains(n) || final(tracker).remesh_again@.contains(n),
    {
        let is_new = chunk.is_some();
        let ghost world1 = world_after_result(old(tracker).world@, position, chunk);
        match chunk {
            Some(c) => {
                tracker.pending_chunks.remove(position);
                tracker.world.add_chunk(c);
            },
            None => {
                tracker.pending_remeshes.remove(position);
            },
        }
        let ghost s0 = tracker.remesh_state();
        let ghost targets = if is_new {
            loaded_only(world1, face_neighbors(position))
        } else {
            seq![]
        };
        let mut requests: Vec<ChunkRequest> = Vec::new();
        let ghost mut queued: Seq<ChunkPos> = seq![];
        proof {
            assert(tracker.world@ == world1);
            assert(s0 == (if is_new {
                old(tracker).remesh_state()
            } else {
                RemeshState { pending: old(tracker).remesh_state().pending.remove(position), again: old(tracker).remesh_state().again }
            }));
            assert forall|p: ChunkPos| #[trigger] tracker.world@.contains_key(p) implies tracker.world@[p].is_complete() by {
                if !(chunk matches Some(c) && p == c.position) {
                    assert(old(tracker).world@.contains_key(p));
                }
            }
        }
        if is_new {
            let neighbors = GameLoop::neighbor_positions(position);
            let mut k: usize = 0;
            while k < 6
                invariant
                    k <= 6,
                    tracker.wf(),
                    is_new,
                    away_from_edges(position, 2),
                    neighbors@ == face_neighbors(position),
                    tracker.world@ == world1,
                    tracker.pending_chunks@ == old(tracker).pending_chunks@.remove(position),
                    (tracker.remesh_state(), queued) == queue_all(world1, s0, loaded_only(world1, face_neighbors(position).subrange(0, k as int))),
                    requests@.len() == queued.len(),
                    forall|i: int| 0 <= i < requests@.len() ==> is_remesh_request(#[trigger] requests@[i], world1, queued[i]),
                decreases 6 - k,
            {
                let n = neighbors[k];
                let ghost front = face_neighbors(position).subrange(0, k as int);
                proof {
                    assert(face_neighbors(position).subrange(0, k + 1).drop_last() =~= front);
                    assert(face_neighbors(position).subrange(0, k + 1).last() == n);
                }
                if tracker.world.contains_chunk(n) {
                    let ghost before = tracker.remesh_state();
                    let queued_request = GameLoop::queue_remesh(tracker, n);
                    proof {
                        let l = loaded_only(world1, face_neighbors(position).subrange(0, k + 1));
                        assert(l == loaded_only(world1, front).push(n));
                        assert(l.drop_last() =~= loaded_only(world1, front));
                    }
                    match queued_request {
                        Some(r) => {
                            requests.push(r);
                            proof {
                                queued = queued + seq![n];
                            }
                        },
                        None => {
                            proof {
                                assert(queued + Seq::<ChunkPos>::empty() =~= queued);
                            }
                        },
                    }
                } else {
                    proof {
                        assert(loaded_only(world1, face_neighbors(position).subrange(0, k + 1)) == loaded_only(world1, front));
                    }
                }
                k += 1;
            }
            proof {
                assert(face_neighbors(position).subrange(0, 6) =~= face_neighbors(position));
            }
        } else {
            proof {
                assert(queue_all(world1, s0, targets) == (s0, Seq::<ChunkPos>::empty()));
            }
        }
        let ghost a_state = tracker.remesh_state();
        if tracker.remesh_again.remove(position) {
            let queued_request = GameLoop::queue_remesh(tracker, position);
            match queued_request {
                Some(r) => {
                    requests.push(r);
                    proof {
                        queued = queued + seq![position];
                    }
                },
                None => {
                    proof {
                        assert(queued + Seq::<ChunkPos>::empty() =~= queued);
                    }
                },
            }
        } else {
            proof {
                assert(queued + Seq::<ChunkPos>::empty() =~= queued);
            }
        }
        proof {
            if is_new {
                let res = after_result(world1, old(tracker).remesh_state(), position, true);
                assert(queued == res.1);
                assert forall|n: ChunkPos|
                    shares_a_face(position, n) && #[trigger] tracker.world@.contains_key(n) implies (exists|i: int|
                        0 <= i < requests@.len() && is_remesh_request(#[trigger] requests@[i], tracker.world@, n))
                        && tracker.pending_remeshes@.contains(n) || tracker.remesh_again@.contains(n) by {
                    lemma_new_chunk_remeshes_loaded_neighbors(world1, old(tracker).remesh_state(), position, n);
                    if res.1.contains(n) && res.0.pending.contains(n) {
                        let j = choose|j: int| 0 <= j < res.1.len() && res.1[j] == n;
                        assert(is_remesh_request(requests@[j], tracker.world@, n));
                    }
                }
            }
        }
        requests
    }
}

/// How far around the camera chunks are loaded, in chunks.
pub const RENDER_DISTANCE: i64 = 10;

/// The most chunk generations requested in one tick.
pub const MAX_REQUESTS_PER_TICK: usize = 50;

/// Distance of an offset from the centre in rings (the larger coordinate).
pub open spec fn ring_radius(dx: int, dz: int) -> int {
    let ax = if dx < 0 { -dx } else { dx };
    let az = if dz < 0 { -dz } else { dz };
    if ax < az { az } else { ax }
}

/// The order in which offsets are visited: inner rings first, then by X,
/// then by Z.
pub open spec fn visited_before(dx: int, dz: int, r: int, x: int, z: int) -> bool {
    let rq = ring_radius(dx, dz);
    rq < r || (rq == r && (dx < x || (dx == x && dz < z)))
}

/// Positions in strictly increasing walking order are all different.
proof fn lemma_ordered_distinct(ps: Seq<ChunkPos>, cx: int, cz: int)
    requires
        forall|i: int, j: int| 0 <= i < j < ps.len() ==> ring_order(ring_offset(#[trigger] ps[i], cx, cz), ring_offset(#[trigger] ps[j], cx, cz)),
    ensures
        ps.no_duplicates(),
{
    assert forall|i: int, j: int| 0 <= i < ps.len() && 0 <= j < ps.len() && i != j implies ps[i] != ps[j] by {
        if i < j {
            assert(ring_order(ring_offset(ps[i], cx, cz), ring_offset(ps[j], cx, cz)));
        } else {
            assert(ring_order(ring_offset(ps[j], cx, cz), ring_offset(ps[i], cx, cz)));
        }
    }
}

/// Whether offset `a` is visited before offset `b`.
pub open spec fn ring_order(a: (int, int), b: (int, int)) -> bool {
    visited_before(a.0, a.1, ring_radius(b.0, b.1), b.0, b.1)
}

/// The offset of `p` from the column `(cx, cz)`.
pub open spec fn ring_offset(p: ChunkPos, cx: int, cz: int) -> (int, int) {
    (p.x - cx, p.z - cz)
}

/// Whether the chunk at `p` should be requested around the column
/// `(cx, cz)`: it is on the ground layer (`y == 0`), within the render
/// distance, not loaded and not already requested.
pub open spec fn wanted(world: Map<ChunkPos, Chunk>, pending: Set<ChunkPos>, cx: int, cz: int, p: ChunkPos) -> bool {
    &&& p.y == 0
    &&& ring_radius(p.x - cx, p.z - cz) <= RENDER_DISTANCE
    &&& !world.contains_key(p)
    &&& !pending.contains(p)
}

/// Whether `request` is the generation request for `p` against `world`.
pub open spec fn is_generate_request(request: ChunkRequest, world: Map<ChunkPos, Chunk>, p: ChunkPos) -> bool {
    request matches ChunkRequest::Generate { position, neighbors } && position == p
        && neighbor_snapshots_of(neighbors, world, p)
}

/// The positions the requests are for.
pub open spec fn request_positions(requests: Seq<ChunkRequest>) -> Seq<ChunkPos> {
    requests.map_values(|r: ChunkRequest| match r {
        ChunkRequest::Generate { position, .. } => position,
        ChunkRequest::Remesh { position, .. } => position,
    })
}

impl GameLoop {
    /// Requests the chunks around the camera's chunk column `(center_x,
    /// center_z)`: walking the rings of the render distance from the centre
    /// out (each ring by X, then by Z), every chunk not loaded and not
    /// already requested is requested, up to `MAX_REQUESTS_PER_TICK`; the
    /// requested chunks become pending. Returns the requests to send, in
    /// walking order.
    pub fn request_chunks(tracker: &mut ChunkTracker, center_x: i64, center_z: i64) -> (requests: Vec<ChunkRequest>)
        requires
            old(tracker).wf(),
            i64::MIN + 11 <= center_x <= i64::MAX - 11,
            i64::MIN + 11 <= center_z <= i64::MAX - 11,
        ensures
            final(tracker).wf(),
            final(tracker).world == old(tracker).world,
            final(tracker).pending_remeshes@ == old(tracker).pending_remeshes@,
            final(tracker).remesh_again@ == old(tracker).remesh_again@,
            ({
                let ps = request_positions(requests@);
                let world = old(tracker).world@;
                let pending = old(tracker).pending_chunks@;
                &&& ps.len() <= MAX_REQUESTS_PER_TICK
                &&& ps.no_duplicates()
                &&& forall|i: int| 0 <= i < ps.len() ==> is_generate_request(#[trigger] requests@[i], world, ps[i])
                &&& forall|i: int| 0 <= i < ps.len() ==> wanted(world, pending, center_x as int, center_z as int, #[trigger] ps[i])
                &&& forall|i: int, j: int| 0 <= i < j < ps.len() ==> ring_order(
                    ring_offset(#[trigger] ps[i], center_x as int, center_z as int),
                    ring_offset(#[trigger] ps[j], center_x as int, center_z as int),
                )
                &&& forall|q: ChunkPos|
                    #[trigger] wanted(world, pending, center_x as int, center_z as int, q) && (ps.len() < MAX_REQUESTS_PER_TICK
                        || ring_order(ring_offset(q, center_x as int, center_z as int), ring_offset(ps.last(), center_x as int, center_z as int)))
                        ==> ps.contains(q)
                &&& final(tracker).pending_chunks@ == pending + ps.to_set()
            }),
    {
        let ghost world = old(tracker).world@;
        let ghost pending = old(tracker).pending_chunks@;
        let ghost cx = center_x as int;
        let ghost cz = center_z as int;
        let mut requests: Vec<ChunkRequest> = Vec::new();
        let ghost mut ps: Seq<ChunkPos> = seq![];
        proof {
            assert(pending + ps.to_set() =~= pending);
        }
        let mut radius: i64 = 0;
        while radius <= RENDER_DISTANCE
            invariant
                0 <= radius <= RENDER_DISTANCE + 1,
                tracker.wf(),
                tracker.world == old(tracker).world,
                tracker.pending_remeshes@ == old(tracker).pending_remeshes@,
                tracker.remesh_again@ == old(tracker).remesh_again@,
                world == old(tracker).world@,
                pending == old(tracker).pending_chunks@,
                cx == center_x,
                cz == center_z,
                i64::MIN + 11 <= center_x <= i64::MAX - 11,
                i64::MIN + 11 <= center_z <= i64::MAX - 11,
                ps == request_positions(requests@),
                ps.len() <= MAX_REQUESTS_PER_TICK,
                tracker.pending_chunks@ == pending + ps.to_set(),
                forall|i: int| 0 <= i < ps.len() ==> is_generate_request(#[trigger] requests@[i], world, ps[i]),
                forall|i: int| 0 <= i < ps.len() ==> wanted(world, pending, cx, cz, #[trigger] ps[i]) && visited_before(ps[i].x - cx, ps[i].z - cz, radius as int, -(radius as int), -(radius as int)),
                forall|i: int, j: int| 0 <= i < j < ps.len() ==> ring_order(ring_offset(#[trigger] ps[i], cx, cz), ring_offset(#[trigger] ps[j], cx, cz)),
                forall|q: ChunkPos| #[trigger] wanted(world, pending, cx, cz, q) && visited_before(q.x - cx, q.z - cz, radius as int, -(radius as int), -(radius as int)) ==> ps.contains(q),
            decreases RENDER_DISTANCE + 1 - radius,
        {
            let mut x: i64 = -radius;
            while x <= radius
                invariant
                    0 <= radius <= RENDER_DISTANCE,
                    -radius <= x <= radius + 1,
                    tracker.wf(),
                    tracker.world == old(tracker).world,
                    tracker.pending_remeshes@ == old(tracker).pending_remeshes@,
                    tracker.remesh_again@ == old(tracker).remesh_again@,
                    world == old(tracker).world@,
                    pending == old(tracker).pending_chunks@,
                    cx == center_x,
                    cz == center_z,
                    i64::MIN + 11 <= center_x <= i64::MAX - 11,
                    i64::MIN + 11 <= center_z <= i64::MAX - 11,
                    ps == request_positions(requests@),
                    ps.len() <= MAX_REQUESTS_PER_TICK,
                    tracker.pending_chunks@ == pending + ps.to_set(),
                    forall|i: int| 0 <= i < ps.len() ==> is_generate_request(#[trigger] requests@[i], world, ps[i]),
                    forall|i: int| 0 <= i < ps.len() ==> wanted(world, pending, cx, cz, #[trigger] ps[i]) && visited_before(ps[i].x - cx, ps[i].z - cz, radius as int, x as int, -(radius as int)),
                    forall|i: int, j: int| 0 <= i < j < ps.len() ==> ring_order(ring_offset(#[trigger] ps[i], cx, cz), ring_offset(#[trigger] ps[j], cx, cz)),
                    forall|q: ChunkPos| #[trigger] wanted(world, pending, cx, cz, q) && visited_before(q.x - cx, q.z - cz, radius as int, x as int, -(radius as int)) ==> ps.contains(q),
                decreases radius + 1 - x,
            {
                let mut z: i64 = -radius;
                while z <= radius
                    invariant
                        0 <= radius <= RENDER_DISTANCE,
                        -radius <= x <= radius,
                        -radius <= z <= radius + 1,
                        tracker.wf(),
                        tracker.world == old(tracker).world,
                        tracker.pending_remeshes@ == old(tracker).pending_remeshes@,
                        tracker.remesh_again@ == old(tracker).remesh_again@,
                        world == old(tracker).world@,
                        pending == old(tracker).pending_chunks@,
                        cx == center_x,
                        cz == center_z,
                        i64::MIN + 11 <= center_x <= i64::MAX - 11,
                        i64::MIN + 11 <= center_z <= i64::MAX - 11,
                        ps == request_positions(requests@),
                        ps.len() <= MAX_REQUESTS_PER_TICK,
                        tracker.pending_chunks@ == pending + ps.to_set(),
                        forall|i: int| 0 <= i < ps.len() ==> is_generate_request(#[trigger] requests@[i], world, ps[i]),
                        forall|i: int| 0 <= i < ps.len() ==> wanted(world, pending, cx, cz, #[trigger] ps[i]) && visited_before(ps[i].x - cx, ps[i].z - cz, radius as int, x as int, z as int),
                        forall|i: int, j: int| 0 <= i < j < ps.len() ==> ring_order(ring_offset(#[trigger] ps[i], cx, cz), ring_offset(#[trigger] ps[j], cx, cz)),
                        forall|q: ChunkPos| #[trigger] wanted(world, pending, cx, cz, q) && visited_before(q.x - cx, q.z - cz, radius as int, x as int, z as int) ==> ps.contains(q),
                    decreases radius + 1 - z,
                {
                    if requests.len() >= MAX_REQUESTS_PER_TICK {
                        proof {
                            let last = ps.last();
                            assert forall|q: ChunkPos| #[trigger] wanted(world, pending, cx, cz, q) && (ps.len() < MAX_REQUESTS_PER_TICK
                                || ring_order(ring_offset(q, cx, cz), ring_offset(ps.last(), cx, cz))) implies ps.contains(q) by {
                                assert(visited_before(last.x - cx, last.z - cz, radius as int, x as int, z as int));
                            }
                            lemma_ordered_distinct(ps, cx, cz);
                        }
                        return requests;
                    }
                    if x != radius && x != -radius && z != radius && z != -radius {
                        z += 1;
                        continue;
                    }
                    let pos = ChunkPos { x: center_x + x, y: 0, z: center_z + z };
                    proof {
                        assert(ring_radius(x as int, z as int) == radius);
                        assert(ring_offset(pos, cx, cz) == (x as int, z as int));
                    }
                    if tracker.world.contains_chunk(pos) {
                        z += 1;
                        continue;
                    }
                    if tracker.pending_chunks.contains(pos) {
                        proof {
                            if !pending.contains(pos) {
                                let k = choose|k: int| 0 <= k < ps.len() && ps[k] == pos;
                                assert(visited_before(ps[k].x - cx, ps[k].z - cz, radius as int, x as int, z as int));
                            }
                        }
                        z += 1;
                        continue;
                    }
                    let neighbors = GameLoop::get_neighbor_snapshots(&tracker.world, pos);
                    tracker.pending_chunks.insert(pos);
                    requests.push(ChunkRequest::Generate { position: pos, neighbors });
                    proof {
                        let old_ps = ps;
                        ps = ps.push(pos);
                        assert(request_positions(requests@) =~= ps);
                        assert(tracker.pending_chunks@ =~= pending + ps.to_set()) by {
                            assert(ps.to_set() =~= old_ps.to_set().insert(pos)) by {
                                assert forall|q: ChunkPos| ps.contains(q) == (old_ps.contains(q) || q == pos) by {
                                    if ps.contains(q) {
                                        let k = choose|k: int| 0 <= k < ps.len() && ps[k] == q;
                                        if k < old_ps.len() {
                                            assert(old_ps[k] == q);
                                        }
                                    }
                                    if old_ps.contains(q) {
                                        let k = choose|k: int| 0 <= k < old_ps.len() && old_ps[k] == q;
                                        assert(ps[k] == q);
                                    }
                                    if q == pos {
                                        assert(ps[old_ps.len() as int] == q);
                                    }
                                }
                            }
                        }
                        assert(is_generate_request(requests@[old_ps.len() as int], world, ps[old_ps.len() as int]));
                        assert forall|q: ChunkPos| #[trigger] wanted(world, pending, cx, cz, q) && visited_before(q.x - cx, q.z - cz, radius as int, x as int, z + 1) implies ps.contains(q) by {
                            if q == pos {
                                assert(ps[old_ps.len() as int] == q);
                            } else {
                                assert(visited_before(q.x - cx, q.z - cz, radius as int, x as int, z as int));
                                let k = choose|k: int| 0 <= k < old_ps.len() && old_ps[k] == q;
                                assert(ps[k] == q);
                            }
                        }
                    }
                    z += 1;
                }
                x += 1;
            }
            radius += 1;
        }
        proof {
            assert forall|q: ChunkPos| #[trigger] wanted(world, pending, cx, cz, q) implies ps.contains(q) by {
                assert(visited_before(q.x - cx, q.z - cz, radius as int, -(radius as int), -(radius as int)));
            }
            lemma_ordered_distinct(ps, cx, cz);
        }
        requests
    }
}

/// The world coordinate `16 * c + l` lies in chunk coordinate `c` at local
/// coordinate `l`.
proof fn lemma_coord_in_chunk(c: int, l: int)
    requires
        0 <= l < 16,
    ensures
        (16 * c + l) / 16 == c,
        local_coord(16 * c + l) == l,
{
    vstd::arithmetic::div_mod::lemma_fundamental_div_mod_converse(16 * c + l, 16, c, l);
}

/// The chunk in neighbour slot `k` of `p` is the one that holds the world
/// cells just past face `k` of `p`, and the mesher's reading of that slot
/// (the far boundary layer: local 15 below the chunk, local 0 above it, the
/// other two coordinates unchanged) is where those cells sit in it. So the
/// snapshots handed to meshing show exactly the blocks that border the
/// chunk in the world.
pub proof fn lemma_neighbor_slots_match_world(p: ChunkPos, a: int, b: int)
    requires
        away_from_edges(p, 1),
        0 <= a < 16,
        0 <= b < 16,
    ensures
        chunk_containing(16 * p.x - 1, 16 * p.y + a, 16 * p.z + b) == face_neighbors(p)[0],
        local_coord(16 * p.x - 1) == 15,
        chunk_containing(16 * p.x + 16, 16 * p.y + a, 16 * p.z + b) == face_neighbors(p)[1],
        local_coord(16 * p.x + 16) == 0,
        chunk_containing(16 * p.x + a, 16 * p.y - 1, 16 * p.z + b) == face_neighbors(p)[2],
        local_coord(16 * p.y - 1) == 15,
        chunk_containing(16 * p.x + a, 16 * p.y + 16, 16 * p.z + b) == face_neighbors(p)[3],
        local_coord(16 * p.y + 16) == 0,
        chunk_containing(16 * p.x + a, 16 * p.y + b, 16 * p.z - 1) == face_neighbors(p)[4],
        local_coord(16 * p.z - 1) == 15,
        chunk_containing(16 * p.x + a, 16 * p.y + b, 16 * p.z + 16) == face_neighbors(p)[5],
        local_coord(16 * p.z + 16) == 0,
        local_coord(16 * p.x + a) == a,
        local_coord(16 * p.y + a) == a,
        local_coord(16 * p.y + b) == b,
        local_coord(16 * p.z + b) == b,
        chunk_containing(16 * p.x + a, 16 * p.y + b, 16 * p.z + b) == p,
{
    lemma_coord_in_chunk(p.x - 1, 15);
    lemma_coord_in_chunk(p.x + 1, 0);
    lemma_coord_in_chunk(p.y - 1, 15);
    lemma_coord_in_chunk(p.y + 1, 0);
    lemma_coord_in_chunk(p.z - 1, 15);
    lemma_coord_in_chunk(p.z + 1, 0);
    lemma_coord_in_chunk(p.x as int, a);
    lemma_coord_in_chunk(p.y as int, a);
    lemma_coord_in_chunk(p.y as int, b);
    lemma_coord_in_chunk(p.z as int, b);
    assert(16 * p.x - 1 == 16 * (p.x - 1) + 15);
    assert(16 * p.x + 16 == 16 * (p.x + 1) + 0);
    assert(16 * p.y - 1 == 16 * (p.y - 1) + 15);
    assert(16 * p.y + 16 == 16 * (p.y + 1) + 0);
    assert(16 * p.z - 1 == 16 * (p.z - 1) + 15);
    assert(16 * p.z + 16 == 16 * (p.z + 1) + 0);
}

/// Meshing a loaded chunk with its neighbours copied from the world shows
/// exactly the world's blocks: at every cell meshing reads (inside the chunk
/// or one step past one of its faces), `lookup_block` over the snapshots is
/// the block the world holds at that position.
pub proof fn lemma_mesher_sees_world(
    world: World,
    p: ChunkPos,
    chunk: ChunkSnapshot,
    neighbors: [Option<ChunkSnapshot>; 6],
    x: int,
    y: int,
    z: int,
)
    requires
        away_from_edges(p, 1),
        snapshot_of(chunk, world@, p),
        neighbor_snapshots_of(neighbors, world@, p),
        -1 <= x <= 16,
        -1 <= y <= 16,
        -1 <= z <= 16,
        (in_range(x) as int) + (in_range(y) as int) + (in_range(z) as int) >= 2,
    ensures
        lookup_block(chunk, neighbors, x, y, z) == world.block_at(
            16 * p.x + x,
            16 * p.y + y,
            16 * p.z + z,
        ),
{
    let wx = 16 * p.x + x;
    let wy = 16 * p.y + y;
    let wz = 16 * p.z + z;
    if in_range(x) {
        lemma_coord_in_chunk(p.x as int, x);
    }
    if in_range(y) {
        lemma_coord_in_chunk(p.y as int, y);
    }
    if in_range(z) {
        lemma_coord_in_chunk(p.z as int, z);
    }
    if x == -1 {
        lemma_coord_in_chunk(p.x - 1, 15);
        assert(wx == 16 * (p.x - 1) + 15);
    }
    if x == 16 {
        lemma_coord_in_chunk(p.x + 1, 0);
        assert(wx == 16 * (p.x + 1) + 0);
    }
    if y == -1 {
        lemma_coord_in_chunk(p.y - 1, 15);
        assert(wy == 16 * (p.y - 1) + 15);
    }
    if y == 16 {
        lemma_coord_in_chunk(p.y + 1, 0);
        assert(wy == 16 * (p.y + 1) + 0);
    }
    if z == -1 {
        lemma_coord_in_chunk(p.z - 1, 15);
        assert(wz == 16 * (p.z - 1) + 15);
    }
    if z == 16 {
        lemma_coord_in_chunk(p.z + 1, 0);
        assert(wz == 16 * (p.z + 1) + 0);
    }
    let c = chunk_containing(wx, wy, wz);
    if in_chunk(x, y, z) {
        assert(c == p);
    } else if x < 0 {
        assert(c == face_neighbors(p)[0]);
        assert(neighbors[0] matches Some(s) ==> snapshot_of(s, world@, face_neighbors(p)[0]));
    } else if x >= 16 {
        assert(c == face_neighbors(p)[1]);
        assert(neighbors[1] matches Some(s) ==> snapshot_of(s, world@, face_neighbors(p)[1]));
    } else if y < 0 {
        assert(c == face_neighbors(p)[2]);
        assert(neighbors[2] matches Some(s) ==> snapshot_of(s, world@, face_neighbors(p)[2]));
    } else if y >= 16 {
        assert(c == face_neighbors(p)[3]);
        assert(neighbors[3] matches Some(s) ==> snapshot_of(s, world@, face_neighbors(p)[3]));
    } else if z < 0 {
        assert(c == face_neighbors(p)[4]);
        assert(neighbors[4] matches Some(s) ==> snapshot_of(s, world@, face_neighbors(p)[4]));
    } else {
        assert(c == face_neighbors(p)[5]);
        assert(neighbors[5] matches Some(s) ==> snapshot_of(s, world@, face_neighbors(p)[5]));
    }
}

/// Where the mesh of the chunk at `position` sits among the meshes kept for
/// `mesh_positions`: the first slot that holds that position, or `None`
/// when none does (and the new mesh is to be added at the end). Replacing
/// the mesh in the slot found, or adding one only when none is found, keeps
/// at most one mesh per chunk position.
pub fn mesh_slot(mesh_positions: &[ChunkPos], position: ChunkPos) -> (slot: Option<usize>)
    ensures
        match slot {
            Some(i) => i < mesh_positions@.len() && mesh_positions@[i as int] == position && forall|j: int|
                0 <= j < i ==> mesh_positions@[j] != position,
            None => !mesh_positions@.contains(position),
        },
        slot is None && mesh_positions@.no_duplicates() ==> mesh_positions@.push(position).no_duplicates(),
{
    let mut i: usize = 0;
    while i < mesh_positions.len()
        invariant
            i <= mesh_positions@.len(),
            forall|j: int| 0 <= j < i ==> mesh_positions@[j] != position,
        decreases mesh_positions@.len() - i,
    {
        if mesh_positions[i] == position {
            return Some(i);
        }
        i += 1;
    }
    proof {
        let s = mesh_positions@;
        assert forall|a: int, b: int|
            0 <= a < s.push(position).len() && 0 <= b < s.push(position).len() && a != b
                && s.no_duplicates() implies s.push(position)[a] != s.push(position)[b] by {
            if a == s.len() {
                assert(s[b] != position);
            } else if b == s.len() {
                assert(s[a] != position);
            }
        }
    }
    None
}

/// Whether the chunks at `p` and `n` share a face: they differ by one in
/// exactly one coordinate.
pub open spec fn shares_a_face(p: ChunkPos, n: ChunkPos) -> bool {
    ||| n.y == p.y && n.z == p.z && (n.x == p.x - 1 || n.x == p.x + 1)
    ||| n.x == p.x && n.z == p.z && (n.y == p.y - 1 || n.y == p.y + 1)
    ||| n.x == p.x && n.y == p.y && (n.z == p.z - 1 || n.z == p.z + 1)
}

/// One remesh step never forgets: what was in flight or marked stays so,
/// and it requests at most its own position.
proof fn lemma_queue_step_grows(world: Map<ChunkPos, Chunk>, s: RemeshState, p: ChunkPos)
    ensures
        forall|x: ChunkPos| #[trigger] s.pending.contains(x) ==> queue_step(world, s, p).0.pending.contains(x),
        forall|x: ChunkPos| #[trigger] s.again.contains(x) ==> queue_step(world, s, p).0.again.contains(x),
        world.contains_key(p) ==> (queue_step(world, s, p).1.contains(p) && queue_step(world, s, p).0.pending.contains(p))
            || queue_step(world, s, p).0.again.contains(p),
{
    if !s.pending.contains(p) && world.contains_key(p) {
        assert(queue_step(world, s, p).1[0] == p);
    }
}

/// After remesh requests for each of `targets`, every loaded target is
/// either requested and in flight or marked for another remesh, and nothing
/// in flight or marked before is forgotten.
proof fn lemma_queue_all_covers(world: Map<ChunkPos, Chunk>, s: RemeshState, targets: Seq<ChunkPos>)
    ensures
        forall|x: ChunkPos| #[trigger] s.pending.contains(x) ==> queue_all(world, s, targets).0.pending.contains(x),
        forall|x: ChunkPos| #[trigger] s.again.contains(x) ==> queue_all(world, s, targets).0.again.contains(x),
        forall|i: int|
            0 <= i < targets.len() && world.contains_key(#[trigger] targets[i]) ==> (queue_all(
                world,
                s,
                targets,
            ).1.contains(targets[i]) && queue_all(world, s, targets).0.pending.contains(targets[i]))
                || queue_all(world, s, targets).0.again.contains(targets[i]),
    decreases targets.len(),
{
    if targets.len() > 0 {
        let front_targets = targets.drop_last();
        lemma_queue_all_covers(world, s, front_targets);
        let front = queue_all(world, s, front_targets);
        let t = targets.last();
        lemma_queue_step_grows(world, front.0, t);
        let res = queue_all(world, s, targets);
        assert(res.1 == front.1 + queue_step(world, front.0, t).1);
        assert forall|i: int|
            0 <= i < targets.len() && world.contains_key(#[trigger] targets[i]) implies (res.1.contains(
            targets[i],
        ) && res.0.pending.contains(targets[i])) || res.0.again.contains(targets[i]) by {
            if i < targets.len() - 1 {
                assert(targets[i] == front_targets[i]);
                if front.1.contains(targets[i]) {
                    let j = choose|j: int| 0 <= j < front.1.len() && front.1[j] == targets[i];
                    assert(res.1[j] == targets[i]);
                }
            } else {
                if queue_step(world, front.0, t).1.contains(t) {
                    let j = choose|j: int|
                        0 <= j < queue_step(world, front.0, t).1.len() && queue_step(world, front.0, t).1[j] == t;
                    assert(res.1[front.1.len() + j] == t);
                }
            }
        }
    }
}

/// A loaded position of `qs` is among the loaded positions of `qs`.
proof fn lemma_loaded_only_keeps(world: Map<ChunkPos, Chunk>, qs: Seq<ChunkPos>, i: int)
    requires
        0 <= i < qs.len(),
        world.contains_key(qs[i]),
    ensures
        loaded_only(world, qs).contains(qs[i]),
    decreases qs.len(),
{
    if i < qs.len() - 1 {
        lemma_loaded_only_keeps(world, qs.drop_last(), i);
        assert(qs.drop_last()[i] == qs[i]);
        let l = loaded_only(world, qs.drop_last());
        let j = choose|j: int| 0 <= j < l.len() && l[j] == qs[i];
        if world.contains_key(qs.last()) {
            assert(l.push(qs.last())[j] == qs[i]);
        }
    } else {
        let l = loaded_only(world, qs.drop_last());
        assert(l.push(qs.last())[l.len() as int] == qs[i]);
    }
}

/// A newly generated chunk at `p` gets every loaded chunk sharing a face
/// with it remeshed, on all six sides: each such neighbour is afterwards
/// either requested for a remesh and in flight, or, where a remesh of it
/// was already in flight, marked to be remeshed again when that returns.
pub proof fn lemma_new_chunk_remeshes_loaded_neighbors(
    world: Map<ChunkPos, Chunk>,
    s: RemeshState,
    p: ChunkPos,
    n: ChunkPos,
)
    requires
        away_from_edges(p, 1),
        shares_a_face(p, n),
        world.contains_key(n),
    ensures
        (after_result(world, s, p, true).1.contains(n) && after_result(world, s, p, true).0.pending.contains(n))
            || after_result(world, s, p, true).0.again.contains(n),
{
    let fs = face_neighbors(p);
    let k: int = if n.x == p.x - 1 {
        0
    } else if n.x == p.x + 1 {
        1
    } else if n.y == p.y - 1 {
        2
    } else if n.y == p.y + 1 {
        3
    } else if n.z == p.z - 1 {
        4
    } else {
        5
    };
    assert(fs[k] == n);
    lemma_loaded_only_keeps(world, fs, k);
    let targets = loaded_only(world, fs);
    let i = choose|i: int| 0 <= i < targets.len() && targets[i] == n;
    lemma_queue_all_covers(world, s, targets);
    let a = queue_all(world, s, targets);
    assert(world.contains_key(targets[i]));
    let s2 = RemeshState { pending: a.0.pending, again: a.0.again.remove(p) };
    assert(n != p);
    lemma_queue_step_grows(world, s2, p);
    let res = after_result(world, s, p, true);
    if a.1.contains(n) {
        let j = choose|j: int| 0 <= j < a.1.len() && a.1[j] == n;
        assert(res.1[j] == n);
    }
    if a.0.again.contains(n) {
        assert(s2.again.contains(n));
    }
}

} // verus!
