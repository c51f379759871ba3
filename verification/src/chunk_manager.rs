//! The chunk manager: the set of loaded chunks around the observer, the set
//! of chunks whose generation is under way, and the queue through which
//! generated chunks come back.

use vstd::prelude::*;
use std::collections::{HashMap, HashSet};
use vstd::std_specs::iter::IteratorSpec;
use crate::block::BlockType;
use crate::chunk::{Chunk, ChunkView};
use crate::coords::{axis_gap, floor_div_16, floor_mod_16, BlockPos, ChunkCoord};
use crate::mesh::{mesh_faces, world_block, BlockFaceInstance};
use crate::terrain::terrain_grid;

verus! {

/// The sending half of a `crossbeam_channel` channel.
#[verifier::external_type_specification]
#[verifier::external_body]
#[verifier::reject_recursive_types(T)]
pub struct ExSender<T>(crossbeam_channel::Sender<T>);

/// The receiving half of a `crossbeam_channel` channel.
#[verifier::external_type_specification]
#[verifier::external_body]
#[verifier::reject_recursive_types(T)]
pub struct ExReceiver<T>(crossbeam_channel::Receiver<T>);

/// `crossbeam_channel::unbounded`: a new channel of unlimited capacity. Its
/// two halves are opaque, so nothing is claimed of them.
#[verifier::external_body]
fn new_channel() -> (halves: (crossbeam_channel::Sender<Chunk>, crossbeam_channel::Receiver<Chunk>)) {
    crossbeam_channel::unbounded()
}

/// `crossbeam_channel::Sender::clone`: another handle to the same channel.
#[verifier::external_body]
fn clone_sender(tx: &crossbeam_channel::Sender<Chunk>) -> (copy: crossbeam_channel::Sender<Chunk>) {
    tx.clone()
}

/// `crossbeam_channel::Sender::send`: hands `chunk` to the channel and tells
/// whether the channel took it. That depends on whether the receiving half
/// still exists, so nothing is claimed of the answer.
#[verifier::external_body]
fn send_chunk(tx: &crossbeam_channel::Sender<Chunk>, chunk: Chunk) -> (sent: bool) {
    tx.send(chunk).is_ok()
}

/// `crossbeam_channel::Receiver::try_recv`: takes a chunk out of the channel
/// if one is waiting, without blocking. Which chunk arrives, and whether any
/// does, depends on what other threads have sent; nothing is claimed of it.
#[verifier::external_body]
fn try_receive(rx: &crossbeam_channel::Receiver<Chunk>) -> (arrived: Option<Chunk>) {
    rx.try_recv().ok()
}

/// A request to generate one chunk, to be run on any thread.
pub struct GenerationTask {
    coord: ChunkCoord,
    tx: crossbeam_channel::Sender<Chunk>,
}

impl View for GenerationTask {
    type V = ChunkCoord;

    /// The coordinate of the chunk to generate.
    closed spec fn view(&self) -> ChunkCoord {
        self.coord
    }
}

impl GenerationTask {
    /// The coordinate of the chunk to generate.
    pub fn coord(&self) -> (coord: ChunkCoord)
        ensures
            coord == self@,
    {
        self.coord
    }

    /// Generates the requested chunk: the terrain of its coordinate, not yet
    /// meshed.
    pub fn generate(&self) -> (chunk: Chunk)
        ensures
            chunk@.coord == self@,
            chunk@.blocks == terrain_grid(self@),
            chunk@.faces == Seq::<BlockFaceInstance>::empty(),
    {
        Chunk::new(self.coord)
    }

    /// Generates the chunk, as `generate` does, and hands it to the
    /// manager's completion queue. Tells whether the queue took it; it does
    /// not once the manager is gone.
    pub fn run(self) -> (delivered: bool) {
        let chunk = self.generate();
        send_chunk(&self.tx, chunk)
    }
}

/// What a chunk manager holds, as mathematical values.
pub struct ManagerView {
    /// The loaded chunks by coordinate.
    pub loaded: Map<ChunkCoord, ChunkView>,
    /// The coordinates whose generation was requested and has not come back.
    pub pending: Set<ChunkCoord>,
    /// The half-width, in chunks, of the cube that is kept around the observer.
    pub view_distance: int,
}

impl ManagerView {
    /// The block grids of the loaded chunks.
    pub open spec fn grids(self) -> Map<ChunkCoord, Seq<BlockType>> {
        self.loaded.map_values(|chunk: ChunkView| chunk.blocks)
    }

    /// No coordinate is loaded and pending at once, and each loaded chunk
    /// sits under its own coordinate and carries a mesh of its blocks.
    pub open spec fn consistent(self) -> bool {
        &&& forall|c: ChunkCoord| !(#[trigger] self.loaded.contains_key(c) && self.pending.contains(c))
        &&& forall|c: ChunkCoord| #[trigger]
            self.loaded.contains_key(c) ==> self.loaded[c].coord == c && self.loaded[c].is_meshed()
    }

    /// Whether `c` lies in the cube that is kept around an observer at `observer`.
    pub open spec fn in_view(self, observer: BlockPos, c: ChunkCoord) -> bool {
        c.within(observer.chunk_x(), observer.chunk_y(), observer.chunk_z(), self.view_distance)
    }

    /// Whether an update for an observer at `observer` has to request `c`: it
    /// lies in view and is neither loaded nor pending.
    pub open spec fn missing(self, observer: BlockPos, c: ChunkCoord) -> bool {
        self.in_view(observer, c) && !self.loaded.contains_key(c) && !self.pending.contains(c)
    }

    /// The state after an update for an observer at `observer`: every missing
    /// coordinate has become pending, and every loaded chunk out of view is gone.
    pub open spec fn after_update(self, observer: BlockPos) -> ManagerView {
        ManagerView {
            loaded: self.loaded.restrict(Set::new(|c: ChunkCoord| self.in_view(observer, c))),
            pending: self.pending.union(Set::new(|c: ChunkCoord| self.missing(observer, c))),
            view_distance: self.view_distance,
        }
    }

    /// The chunk as it is stored when it arrives with the blocks `blocks` for
    /// coordinate `coord`: meshed against the chunks that are loaded then.
    pub open spec fn meshed(self, coord: ChunkCoord, blocks: Seq<BlockType>) -> ChunkView {
        ChunkView { coord, blocks, faces: mesh_faces(coord, blocks, self.grids()) }
    }

    /// The state after the generated chunk `chunk` has arrived. A chunk whose
    /// coordinate is pending is meshed and becomes loaded; any other is dropped.
    pub open spec fn after_merge(self, chunk: ChunkView) -> ManagerView {
        if self.pending.contains(chunk.coord) {
            ManagerView {
                loaded: self.loaded.insert(chunk.coord, self.meshed(chunk.coord, chunk.blocks)),
                pending: self.pending.remove(chunk.coord),
                view_distance: self.view_distance,
            }
        } else {
            self
        }
    }

    /// The state after the generated chunks `arrivals` have arrived one
    /// after the other.
    pub open spec fn after_arrivals(self, arrivals: Seq<ChunkView>) -> ManagerView
        decreases arrivals.len(),
    {
        if arrivals.len() == 0 {
            self
        } else {
            self.after_arrivals(arrivals.drop_last()).after_merge(arrivals.last())
        }
    }

    /// The coordinates that become loaded when the chunks `arrivals` arrive
    /// one after the other, in the order in which they do.
    pub open spec fn merged_by(self, arrivals: Seq<ChunkView>) -> Seq<ChunkCoord>
        decreases arrivals.len(),
    {
        if arrivals.len() == 0 {
            Seq::empty()
        } else if self.after_arrivals(arrivals.drop_last()).pending.contains(arrivals.last().coord) {
            self.merged_by(arrivals.drop_last()).push(arrivals.last().coord)
        } else {
            self.merged_by(arrivals.drop_last())
        }
    }

    /// What one drain of the completion queue may do to the state `self`:
    /// the coordinates in `merged`, all of them pending before and none of
    /// them twice, have become loaded, each with the chunk that arrived for
    /// it; everything else is as it was.
    pub open spec fn polled(self, after: ManagerView, merged: Seq<ChunkCoord>) -> bool {
        &&& after.view_distance == self.view_distance
        &&& merged.no_duplicates()
        &&& forall|i: int| 0 <= i < merged.len() ==> self.pending.contains(#[trigger] merged[i])
        &&& forall|c: ChunkCoord| #[trigger]
            after.pending.contains(c) <==> self.pending.contains(c) && !merged.contains(c)
        &&& forall|c: ChunkCoord| #[trigger]
            after.loaded.contains_key(c) <==> self.loaded.contains_key(c) || merged.contains(c)
        &&& forall|c: ChunkCoord| #[trigger]
            self.loaded.contains_key(c) ==> after.loaded[c] == self.loaded[c]
    }

    /// The state after the loaded chunk at `coord` has been meshed again,
    /// against the chunks that are loaded now. Nothing changes if no chunk
    /// is loaded at `coord`.
    pub open spec fn after_remesh(self, coord: ChunkCoord) -> ManagerView {
        if self.loaded.contains_key(coord) {
            ManagerView {
                loaded: self.loaded.insert(coord, self.meshed(coord, self.loaded[coord].blocks)),
                pending: self.pending,
                view_distance: self.view_distance,
            }
        } else {
            self
        }
    }

    /// The state after the request for `coord` has been given up.
    pub open spec fn after_release(self, coord: ChunkCoord) -> ManagerView {
        ManagerView {
            loaded: self.loaded,
            pending: self.pending.remove(coord),
            view_distance: self.view_distance,
        }
    }
}

/// The key under which the hash collections hold chunk coordinate `c`: its
/// three components, each shifted to be non-negative, as base-2^32 digits.
spec fn key_of(c: ChunkCoord) -> u128 {
    (((c.x + 0x8000_0000) * 0x1_0000_0000 + (c.y + 0x8000_0000)) * 0x1_0000_0000 + (c.z
        + 0x8000_0000)) as u128
}

/// The coordinate that key `k` stands for.
spec fn coord_of(k: u128) -> ChunkCoord {
    ChunkCoord {
        x: (((k / 0x1_0000_0000) / 0x1_0000_0000) - 0x8000_0000) as i32,
        y: (((k / 0x1_0000_0000) % 0x1_0000_0000) - 0x8000_0000) as i32,
        z: ((k % 0x1_0000_0000) - 0x8000_0000) as i32,
    }
}

/// Whether `k` is the key of a coordinate.
spec fn is_key(k: u128) -> bool {
    k < 0x1_0000_0000_0000_0000_0000_0000
}

/// A number written with the two base-2^32 digits `high` and `low` gives
/// them back on division.
proof fn lemma_two_digits(high: int, low: int)
    requires
        0 <= high,
        0 <= low < 0x1_0000_0000,
    ensures
        (high * 0x1_0000_0000 + low) / 0x1_0000_0000 == high,
        (high * 0x1_0000_0000 + low) % 0x1_0000_0000 == low,
{
}

proof fn lemma_key_roundtrip(c: ChunkCoord)
    ensures
        is_key(key_of(c)),
        coord_of(key_of(c)) == c,
{
    let x = c.x + 0x8000_0000;
    let y = c.y + 0x8000_0000;
    let z = c.z + 0x8000_0000;
    let upper = x * 0x1_0000_0000 + y;
    let all = upper * 0x1_0000_0000 + z;
    lemma_two_digits(x, y);
    lemma_two_digits(upper, z);
    assert(0 <= upper <= 0xffff_ffff_ffff_ffff);
    assert(0 <= all <= 0xffff_ffff_ffff_ffff_ffff_ffff);
    assert(key_of(c) == all);
}

proof fn lemma_coord_roundtrip(k: u128)
    requires
        is_key(k),
    ensures
        key_of(coord_of(k)) == k,
{
    let upper = k as int / 0x1_0000_0000;
    let z = k as int % 0x1_0000_0000;
    let x = upper / 0x1_0000_0000;
    let y = upper % 0x1_0000_0000;
    assert(k == upper * 0x1_0000_0000 + z);
    assert(upper == x * 0x1_0000_0000 + y);
    assert(0 <= upper <= 0xffff_ffff_ffff_ffff);
    assert(0 <= x <= 0xffff_ffff);
}

fn chunk_key(c: ChunkCoord) -> (k: u128)
    ensures
        k == key_of(c),
{
    let x = (c.x as i64 + 0x8000_0000) as u128;
    let y = (c.y as i64 + 0x8000_0000) as u128;
    let z = (c.z as i64 + 0x8000_0000) as u128;
    (x * 0x1_0000_0000 + y) * 0x1_0000_0000 + z
}

fn key_coord(k: u128) -> (c: ChunkCoord)
    requires
        is_key(k),
    ensures
        c == coord_of(k),
{
    let upper = k / 0x1_0000_0000;
    assert(upper <= 0xffff_ffff_ffff_ffff);
    let x = (upper / 0x1_0000_0000) as i64 - 0x8000_0000;
    let y = (upper % 0x1_0000_0000) as i64 - 0x8000_0000;
    let z = (k % 0x1_0000_0000) as i64 - 0x8000_0000;
    ChunkCoord { x: x as i32, y: y as i32, z: z as i32 }
}

/// Whether `c` comes before the cursor `(x, y, z)` in the order in which the
/// window around the observer is walked.
spec fn done_before(c: ChunkCoord, x: int, y: int, z: int) -> bool {
    c.x < x || (c.x == x && (c.y < y || (c.y == y && c.z < z)))
}

/// Whether `c` has to be requested: it lies in the window and was neither
/// loaded nor pending.
spec fn is_missing(
    loaded: Map<u128, Chunk>,
    pending: Set<u128>,
    c: ChunkCoord,
    cx: int,
    cy: int,
    cz: int,
    distance: int,
) -> bool {
    c.within(cx, cy, cz, distance) && !loaded.contains_key(key_of(c)) && !pending.contains(
        key_of(c),
    )
}

/// The state of a walk through the window that has reached the cursor
/// `(x, y, z)`: every missing coordinate before the cursor has become pending
/// and has its task, in walking order, and nothing else has changed.
spec fn request_progress(
    now_pending: Set<u128>,
    loaded: Map<u128, Chunk>,
    pending: Set<u128>,
    tasks: Seq<GenerationTask>,
    cx: int,
    cy: int,
    cz: int,
    distance: int,
    x: int,
    y: int,
    z: int,
) -> bool {
    &&& forall|c: ChunkCoord| #[trigger]
        now_pending.contains(key_of(c)) <==> pending.contains(key_of(c)) || (is_missing(
            loaded,
            pending,
            c,
            cx,
            cy,
            cz,
            distance,
        ) && done_before(c, x, y, z))
    &&& forall|i: int|
        0 <= i < tasks.len() ==> is_missing(
            loaded,
            pending,
            (#[trigger] tasks[i])@,
            cx,
            cy,
            cz,
            distance,
        ) && done_before(tasks[i]@, x, y, z)
    &&& forall|c: ChunkCoord|
        is_missing(loaded, pending, c, cx, cy, cz, distance) && #[trigger] done_before(c, x, y, z)
            ==> exists|i: int| 0 <= i < tasks.len() && (#[trigger] tasks[i])@ == c
    &&& forall|i: int, j: int|
        0 <= i < j < tasks.len() ==> (#[trigger] tasks[i])@.precedes((#[trigger] tasks[j])@)
}

/// Two cursors that have the same window coordinates behind them stand for
/// the same progress.
proof fn lemma_request_next_row(
    now_pending: Set<u128>,
    loaded: Map<u128, Chunk>,
    pending: Set<u128>,
    tasks: Seq<GenerationTask>,
    cx: int,
    cy: int,
    cz: int,
    distance: int,
    x: int,
    y: int,
    z: int,
    nx: int,
    ny: int,
    nz: int,
)
    requires
        request_progress(now_pending, loaded, pending, tasks, cx, cy, cz, distance, x, y, z),
        forall|c: ChunkCoord|
            c.within(cx, cy, cz, distance) ==> (#[trigger] done_before(c, x, y, z) <==> done_before(
                c,
                nx,
                ny,
                nz,
            )),
    ensures
        request_progress(now_pending, loaded, pending, tasks, cx, cy, cz, distance, nx, ny, nz),
{
    assert forall|c: ChunkCoord| #[trigger]
        now_pending.contains(key_of(c)) <==> pending.contains(key_of(c)) || (is_missing(
            loaded,
            pending,
            c,
            cx,
            cy,
            cz,
            distance,
        ) && done_before(c, nx, ny, nz)) by {
        assert(done_before(c, x, y, z) || true);
    }
    assert forall|i: int| 0 <= i < tasks.len() implies is_missing(
        loaded,
        pending,
        (#[trigger] tasks[i])@,
        cx,
        cy,
        cz,
        distance,
    ) && done_before(tasks[i]@, nx, ny, nz) by {
        assert(done_before(tasks[i]@, x, y, z));
    }
    assert forall|c: ChunkCoord|
        is_missing(loaded, pending, c, cx, cy, cz, distance) && #[trigger] done_before(
            c,
            nx,
            ny,
            nz,
        ) implies exists|i: int| 0 <= i < tasks.len() && (#[trigger] tasks[i])@ == c by {
        assert(done_before(c, x, y, z));
    }
}

/// Handling the coordinate under the cursor moves the progress one step on.
proof fn lemma_request_step(
    pending_before: Set<u128>,
    pending_after: Set<u128>,
    loaded: Map<u128, Chunk>,
    pending: Set<u128>,
    tasks_before: Seq<GenerationTask>,
    tasks_after: Seq<GenerationTask>,
    cx: int,
    cy: int,
    cz: int,
    distance: int,
    at: ChunkCoord,
)
    requires
        request_progress(
            pending_before,
            loaded,
            pending,
            tasks_before,
            cx,
            cy,
            cz,
            distance,
            at.x as int,
            at.y as int,
            at.z as int,
        ),
        at.within(cx, cy, cz, distance),
        if !loaded.contains_key(key_of(at)) && !pending_before.contains(key_of(at)) {
            &&& pending_after == pending_before.insert(key_of(at))
            &&& tasks_after.len() == tasks_before.len() + 1
            &&& tasks_after.last()@ == at
            &&& tasks_after.drop_last() == tasks_before
        } else {
            &&& pending_after == pending_before
            &&& tasks_after == tasks_before
        },
    ensures
        request_progress(
            pending_after,
            loaded,
            pending,
            tasks_after,
            cx,
            cy,
            cz,
            distance,
            at.x as int,
            at.y as int,
            at.z + 1,
        ),
{
    let x = at.x as int;
    let y = at.y as int;
    let z = at.z as int;
    lemma_key_roundtrip(at);
    assert(!done_before(at, x, y, z));
    assert(pending_before.contains(key_of(at)) <==> pending.contains(key_of(at)));
    let fresh = !loaded.contains_key(key_of(at)) && !pending_before.contains(key_of(at));
    assert(fresh <==> is_missing(loaded, pending, at, cx, cy, cz, distance));
    assert forall|c: ChunkCoord| #[trigger]
        pending_after.contains(key_of(c)) <==> pending.contains(key_of(c)) || (is_missing(
            loaded,
            pending,
            c,
            cx,
            cy,
            cz,
            distance,
        ) && done_before(c, x, y, z + 1)) by {
        lemma_key_roundtrip(c);
        assert(pending_before.contains(key_of(c)) <==> pending.contains(key_of(c)) || (is_missing(
            loaded,
            pending,
            c,
            cx,
            cy,
            cz,
            distance,
        ) && done_before(c, x, y, z)));
        assert(done_before(c, x, y, z + 1) <==> done_before(c, x, y, z) || c == at);
    }
    assert forall|i: int| 0 <= i < tasks_after.len() implies is_missing(
        loaded,
        pending,
        (#[trigger] tasks_after[i])@,
        cx,
        cy,
        cz,
        distance,
    ) && done_before(tasks_after[i]@, x, y, z + 1) by {
        if i < tasks_before.len() {
            if fresh {
                assert(tasks_after.drop_last()[i] == tasks_after[i]);
            }
            assert(tasks_after[i] == tasks_before[i]);
            assert(done_before(tasks_before[i]@, x, y, z));
        }
    }
    assert forall|c: ChunkCoord|
        is_missing(loaded, pending, c, cx, cy, cz, distance) && #[trigger] done_before(
            c,
            x,
            y,
            z + 1,
        ) implies exists|i: int| 0 <= i < tasks_after.len() && (#[trigger] tasks_after[i])@ == c by {
        if c == at {
            assert(tasks_after[tasks_after.len() - 1]@ == c);
        } else {
            assert(done_before(c, x, y, z));
            let i = choose|i: int| 0 <= i < tasks_before.len() && (#[trigger] tasks_before[i])@ == c;
            if fresh {
                assert(tasks_after.drop_last()[i] == tasks_after[i]);
            }
            assert(tasks_after[i]@ == c);
        }
    }
    assert forall|i: int, j: int| 0 <= i < j < tasks_after.len() implies (
    #[trigger] tasks_after[i])@.precedes((#[trigger] tasks_after[j])@) by {
        if fresh {
            assert(tasks_after.drop_last()[i] == tasks_after[i]);
            if j < tasks_before.len() {
                assert(tasks_after.drop_last()[j] == tasks_after[j]);
            } else {
                assert(done_before(tasks_before[i]@, x, y, z));
            }
        }
    }
}

/// Whether `k` stands among the first `count` entries of `keys`.
spec fn listed_before(keys: Seq<u128>, count: int, k: u128) -> bool {
    exists|j: int| 0 <= j < count && keys[j] == k
}

/// An update keeps the state consistent.
pub proof fn lemma_update_keeps_consistent(state: ManagerView, observer: BlockPos)
    requires
        state.consistent(),
    ensures
        state.after_update(observer).consistent(),
{
}

/// Taking in a chunk keeps the state consistent.
pub proof fn lemma_merge_keeps_consistent(state: ManagerView, chunk: ChunkView)
    requires
        state.consistent(),
    ensures
        state.after_merge(chunk).consistent(),
{
    if state.pending.contains(chunk.coord) {
        let stored = state.meshed(chunk.coord, chunk.blocks);
        assert(stored.faces == mesh_faces(stored.coord, stored.blocks, state.grids()));
        assert(stored.is_meshed());
    }
}

/// Meshing a chunk again keeps the state consistent and changes nothing
/// but the faces of that chunk.
pub proof fn lemma_remesh_keeps_consistent(state: ManagerView, coord: ChunkCoord)
    requires
        state.consistent(),
    ensures
        state.after_remesh(coord).consistent(),
        state.after_remesh(coord).grids() == state.grids(),
        state.after_remesh(coord).loaded.dom() == state.loaded.dom(),
{
    if state.loaded.contains_key(coord) {
        let stored = state.meshed(coord, state.loaded[coord].blocks);
        assert(stored.faces == mesh_faces(stored.coord, stored.blocks, state.grids()));
        assert(stored.is_meshed());
        assert(state.after_remesh(coord).loaded.dom() =~= state.loaded.dom());
        assert(state.after_remesh(coord).grids() =~= state.grids());
    }
}

/// After an update every coordinate in view is either loaded or pending,
/// never both and never neither.
pub proof fn lemma_update_covers_view(state: ManagerView, observer: BlockPos, c: ChunkCoord)
    requires
        state.consistent(),
        state.in_view(observer, c),
    ensures
        state.after_update(observer).loaded.contains_key(c) != state.after_update(
            observer,
        ).pending.contains(c),
{
}

/// A pending coordinate becomes loaded, and stops being pending, when its
/// chunk arrives; it then holds that chunk's blocks.
pub proof fn lemma_arrival_loads_pending(state: ManagerView, chunk: ChunkView)
    requires
        state.consistent(),
        state.pending.contains(chunk.coord),
    ensures
        state.after_merge(chunk).loaded.contains_key(chunk.coord),
        !state.after_merge(chunk).pending.contains(chunk.coord),
        state.after_merge(chunk).loaded[chunk.coord].blocks == chunk.blocks,
        state.after_merge(chunk).loaded.dom() == state.loaded.dom().insert(chunk.coord),
{
}

/// The arrival of a chunk changes the state of no other coordinate: what
/// was loaded stays loaded with the same chunk, what was pending stays pending.
pub proof fn lemma_arrival_leaves_others(state: ManagerView, chunk: ChunkView, c: ChunkCoord)
    requires
        c != chunk.coord,
    ensures
        state.after_merge(chunk).loaded.contains_key(c) == state.loaded.contains_key(c),
        state.after_merge(chunk).pending.contains(c) == state.pending.contains(c),
        state.loaded.contains_key(c) ==> state.after_merge(chunk).loaded[c] == state.loaded[c],
{
}

/// A coordinate in view ends up loaded, once, after the update and the
/// arrival of its chunk: right after the update it is loaded or pending, and
/// if it is pending, the arrival of its chunk makes it loaded and not pending.
pub proof fn lemma_view_gets_loaded(
    state: ManagerView,
    observer: BlockPos,
    chunk: ChunkView,
)
    requires
        state.consistent(),
        state.in_view(observer, chunk.coord),
    ensures
        state.after_update(observer).after_merge(chunk).loaded.contains_key(chunk.coord),
        !state.after_update(observer).after_merge(chunk).pending.contains(chunk.coord),
        state.after_update(observer).after_merge(chunk).consistent(),
{
    lemma_update_keeps_consistent(state, observer);
    lemma_update_covers_view(state, observer, chunk.coord);
    lemma_merge_keeps_consistent(state.after_update(observer), chunk);
}

/// An update drops every loaded chunk that is out of view. In particular no
/// chunk stays loaded whose x coordinate differs from that of the observer's
/// chunk by more than the view distance.
pub proof fn lemma_update_evicts_far(state: ManagerView, observer: BlockPos, c: ChunkCoord)
    ensures
        !state.in_view(observer, c) ==> !state.after_update(observer).loaded.contains_key(c),
        axis_gap(c.x as int, observer.chunk_x()) > state.view_distance ==> !state.after_update(
            observer,
        ).loaded.contains_key(c),
        state.in_view(observer, c) && state.loaded.contains_key(c) ==> state.after_update(
            observer,
        ).loaded.contains_key(c) && state.after_update(observer).loaded[c] == state.loaded[c],
{
}

/// A second update for the same observer changes nothing.
pub proof fn lemma_update_idempotent(state: ManagerView, observer: BlockPos)
    ensures
        state.after_update(observer).after_update(observer) == state.after_update(observer),
{
    let once = state.after_update(observer);
    let twice = once.after_update(observer);
    assert(twice.loaded =~= once.loaded);
    assert(twice.pending =~= once.pending);
}

/// Whatever chunks arrive, in whatever order: the state stays consistent,
/// the coordinates that become loaded were pending and become loaded once,
/// and nothing else changes.
pub proof fn lemma_arrivals_polled(state: ManagerView, arrivals: Seq<ChunkView>)
    requires
        state.consistent(),
    ensures
        state.after_arrivals(arrivals).consistent(),
        state.polled(state.after_arrivals(arrivals), state.merged_by(arrivals)),
    decreases arrivals.len(),
{
    if arrivals.len() > 0 {
        let earlier = arrivals.drop_last();
        let held = state.after_arrivals(earlier);
        lemma_arrivals_polled(state, earlier);
        lemma_merge_keeps_consistent(held, arrivals.last());
        if held.pending.contains(arrivals.last().coord) {
            lemma_poll_step(state, held, state.merged_by(earlier), arrivals.last());
        }
    }
}

/// Merging one more chunk whose coordinate is pending extends a drain.
proof fn lemma_poll_step(
    start: ManagerView,
    held: ManagerView,
    merged: Seq<ChunkCoord>,
    chunk: ChunkView,
)
    requires
        start.consistent(),
        start.polled(held, merged),
        held.pending.contains(chunk.coord),
    ensures
        start.polled(held.after_merge(chunk), merged.push(chunk.coord)),
{
    let after = held.after_merge(chunk);
    let longer = merged.push(chunk.coord);
    assert(!merged.contains(chunk.coord));
    assert(longer.no_duplicates());
    assert forall|i: int| 0 <= i < longer.len() implies start.pending.contains(#[trigger] longer[i]) by {
        if i < merged.len() {
            assert(longer[i] == merged[i]);
        }
    }
    assert forall|c: ChunkCoord| longer.contains(c) <==> merged.contains(c) || c == chunk.coord by {
        if merged.contains(c) {
            let i = choose|i: int| 0 <= i < merged.len() && merged[i] == c;
            assert(longer[i] == c);
        }
        if c == chunk.coord {
            assert(longer[merged.len() as int] == c);
        }
        if longer.contains(c) {
            let i = choose|i: int| 0 <= i < longer.len() && longer[i] == c;
            if i < merged.len() {
                assert(merged[i] == c);
            }
        }
    }
    assert forall|c: ChunkCoord| #[trigger]
        start.loaded.contains_key(c) implies after.loaded[c] == start.loaded[c] by {
        assert(held.loaded[c] == start.loaded[c]);
        assert(held.loaded.contains_key(c));
        assert(!start.pending.contains(c));
    }
}

/// Streams chunks around a moving observer.
pub struct ChunkManager {
    loaded: HashMap<u128, Chunk>,
    pending: HashSet<u128>,
    view_distance: i32,
    tx: crossbeam_channel::Sender<Chunk>,
    rx: crossbeam_channel::Receiver<Chunk>,
}

impl View for ChunkManager {
    type V = ManagerView;

    closed spec fn view(&self) -> ManagerView {
        ManagerView {
            loaded: Map::new(
                |c: ChunkCoord| self.loaded@.contains_key(key_of(c)),
                |c: ChunkCoord| self.loaded@[key_of(c)]@,
            ),
            pending: Set::new(|c: ChunkCoord| self.pending@.contains(key_of(c))),
            view_distance: self.view_distance as int,
        }
    }
}

impl ChunkManager {
    /// The manager's internal invariant: its collections hold only keys of
    /// coordinates, each loaded chunk under the key of its own coordinate, and
    /// no key is loaded and pending at once.
    pub closed spec fn wf(&self) -> bool {
        &&& self.pending@.finite()
        &&& forall|k: u128| #[trigger]
            self.loaded@.contains_key(k) ==> is_key(k) && self.loaded@[k]@.coord == coord_of(k)
                && self.loaded@[k]@.is_meshed()
        &&& forall|k: u128| #[trigger]
            self.pending@.contains(k) ==> is_key(k) && !self.loaded@.contains_key(k)
    }

    /// A manager with nothing loaded and nothing pending.
    pub fn new(view_distance: i32) -> (manager: ChunkManager)
        ensures
            manager.wf(),
            manager@.loaded == Map::<ChunkCoord, ChunkView>::empty(),
            manager@.pending == Set::<ChunkCoord>::empty(),
            manager@.view_distance == view_distance,
    {
        let (tx, rx) = new_channel();
        let manager = ChunkManager {
            loaded: HashMap::new(),
            pending: HashSet::new(),
            view_distance,
            tx,
            rx,
        };
        assert(manager@.loaded =~= Map::<ChunkCoord, ChunkView>::empty());
        assert(manager@.pending =~= Set::<ChunkCoord>::empty());
        manager
    }

    /// The half-width of the kept cube, in chunks.
    pub fn view_distance(&self) -> (distance: i32)
        ensures
            distance == self@.view_distance,
    {
        self.view_distance
    }

    /// Requests the chunk at `coord` unless it is loaded or pending already.
    fn request_one(&mut self, coord: ChunkCoord, tasks: &mut Vec<GenerationTask>)
        requires
            old(self).wf(),
        ensures
            final(self).wf(),
            final(self).loaded@ == old(self).loaded@,
            final(self).view_distance == old(self).view_distance,
            ({
                let k = key_of(coord);
                if !old(self).loaded@.contains_key(k) && !old(self).pending@.contains(k) {
                    &&& final(self).pending@ == old(self).pending@.insert(k)
                    &&& final(tasks)@.len() == old(tasks)@.len() + 1
                    &&& final(tasks)@.last()@ == coord
                    &&& final(tasks)@.drop_last() == old(tasks)@
                } else {
                    &&& final(self).pending@ == old(self).pending@
                    &&& final(tasks)@ == old(tasks)@
                }
            }),
    {
        broadcast use vstd::std_specs::hash::group_hash_axioms;

        let key = chunk_key(coord);
        proof {
            lemma_key_roundtrip(coord);
        }
        if !self.loaded.contains_key(&key) && !self.pending.contains(&key) {
            self.pending.insert(key);
            let ghost before = tasks@;
            tasks.push(GenerationTask { coord, tx: clone_sender(&self.tx) });
            assert(tasks@.drop_last() =~= before);
        }
    }

    /// Walks the window around the chunk-grid point `(cx, cy, cz)` and
    /// requests every chunk in it that is neither loaded nor pending.
    fn request_window(&mut self, cx: i64, cy: i64, cz: i64) -> (tasks: Vec<GenerationTask>)
        requires
            old(self).wf(),
            -0x0800_0000_0000_0000 <= cx <= 0x0800_0000_0000_0000,
            -0x0800_0000_0000_0000 <= cy <= 0x0800_0000_0000_0000,
            -0x0800_0000_0000_0000 <= cz <= 0x0800_0000_0000_0000,
        ensures
            final(self).wf(),
            final(self).loaded@ == old(self).loaded@,
            final(self).view_distance == old(self).view_distance,
            request_progress(
                final(self).pending@,
                old(self).loaded@,
                old(self).pending@,
                tasks@,
                cx as int,
                cy as int,
                cz as int,
                old(self).view_distance as int,
                0x8000_0000,
                0,
                0,
            ),
    {
        let mut tasks: Vec<GenerationTask> = Vec::new();
        let distance = self.view_distance as i64;
        let ghost loaded = self.loaded@;
        let ghost pending = self.pending@;
        let lo_x = if cx - distance < -0x8000_0000 { -0x8000_0000 } else { cx - distance };
        let lo_y = if cy - distance < -0x8000_0000 { -0x8000_0000 } else { cy - distance };
        let lo_z = if cz - distance < -0x8000_0000 { -0x8000_0000 } else { cz - distance };
        let hi_x = if cx + distance > 0x7fff_ffff { 0x7fff_ffff } else { cx + distance };
        let hi_y = if cy + distance > 0x7fff_ffff { 0x7fff_ffff } else { cy + distance };
        let hi_z = if cz + distance > 0x7fff_ffff { 0x7fff_ffff } else { cz + distance };
        let mut x = lo_x;
        while x <= hi_x
            invariant
                self.wf(),
                self.loaded@ == loaded,
                self.view_distance == old(self).view_distance,
                distance == self.view_distance,
                lo_x == if cx - distance < -0x8000_0000 { -0x8000_0000 } else { cx - distance },
                lo_y == if cy - distance < -0x8000_0000 { -0x8000_0000 } else { cy - distance },
                lo_z == if cz - distance < -0x8000_0000 { -0x8000_0000 } else { cz - distance },
                hi_x == if cx + distance > 0x7fff_ffff { 0x7fff_ffff } else { cx + distance },
                hi_y == if cy + distance > 0x7fff_ffff { 0x7fff_ffff } else { cy + distance },
                hi_z == if cz + distance > 0x7fff_ffff { 0x7fff_ffff } else { cz + distance },
                lo_x <= x,
                request_progress(
                    self.pending@,
                    loaded,
                    pending,
                    tasks@,
                    cx as int,
                    cy as int,
                    cz as int,
                    distance as int,
                    x as int,
                    lo_y as int,
                    lo_z as int,
                ),
            decreases hi_x - x + 1,
        {
            let mut y = lo_y;
            while y <= hi_y
                invariant
                    self.wf(),
                    self.loaded@ == loaded,
                    self.view_distance == old(self).view_distance,
                    distance == self.view_distance,
                    lo_y == if cy - distance < -0x8000_0000 { -0x8000_0000 } else { cy - distance },
                    lo_z == if cz - distance < -0x8000_0000 { -0x8000_0000 } else { cz - distance },
                    hi_y == if cy + distance > 0x7fff_ffff { 0x7fff_ffff } else { cy + distance },
                    hi_z == if cz + distance > 0x7fff_ffff { 0x7fff_ffff } else { cz + distance },
                    lo_x <= x <= hi_x,
                    lo_x >= -0x8000_0000,
                    hi_x <= 0x7fff_ffff,
                    axis_gap(x as int, cx as int) <= distance,
                    lo_y <= y,
                    request_progress(
                        self.pending@,
                        loaded,
                        pending,
                        tasks@,
                        cx as int,
                        cy as int,
                        cz as int,
                        distance as int,
                        x as int,
                        y as int,
                        lo_z as int,
                    ),
                decreases hi_y - y + 1,
            {
                let mut z = lo_z;
                while z <= hi_z
                    invariant
                        self.wf(),
                        self.loaded@ == loaded,
                        self.view_distance == old(self).view_distance,
                        distance == self.view_distance,
                        lo_z == if cz - distance < -0x8000_0000 {
                            -0x8000_0000
                        } else {
                            cz - distance
                        },
                        hi_z == if cz + distance > 0x7fff_ffff {
                            0x7fff_ffff
                        } else {
                            cz + distance
                        },
                        -0x8000_0000 <= x <= 0x7fff_ffff,
                        -0x8000_0000 <= y <= 0x7fff_ffff,
                        axis_gap(x as int, cx as int) <= distance,
                        axis_gap(y as int, cy as int) <= distance,
                        lo_z <= z,
                        request_progress(
                            self.pending@,
                            loaded,
                            pending,
                            tasks@,
                            cx as int,
                            cy as int,
                            cz as int,
                            distance as int,
                            x as int,
                            y as int,
                            z as int,
                        ),
                    decreases hi_z - z + 1,
                {
                    let coord = ChunkCoord { x: x as i32, y: y as i32, z: z as i32 };
                    let ghost pending_before = self.pending@;
                    let ghost tasks_before = tasks@;
                    self.request_one(coord, &mut tasks);
                    proof {
                        lemma_request_step(
                            pending_before,
                            self.pending@,
                            loaded,
                            pending,
                            tasks_before,
                            tasks@,
                            cx as int,
                            cy as int,
                            cz as int,
                            distance as int,
                            coord,
                        );
                    }
                    z += 1;
                }
                proof {
                    lemma_request_next_row(
                        self.pending@,
                        loaded,
                        pending,
                        tasks@,
                        cx as int,
                        cy as int,
                        cz as int,
                        distance as int,
                        x as int,
                        y as int,
                        z as int,
                        x as int,
                        y + 1,
                        lo_z as int,
                    );
                }
                y += 1;
            }
            proof {
                lemma_request_next_row(
                    self.pending@,
                    loaded,
                    pending,
                    tasks@,
                    cx as int,
                    cy as int,
                    cz as int,
                    distance as int,
                    x as int,
                    y as int,
                    lo_z as int,
                    x + 1,
                    lo_y as int,
                    lo_z as int,
                );
            }
            x += 1;
        }
        proof {
            lemma_request_next_row(
                self.pending@,
                loaded,
                pending,
                tasks@,
                cx as int,
                cy as int,
                cz as int,
                distance as int,
                x as int,
                lo_y as int,
                lo_z as int,
                0x8000_0000,
                0,
                0,
            );
        }
        tasks
    }

    /// The keys of the loaded chunks that lie out of view of `(cx, cy, cz)`.
    fn far_keys(&self, cx: i64, cy: i64, cz: i64) -> (far: Vec<u128>)
        requires
            self.wf(),
        ensures
            far@.no_duplicates(),
            forall|k: u128|
                far@.contains(k) <==> self.loaded@.contains_key(k) && !coord_of(k).within(
                    cx as int,
                    cy as int,
                    cz as int,
                    self.view_distance as int,
                ),
    {
        broadcast use vstd::std_specs::hash::group_hash_axioms;

        let mut far: Vec<u128> = Vec::new();
        let keys = self.loaded.keys();
        let ghost all = keys.remaining().unref();
        assert(all.to_set() == self.loaded@.dom());
        assert(all.no_duplicates());
        for key in iter: keys
            invariant
                self.wf(),
                iter.seq().unref() == all,
                all.no_duplicates(),
                all.to_set() == self.loaded@.dom(),
                far@.no_duplicates(),
                forall|k: u128|
                    far@.contains(k) <==> (exists|j: int|
                        0 <= j < iter.index() && all[j] == k && !coord_of(k).within(
                            cx as int,
                            cy as int,
                            cz as int,
                            self.view_distance as int,
                        )),
        {
            let ghost i = iter.index();
            let ghost before = far@;
            assert(*key == all[i]);
            assert(all.to_set().contains(*key));
            let coord = key_coord(*key);
            if !coord.is_within(cx, cy, cz, self.view_distance) {
                assert(!before.contains(*key)) by {
                    if before.contains(*key) {
                        let j = choose|j: int| 0 <= j < i && all[j] == *key;
                        assert(all[j] == all[i]);
                    }
                }
                far.push(*key);
                assert forall|k: u128|
                    far@.contains(k) <==> (exists|j: int|
                        0 <= j < i + 1 && all[j] == k && !coord_of(k).within(
                            cx as int,
                            cy as int,
                            cz as int,
                            self.view_distance as int,
                        )) by {
                    if far@.contains(k) {
                        let at = choose|at: int| 0 <= at < far@.len() && far@[at] == k;
                        if at < before.len() {
                            assert(before[at] == k);
                            assert(before.contains(k));
                            let j = choose|j: int|
                                0 <= j < i && all[j] == k && !coord_of(k).within(
                                    cx as int,
                                    cy as int,
                                    cz as int,
                                    self.view_distance as int,
                                );
                            assert(0 <= j < i + 1 && all[j] == k);
                        } else {
                            assert(0 <= i < i + 1 && all[i] == k);
                        }
                    }
                    if exists|j: int|
                        0 <= j < i + 1 && all[j] == k && !coord_of(k).within(
                            cx as int,
                            cy as int,
                            cz as int,
                            self.view_distance as int,
                        ) {
                        let j = choose|j: int|
                            0 <= j < i + 1 && all[j] == k && !coord_of(k).within(
                                cx as int,
                                cy as int,
                                cz as int,
                                self.view_distance as int,
                            );
                        if j < i {
                            assert(before.contains(k));
                            let at = choose|at: int| 0 <= at < before.len() && before[at] == k;
                            assert(far@[at] == k);
                        } else {
                            assert(far@[before.len() as int] == k);
                        }
                    }
                }
            } else {
                assert forall|k: u128|
                    far@.contains(k) <==> (exists|j: int|
                        0 <= j < i + 1 && all[j] == k && !coord_of(k).within(
                            cx as int,
                            cy as int,
                            cz as int,
                            self.view_distance as int,
                        )) by {
                    if exists|j: int|
                        0 <= j < i + 1 && all[j] == k && !coord_of(k).within(
                            cx as int,
                            cy as int,
                            cz as int,
                            self.view_distance as int,
                        ) {
                        let j = choose|j: int|
                            0 <= j < i + 1 && all[j] == k && !coord_of(k).within(
                                cx as int,
                                cy as int,
                                cz as int,
                                self.view_distance as int,
                            );
                        assert(j < i);
                    }
                }
            }
        }
        assert forall|k: u128|
            far@.contains(k) <==> self.loaded@.contains_key(k) && !coord_of(k).within(
                cx as int,
                cy as int,
                cz as int,
                self.view_distance as int,
            ) by {
            if self.loaded@.contains_key(k) {
                assert(all.to_set().contains(k));
                assert(all.contains(k));
            }
            if far@.contains(k) {
                let j = choose|j: int| 0 <= j < all.len() && all[j] == k;
                assert(all.contains(k));
                assert(all.to_set().contains(k));
            }
        }
        far
    }

    /// Drops every loaded chunk that lies out of view of `(cx, cy, cz)`.
    fn evict_far(&mut self, cx: i64, cy: i64, cz: i64)
        requires
            old(self).wf(),
        ensures
            final(self).wf(),
            final(self).pending@ == old(self).pending@,
            final(self).view_distance == old(self).view_distance,
            forall|k: u128|
                final(self).loaded@.contains_key(k) <==> old(self).loaded@.contains_key(k)
                    && coord_of(k).within(
                    cx as int,
                    cy as int,
                    cz as int,
                    old(self).view_distance as int,
                ),
            forall|k: u128|
                final(self).loaded@.contains_key(k) ==> final(self).loaded@[k] == old(self).loaded@[k],
    {
        broadcast use vstd::std_specs::hash::group_hash_axioms;

        let far = self.far_keys(cx, cy, cz);
        let ghost before = self.loaded@;
        let mut i: usize = 0;
        while i < far.len()
            invariant
                i <= far@.len(),
                self.wf(),
                self.pending@ == old(self).pending@,
                self.view_distance == old(self).view_distance,
                forall|k: u128| #[trigger]
                    self.loaded@.contains_key(k) <==> before.contains_key(k) && !listed_before(
                        far@,
                        i as int,
                        k,
                    ),
                forall|k: u128| #[trigger] self.loaded@.contains_key(k) ==> self.loaded@[k] == before[k],
            decreases far@.len() - i,
        {
            let key = far[i];
            let ghost held = self.loaded@;
            self.loaded.remove(&key);
            assert(self.loaded@ == held.remove(key));
            assert forall|k: u128| #[trigger]
                self.loaded@.contains_key(k) <==> before.contains_key(k) && !listed_before(
                    far@,
                    i + 1,
                    k,
                ) by {
                assert(held.contains_key(k) <==> before.contains_key(k) && !listed_before(
                    far@,
                    i as int,
                    k,
                ));
                if listed_before(far@, i + 1, k) {
                    let j = choose|j: int| 0 <= j < i + 1 && far@[j] == k;
                    if j < i {
                        assert(listed_before(far@, i as int, k));
                    }
                }
                if listed_before(far@, i as int, k) {
                    let j = choose|j: int| 0 <= j < i && far@[j] == k;
                    assert(0 <= j < i + 1 && far@[j] == k);
                }
                if k == key {
                    assert(0 <= i < i + 1 && far@[i as int] == k);
                }
            }
            i += 1;
        }
        assert forall|k: u128|
            self.loaded@.contains_key(k) <==> before.contains_key(k) && coord_of(k).within(
                cx as int,
                cy as int,
                cz as int,
                old(self).view_distance as int,
            ) by {
            if before.contains_key(k) {
                if far@.contains(k) {
                    let j = choose|j: int| 0 <= j < far@.len() && far@[j] == k;
                    assert(0 <= j < i && far@[j] == k);
                    assert(listed_before(far@, i as int, k));
                } else {
                    if listed_before(far@, i as int, k) {
                        let j = choose|j: int| 0 <= j < i && far@[j] == k;
                        assert(far@.contains(k));
                    }
                }
            }
        }
    }

    /// Brings the manager up to date with an observer at `observer`.
    ///
    /// The observer's chunk is the floor of its position divided by 16 on
    /// every axis. Every chunk coordinate within the view distance of it
    /// (the cube, not the sphere) that is neither loaded nor pending becomes
    /// pending, and the returned list holds one generation task for each, in
    /// the order x, then y, then z. Every loaded chunk farther away than the
    /// view distance on some axis is dropped. Pending coordinates stay
    /// pending wherever they lie.
    pub fn update_chunks(&mut self, observer: BlockPos) -> (tasks: Vec<GenerationTask>)
        requires
            old(self).wf(),
        ensures
            final(self).wf(),
            final(self)@ == old(self)@.after_update(observer),
            forall|i: int| 0 <= i < tasks@.len() ==> old(self)@.missing(observer, (#[trigger] tasks@[i])@),
            forall|c: ChunkCoord| #[trigger]
                old(self)@.missing(observer, c) ==> exists|i: int|
                    0 <= i < tasks@.len() && (#[trigger] tasks@[i])@ == c,
            forall|i: int, j: int|
                0 <= i < j < tasks@.len() ==> (#[trigger] tasks@[i])@.precedes((#[trigger] tasks@[j])@),
    {
        let cx = floor_div_16(observer.x);
        let cy = floor_div_16(observer.y);
        let cz = floor_div_16(observer.z);
        let ghost start = *self;
        let tasks = self.request_window(cx, cy, cz);
        let ghost requested = *self;
        self.evict_far(cx, cy, cz);
        proof {
            let before = start@;
            let goal = before.after_update(observer);
            assert forall|c: ChunkCoord| #[trigger] self@.pending.contains(c) <==> goal.pending.contains(c) by {
                lemma_key_roundtrip(c);
                assert(requested.pending@.contains(key_of(c)) <==> start.pending@.contains(key_of(c))
                    || (is_missing(
                    start.loaded@,
                    start.pending@,
                    c,
                    cx as int,
                    cy as int,
                    cz as int,
                    start.view_distance as int,
                ) && done_before(c, 0x8000_0000, 0, 0)));
                assert(done_before(c, 0x8000_0000, 0, 0));
            }
            assert(self@.pending =~= goal.pending);
            assert forall|c: ChunkCoord| #[trigger]
                self@.loaded.contains_key(c) <==> goal.loaded.contains_key(c) by {
                lemma_key_roundtrip(c);
            }
            assert forall|c: ChunkCoord| #[trigger] self@.loaded.contains_key(c) implies self@.loaded[c]
                == goal.loaded[c] by {
                lemma_key_roundtrip(c);
            }
            assert(self@.loaded =~= goal.loaded);
            assert forall|i: int| 0 <= i < tasks@.len() implies before.missing(
                observer,
                (#[trigger] tasks@[i])@,
            ) by {
                let c = tasks@[i]@;
                assert(is_missing(
                    start.loaded@,
                    start.pending@,
                    c,
                    cx as int,
                    cy as int,
                    cz as int,
                    start.view_distance as int,
                ));
            }
            assert forall|c: ChunkCoord| #[trigger] before.missing(observer, c) implies exists|i: int|
                0 <= i < tasks@.len() && (#[trigger] tasks@[i])@ == c by {
                assert(is_missing(
                    start.loaded@,
                    start.pending@,
                    c,
                    cx as int,
                    cy as int,
                    cz as int,
                    start.view_distance as int,
                ));
                assert(done_before(c, 0x8000_0000, 0, 0));
            }
        }
        tasks
    }

    /// Takes in one generated chunk.
    ///
    /// If the chunk's coordinate is pending, the coordinate stops being
    /// pending, the chunk is meshed against the chunks that are loaded at
    /// this moment and becomes loaded. A chunk that nobody is waiting for is
    /// dropped, so no coordinate can be merged twice.
    pub fn merge_chunk(&mut self, chunk: Chunk) -> (merged: bool)
        requires
            old(self).wf(),
        ensures
            final(self).wf(),
            merged == old(self)@.pending.contains(chunk@.coord),
            final(self)@ == old(self)@.after_merge(chunk@),
    {
        broadcast use vstd::std_specs::hash::group_hash_axioms;

        let coord = chunk.coord();
        let key = chunk_key(coord);
        proof {
            lemma_key_roundtrip(coord);
        }
        if !self.pending.contains(&key) {
            return false;
        }
        let ghost before = *self;
        self.pending.remove(&key);
        let ghost between = *self;
        assert(between@.loaded =~= before@.loaded);
        let mut chunk = chunk;
        chunk.generate_mesh(&*self);
        self.loaded.insert(key, chunk);
        proof {
            let goal = before@.after_merge(ChunkView { coord, ..chunk@ });
            assert(chunk@ == before@.meshed(coord, chunk@.blocks));
            assert forall|c: ChunkCoord| #[trigger] self@.pending.contains(c) <==> goal.pending.contains(c) by {
                lemma_key_roundtrip(c);
            }
            assert(self@.pending =~= goal.pending);
            assert forall|c: ChunkCoord| #[trigger]
                self@.loaded.contains_key(c) <==> goal.loaded.contains_key(c) by {
                lemma_key_roundtrip(c);
            }
            assert forall|c: ChunkCoord| #[trigger] self@.loaded.contains_key(c) implies self@.loaded[c]
                == goal.loaded[c] by {
                lemma_key_roundtrip(c);
            }
            assert(self@.loaded =~= goal.loaded);
        }
        true
    }

    /// Meshes the loaded chunk at `coord` again, against the chunks that are
    /// loaded now. Tells whether a chunk is loaded at `coord`.
    ///
    /// A chunk is meshed when it arrives, and the arrival of a neighbour does
    /// not touch it: faces that the neighbour now hides stay in its list
    /// until the chunk is meshed again. This is the way to do that.
    pub fn remesh_chunk(&mut self, coord: ChunkCoord) -> (found: bool)
        requires
            old(self).wf(),
        ensures
            final(self).wf(),
            found == old(self)@.loaded.contains_key(coord),
            final(self)@ == old(self)@.after_remesh(coord),
    {
        broadcast use vstd::std_specs::hash::group_hash_axioms;

        let key = chunk_key(coord);
        proof {
            lemma_key_roundtrip(coord);
        }
        let faces = match self.loaded.get(&key) {
            Some(chunk) => chunk.mesh(&*self),
            None => {
                return false;
            },
        };
        let ghost before = *self;
        match self.loaded.remove(&key) {
            Some(chunk) => {
                let mut chunk = chunk;
                chunk.install_faces(faces);
                assert(chunk@ == before@.meshed(coord, before@.loaded[coord].blocks));
                assert(chunk@.faces == mesh_faces(chunk@.coord, chunk@.blocks, before@.grids()));
                self.loaded.insert(key, chunk);
            },
            None => {
                assert(false);
            },
        }
        proof {
            let goal = before@.after_remesh(coord);
            assert(self@.pending =~= goal.pending);
            assert forall|c: ChunkCoord| #[trigger]
                self@.loaded.contains_key(c) <==> goal.loaded.contains_key(c) by {
                lemma_key_roundtrip(c);
            }
            assert forall|c: ChunkCoord| #[trigger] self@.loaded.contains_key(c) implies self@.loaded[c]
                == goal.loaded[c] by {
                lemma_key_roundtrip(c);
            }
            assert(self@.loaded =~= goal.loaded);
        }
        true
    }

    /// Gives up the request for `coord`, so that a later update can request
    /// it again. This is what to do when generating the chunk has failed.
    /// Tells whether `coord` was pending.
    pub fn release_pending(&mut self, coord: ChunkCoord) -> (released: bool)
        requires
            old(self).wf(),
        ensures
            final(self).wf(),
            released == old(self)@.pending.contains(coord),
            final(self)@ == old(self)@.after_release(coord),
    {
        broadcast use vstd::std_specs::hash::group_hash_axioms;

        let key = chunk_key(coord);
        let released = self.pending.remove(&key);
        proof {
            lemma_key_roundtrip(coord);
            let goal = old(self)@.after_release(coord);
            assert forall|c: ChunkCoord| #[trigger] self@.pending.contains(c) <==> goal.pending.contains(c) by {
                lemma_key_roundtrip(c);
            }
            assert(self@.pending =~= goal.pending);
            assert(self@.loaded =~= goal.loaded);
        }
        released
    }

    /// Takes in the chunks whose generation has finished, without waiting
    /// for any other.
    ///
    /// Each chunk that has arrived is merged as `merge_chunk` does, one after
    /// the other, so each is meshed against the chunks loaded before it. The
    /// result lists the coordinates that became loaded, in that order. Which
    /// chunks have arrived is up to the generating threads; at most as many
    /// are taken as coordinates were pending.
    pub fn poll_new_chunks(&mut self) -> (merged: Vec<ChunkCoord>)
        requires
            old(self).wf(),
        ensures
            final(self).wf(),
            exists|arrivals: Seq<ChunkView>|
                arrivals.len() <= old(self)@.pending.len() && final(self)@ == #[trigger] old(
                    self,
                )@.after_arrivals(arrivals) && merged@ == old(self)@.merged_by(arrivals),
            old(self)@.polled(final(self)@, merged@),
    {
        let mut merged: Vec<ChunkCoord> = Vec::new();
        let mut budget = self.pending_len();
        let ghost mut arrivals: Seq<ChunkView> = Seq::empty();
        while budget > 0
            invariant
                self.wf(),
                arrivals.len() + budget == old(self)@.pending.len(),
                self@ == old(self)@.after_arrivals(arrivals),
                merged@ == old(self)@.merged_by(arrivals),
            decreases budget,
        {
            match try_receive(&self.rx) {
                Some(chunk) => {
                    let coord = chunk.coord();
                    let ghost earlier = arrivals;
                    proof {
                        arrivals = arrivals.push(chunk@);
                        assert(arrivals.drop_last() =~= earlier);
                    }
                    if self.merge_chunk(chunk) {
                        merged.push(coord);
                    }
                },
                None => {
                    break ;
                },
            }
            budget -= 1;
        }
        proof {
            old(self).lemma_wf_consistent();
            lemma_arrivals_polled(old(self)@, arrivals);
        }
        merged
    }

    /// The loaded chunks, each once, in no particular order.
    pub fn all_chunks(&self) -> (chunks: Vec<&Chunk>)
        requires
            self.wf(),
        ensures
            forall|i: int|
                0 <= i < chunks@.len() ==> self@.loaded.contains_key((#[trigger] chunks@[i])@.coord)
                    && self@.loaded[chunks@[i]@.coord] == chunks@[i]@,
            forall|i: int, j: int|
                0 <= i < j < chunks@.len() ==> (#[trigger] chunks@[i])@.coord != (
                #[trigger] chunks@[j])@.coord,
            forall|c: ChunkCoord| #[trigger]
                self@.loaded.contains_key(c) ==> exists|i: int|
                    0 <= i < chunks@.len() && (#[trigger] chunks@[i])@.coord == c,
    {
        broadcast use vstd::std_specs::hash::group_hash_axioms;

        let mut chunks: Vec<&Chunk> = Vec::new();
        let keys = self.loaded.keys();
        let ghost all = keys.remaining().unref();
        assert(all.to_set() == self.loaded@.dom());
        assert(all.no_duplicates());
        for key in iter: keys
            invariant
                self.wf(),
                iter.seq().unref() == all,
                all.no_duplicates(),
                all.to_set() == self.loaded@.dom(),
                chunks@.len() == iter.index(),
                forall|i: int|
                    0 <= i < chunks@.len() ==> self.loaded@.contains_key(all[i]) && *(
                    #[trigger] chunks@[i]) == self.loaded@[all[i]],
        {
            let ghost i = iter.index();
            assert(*key == all[i]);
            assert(all.to_set().contains(*key));
            match self.loaded.get(key) {
                Some(chunk) => {
                    chunks.push(chunk);
                },
                None => {
                    assert(false);
                },
            }
        }
        proof {
            assert forall|i: int| 0 <= i < chunks@.len() implies self@.loaded.contains_key(
                (#[trigger] chunks@[i])@.coord,
            ) && self@.loaded[chunks@[i]@.coord] == chunks@[i]@ by {
                assert(*chunks@[i] == self.loaded@[all[i]]);
                lemma_coord_roundtrip(all[i]);
            }
            assert forall|i: int, j: int| 0 <= i < j < chunks@.len() implies (
            #[trigger] chunks@[i])@.coord != (#[trigger] chunks@[j])@.coord by {
                assert(*chunks@[i] == self.loaded@[all[i]]);
                assert(*chunks@[j] == self.loaded@[all[j]]);
                lemma_coord_roundtrip(all[i]);
                lemma_coord_roundtrip(all[j]);
            }
            assert forall|c: ChunkCoord| #[trigger] self@.loaded.contains_key(c) implies exists|i: int|
                0 <= i < chunks@.len() && (#[trigger] chunks@[i])@.coord == c by {
                lemma_key_roundtrip(c);
                assert(all.to_set().contains(key_of(c)));
                assert(all.contains(key_of(c)));
                let i = choose|i: int| 0 <= i < all.len() && all[i] == key_of(c);
                assert(chunks@[i]@.coord == c);
            }
        }
        chunks
    }

    /// Whether the chunk at `coord` is loaded.
    pub fn is_loaded(&self, coord: ChunkCoord) -> (loaded: bool)
        requires
            self.wf(),
        ensures
            loaded == self@.loaded.contains_key(coord),
    {
        broadcast use vstd::std_specs::hash::group_hash_axioms;

        let key = chunk_key(coord);
        self.loaded.contains_key(&key)
    }

    /// Whether the chunk at `coord` has been requested and has not arrived.
    pub fn is_pending(&self, coord: ChunkCoord) -> (pending: bool)
        requires
            self.wf(),
        ensures
            pending == self@.pending.contains(coord),
    {
        broadcast use vstd::std_specs::hash::group_hash_axioms;

        let key = chunk_key(coord);
        self.pending.contains(&key)
    }

    /// The number of loaded chunks.
    pub fn loaded_len(&self) -> (count: usize)
        requires
            self.wf(),
        ensures
            self@.loaded.dom().finite(),
            count == self@.loaded.dom().len(),
    {
        broadcast use vstd::std_specs::hash::group_hash_axioms;

        proof {
            self.lemma_view_sizes();
        }
        self.loaded.len()
    }

    /// The number of pending coordinates.
    pub fn pending_len(&self) -> (count: usize)
        requires
            self.wf(),
        ensures
            self@.pending.finite(),
            count == self@.pending.len(),
    {
        broadcast use vstd::std_specs::hash::group_hash_axioms;

        proof {
            self.lemma_view_sizes();
        }
        self.pending.len()
    }

    /// The collections hold as many keys as the view holds coordinates.
    proof fn lemma_view_sizes(&self)
        requires
            self.wf(),
        ensures
            self@.loaded.dom().finite(),
            self@.loaded.dom().len() == self.loaded@.dom().len(),
            self@.pending.finite(),
            self@.pending.len() == self.pending@.len(),
    {
        broadcast use vstd::std_specs::hash::group_hash_axioms;

        let decode = |k: u128| coord_of(k);
        let keys = self.loaded@.dom();
        assert(keys.map(decode) =~= self@.loaded.dom()) by {
            assert forall|c: ChunkCoord| keys.map(decode).contains(c) <==> self@.loaded.dom().contains(
                c,
            ) by {
                lemma_key_roundtrip(c);
                if self@.loaded.dom().contains(c) {
                    assert(keys.contains(key_of(c)) && decode(key_of(c)) == c);
                }
                if keys.map(decode).contains(c) {
                    let k = choose|k: u128| keys.contains(k) && c == decode(k);
                    lemma_coord_roundtrip(k);
                }
            }
        }
        assert(vstd::relations::injective_on(decode, keys)) by {
            assert forall|a: u128, b: u128|
                keys.contains(a) && keys.contains(b) && #[trigger] decode(a) == #[trigger] decode(
                    b,
                ) implies a == b by {
                lemma_coord_roundtrip(a);
                lemma_coord_roundtrip(b);
            }
        }
        vstd::set_lib::lemma_map_size(keys, self@.loaded.dom(), decode);
        let waiting = self.pending@;
        assert(waiting.map(decode) =~= self@.pending) by {
            assert forall|c: ChunkCoord| waiting.map(decode).contains(c) <==> self@.pending.contains(
                c,
            ) by {
                lemma_key_roundtrip(c);
                if self@.pending.contains(c) {
                    assert(waiting.contains(key_of(c)) && decode(key_of(c)) == c);
                }
                if waiting.map(decode).contains(c) {
                    let k = choose|k: u128| waiting.contains(k) && c == decode(k);
                    lemma_coord_roundtrip(k);
                }
            }
        }
        assert(vstd::relations::injective_on(decode, waiting)) by {
            assert forall|a: u128, b: u128|
                waiting.contains(a) && waiting.contains(b) && #[trigger] decode(a) == #[trigger] decode(
                    b,
                ) implies a == b by {
                lemma_coord_roundtrip(a);
                lemma_coord_roundtrip(b);
            }
        }
        vstd::set_lib::lemma_map_size(waiting, self@.pending, decode);
    }

    /// In a well-formed manager no coordinate is loaded and pending at once,
    /// every loaded chunk sits under its own coordinate, and both collections
    /// are finite.
    pub proof fn lemma_wf_consistent(&self)
        requires
            self.wf(),
        ensures
            self@.consistent(),
            self@.loaded.dom().finite(),
            self@.pending.finite(),
    {
        self.lemma_view_sizes();
        assert forall|c: ChunkCoord| !(#[trigger] self@.loaded.contains_key(c) && self@.pending.contains(
            c,
        )) by {
            lemma_key_roundtrip(c);
        }
        assert forall|c: ChunkCoord| #[trigger] self@.loaded.contains_key(c) implies self@.loaded[c].coord
            == c by {
            lemma_key_roundtrip(c);
        }
    }

    /// The loaded chunk at `coord`, if there is one.
    pub fn chunk(&self, coord: ChunkCoord) -> (found: Option<&Chunk>)
        requires
            self.wf(),
        ensures
            match found {
                Some(chunk) => self@.loaded.contains_key(coord) && chunk@ == self@.loaded[coord],
                None => !self@.loaded.contains_key(coord),
            },
    {
        broadcast use vstd::std_specs::hash::group_hash_axioms;

        let key = chunk_key(coord);
        self.loaded.get(&key)
    }

    /// The block at a world position, or `None` where no loaded chunk holds
    /// the position.
    pub fn block_at(&self, pos: BlockPos) -> (block: Option<BlockType>)
        requires
            self.wf(),
        ensures
            block == world_block(self@.grids(), pos.x as int, pos.y as int, pos.z as int),
    {
        let cx = floor_div_16(pos.x);
        let cy = floor_div_16(pos.y);
        let cz = floor_div_16(pos.z);
        if cx < -0x8000_0000 || cx > 0x7fff_ffff || cy < -0x8000_0000 || cy > 0x7fff_ffff || cz
            < -0x8000_0000 || cz > 0x7fff_ffff {
            return None;
        }
        let coord = ChunkCoord { x: cx as i32, y: cy as i32, z: cz as i32 };
        match self.chunk(coord) {
            Some(chunk) => Some(
                chunk.block(floor_mod_16(pos.x), floor_mod_16(pos.y), floor_mod_16(pos.z)),
            ),
            None => None,
        }
    }

    /// The block at world position `(world_x, world_y, world_z)`, or `None`
    /// where no loaded chunk holds the position. The owning chunk is the
    /// floor of the position divided by 16 on every axis, the cell inside it
    /// the non-negative remainder.
    pub fn get_block(&self, world_x: i32, world_y: i32, world_z: i32) -> (block: Option<BlockType>)
        requires
            self.wf(),
        ensures
            block == world_block(self@.grids(), world_x as int, world_y as int, world_z as int),
    {
        self.block_at(BlockPos { x: world_x as i64, y: world_y as i64, z: world_z as i64 })
    }
}

} // verus!
