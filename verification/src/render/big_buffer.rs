//! The streaming renderer: many sprites per buffer, one draw per texture
//! change.
//!
//! Each frame all sprites, in draw order, are packed into buffer pairs. Within
//! a pair, sprites in a row that ask for the same mesh form a run, and each run
//! is one draw call. Pairs are kept per frame in flight, so that a frame never
//! overwrites memory that the GPU may still be reading for the frame before.

use vstd::prelude::*;

use crate::gfx::frame::MAX_FRAMES_IN_FLIGHT;
use crate::render::buffer_pair::{
    sprites_taken, BakedSprite, PopulateOutcome, RenderBufferPair, SPRITES_PER_PAIR,
};
use crate::render::renderers::{
    clamp_mesh, draw_stream, order_fits, stream_of, usable_mesh, RendererKind,
};

verus! {

/// Pairs per frame in flight.
pub const PAIRS_PER_SLOT: usize = 2;

/// What the streaming renderer records.
#[derive(Clone, Copy, Debug, PartialEq, Eq, Structural)]
pub enum DrawCommand {
    /// Bind the vertex and index memory of a pair of this frame's slot.
    BindPair { pair: usize },
    /// Bind the texture of a mesh.
    BindTexture { mesh: u8 },
    /// Draw these indices of the bound pair.
    DrawIndexed { index_count: u32, first_index: u32 },
}

/// The end of the run that begins at `i`.
pub open spec fn run_end(meshes: Seq<u8>, i: int, j: int) -> int
    decreases meshes.len() - j,
{
    if j >= meshes.len() || meshes[j] != meshes[i] {
        j
    } else {
        run_end(meshes, i, j + 1)
    }
}

/// A run ends behind its beginning and within the row.
pub proof fn lemma_run_end(meshes: Seq<u8>, i: int, j: int)
    requires
        0 <= i < j <= meshes.len(),
        forall|k: int| i <= k < j ==> #[trigger] meshes[k] == meshes[i],
    ensures
        j <= run_end(meshes, i, j) <= meshes.len(),
        forall|k: int| i <= k < run_end(meshes, i, j) ==> #[trigger] meshes[k] == meshes[i],
        run_end(meshes, i, j) < meshes.len() ==> meshes[run_end(meshes, i, j)] != meshes[i],
    decreases meshes.len() - j,
{
    if j < meshes.len() && meshes[j] == meshes[i] {
        lemma_run_end(meshes, i, j + 1);
    }
}

/// The commands for the sprites of one pair from `i` on, where a run begins.
pub open spec fn run_commands(meshes: Seq<u8>, i: int, mesh_count: nat) -> Seq<DrawCommand>
    decreases meshes.len() - i,
{
    if i < 0 || i >= meshes.len() {
        Seq::empty()
    } else {
        let end = run_end(meshes, i, i + 1);
        proof {
            lemma_run_end(meshes, i, i + 1);
        }
        seq![
            DrawCommand::BindTexture { mesh: usable_mesh(meshes[i], mesh_count) },
            DrawCommand::DrawIndexed {
                index_count: (6 * (end - i)) as u32,
                first_index: (6 * i) as u32,
            },
        ] + run_commands(meshes, end, mesh_count)
    }
}

/// The number of runs from `i` on, where a run begins.
pub open spec fn run_count(meshes: Seq<u8>, i: int) -> nat
    decreases meshes.len() - i,
{
    if i < 0 || i >= meshes.len() {
        0
    } else {
        let end = run_end(meshes, i, i + 1);
        proof {
            lemma_run_end(meshes, i, i + 1);
        }
        1 + run_count(meshes, end)
    }
}

/// The sprites of pair `pair`.
pub open spec fn pair_slice<T>(stream: Seq<T>, pair: int) -> Seq<T> {
    stream.subrange(
        pair * SPRITES_PER_PAIR,
        pair * SPRITES_PER_PAIR + sprites_taken(stream.len() as int, pair * SPRITES_PER_PAIR),
    )
}

/// The number of pairs that `total` sprites take.
pub open spec fn pairs_needed(total: nat) -> nat {
    ((total + SPRITES_PER_PAIR - 1) / SPRITES_PER_PAIR as int) as nat
}

/// The commands for the first `pairs` pairs.
pub open spec fn frame_commands(meshes: Seq<u8>, mesh_count: nat, pairs: nat) -> Seq<DrawCommand>
    decreases pairs,
{
    if pairs == 0 {
        Seq::empty()
    } else {
        let pair = (pairs - 1) as nat;
        frame_commands(meshes, mesh_count, pair) + seq![
            DrawCommand::BindPair { pair: pair as usize },
        ] + run_commands(pair_slice(meshes, pair as int), 0, mesh_count)
    }
}

/// The number of draws in the first `pairs` pairs.
pub open spec fn frame_draws(meshes: Seq<u8>, pairs: nat) -> nat
    decreases pairs,
{
    if pairs == 0 {
        0
    } else {
        frame_draws(meshes, (pairs - 1) as nat) + run_count(
            pair_slice(meshes, pairs - 1),
            0,
        )
    }
}

/// The meshes that a row of sprites asks for.
pub open spec fn meshes_of(sprites: Seq<BakedSprite>) -> Seq<u8> {
    Seq::new(sprites.len(), |i: int| sprites[i].mesh_idx)
}

/// There are never more runs than sprites.
pub proof fn lemma_run_count_bound(meshes: Seq<u8>, i: int)
    requires
        0 <= i <= meshes.len(),
    ensures
        run_count(meshes, i) <= meshes.len() - i,
        i < meshes.len() ==> run_count(meshes, i) >= 1,
    decreases meshes.len() - i,
{
    if i < meshes.len() {
        lemma_run_end(meshes, i, i + 1);
        lemma_run_count_bound(meshes, run_end(meshes, i, i + 1));
    }
}

/// The pairs of one frame in flight.
pub struct PoolSlot {
    pub pairs: Vec<RenderBufferPair>,
}

/// What a frame records, and its statistics.
pub struct FramePlan {
    /// The slot whose pairs hold the sprites.
    pub slot: usize,
    pub commands: Vec<DrawCommand>,
    pub pairs_used: u32,
    pub total_draws: u32,
    /// How often the mesh changes within a pair.
    pub total_mesh_changes: u32,
    pub total_vertices: usize,
}

/// The streaming renderer.
pub struct BigBufferRenderer {
    pub slots: Vec<PoolSlot>,
    pub frame_count: u64,
}

impl BigBufferRenderer {
    /// One slot per frame in flight.
    pub open spec fn wf(&self) -> bool {
        self.slots@.len() == MAX_FRAMES_IN_FLIGHT
    }

    /// Every slot has its pairs.
    pub open spec fn allocated(&self) -> bool {
        &&& self.wf()
        &&& forall|s: int|
            0 <= s < self.slots@.len() ==> (#[trigger] self.slots@[s]).pairs@.len()
                == PAIRS_PER_SLOT
    }

    /// The slot of the next frame.
    pub open spec fn next_slot(&self) -> int {
        self.frame_count as int % MAX_FRAMES_IN_FLIGHT as int
    }

    /// A renderer without pairs.
    pub fn new() -> (r: Self)
        ensures
            r.wf(),
            r.frame_count == 0,
            forall|s: int| 0 <= s < r.slots@.len() ==> (#[trigger] r.slots@[s]).pairs@.len() == 0,
    {
        let mut slots: Vec<PoolSlot> = Vec::new();
        slots.push(PoolSlot { pairs: Vec::new() });
        slots.push(PoolSlot { pairs: Vec::new() });
        BigBufferRenderer { slots, frame_count: 0 }
    }

    pub fn kind(&self) -> (kind: RendererKind)
        ensures
            kind == RendererKind::BigBuffer,
    {
        RendererKind::BigBuffer
    }

    /// Gives every slot its pairs.
    pub fn allocate_pools(&mut self)
        requires
            old(self).wf(),
            forall|s: int|
                0 <= s < old(self).slots@.len() ==> (#[trigger] old(self).slots@[s]).pairs@.len()
                    == 0,
        ensures
            final(self).allocated(),
            final(self).frame_count == old(self).frame_count,
            forall|s: int, p: int|
                0 <= s < final(self).slots@.len() && 0 <= p < PAIRS_PER_SLOT ==> (
                #[trigger] final(self).slots@[s].pairs@[p]).wf()
                    && final(self).slots@[s].pairs@[p].vertex_count == 0,
    {
        let mut s: usize = 0;
        while s < self.slots.len()
            invariant
                self.wf(),
                s <= self.slots@.len(),
                self.frame_count == old(self).frame_count,
                forall|t: int|
                    0 <= t < s ==> (#[trigger] self.slots@[t]).pairs@.len() == PAIRS_PER_SLOT,
                forall|t: int, p: int|
                    0 <= t < s && 0 <= p < PAIRS_PER_SLOT ==> (
                    #[trigger] self.slots@[t].pairs@[p]).wf()
                        && self.slots@[t].pairs@[p].vertex_count == 0,
            decreases self.slots@.len() - s,
        {
            let mut pairs: Vec<RenderBufferPair> = Vec::new();
            let mut p: usize = 0;
            while p < PAIRS_PER_SLOT
                invariant
                    p <= PAIRS_PER_SLOT,
                    pairs@.len() == p,
                    forall|q: int|
                        0 <= q < p ==> (#[trigger] pairs@[q]).wf() && pairs@[q].vertex_count == 0,
                decreases PAIRS_PER_SLOT - p,
            {
                pairs.push(RenderBufferPair::new());
                p += 1;
            }
            self.slots.set(s, PoolSlot { pairs });
            s += 1;
        }
    }

    /// Appends the commands for the sprites of one pair, and counts its runs.
    fn record_runs(
        commands: &mut Vec<DrawCommand>,
        stream: &Vec<BakedSprite>,
        first: usize,
        last: usize,
        mesh_count: usize,
    ) -> (runs: u32)
        requires
            first <= last <= stream@.len(),
            last - first <= SPRITES_PER_PAIR,
        ensures
            final(commands)@ == old(commands)@ + run_commands(
                meshes_of(stream@).subrange(first as int, last as int),
                0,
                mesh_count as nat,
            ),
            runs == run_count(meshes_of(stream@).subrange(first as int, last as int), 0),
    {
        let ghost meshes = meshes_of(stream@).subrange(first as int, last as int);
        let mut runs: u32 = 0;
        let mut i: usize = first;
        proof {
            lemma_run_count_bound(meshes, 0);
        }
        while i < last
            invariant
                first <= i <= last <= stream@.len(),
                last - first <= SPRITES_PER_PAIR,
                meshes == meshes_of(stream@).subrange(first as int, last as int),
                commands@ + run_commands(meshes, i - first, mesh_count as nat) == old(commands)@
                    + run_commands(meshes, 0, mesh_count as nat),
                runs + run_count(meshes, i - first) == run_count(meshes, 0),
                run_count(meshes, 0) <= meshes.len(),
            decreases last - i,
        {
            let mesh: u8 = stream[i].mesh_idx;
            let mut end: usize = i + 1;
            while end < last && stream[end].mesh_idx == mesh
                invariant
                    first <= i < end <= last <= stream@.len(),
                    meshes == meshes_of(stream@).subrange(first as int, last as int),
                    mesh == meshes[i - first],
                    run_end(meshes, i - first, i - first + 1) == run_end(
                        meshes,
                        i - first,
                        end - first,
                    ),
                decreases last - end,
            {
                assert(stream@[end as int].mesh_idx == meshes[end - first]);
                end += 1;
            }
            let ghost before = commands@;
            let ghost from = i - first;
            proof {
                assert(run_end(meshes, from, from + 1) == end - first) by {
                    if end < last {
                        assert(stream@[end as int].mesh_idx == meshes[end - first]);
                    }
                }
                lemma_run_end(meshes, from, from + 1);
            }
            commands.push(DrawCommand::BindTexture { mesh: clamp_mesh(mesh, mesh_count) });
            commands.push(
                DrawCommand::DrawIndexed {
                    index_count: 6 * ((end - i) as u32),
                    first_index: 6 * ((i - first) as u32),
                },
            );
            proof {
                assert(commands@ + run_commands(meshes, end - first, mesh_count as nat) =~= before
                    + run_commands(meshes, from, mesh_count as nat));
            }
            runs += 1;
            i = end;
        }
        assert(run_commands(meshes, last - first, mesh_count as nat) =~= Seq::empty());
        assert(commands@ =~= old(commands)@ + run_commands(meshes, 0, mesh_count as nat));
        runs
    }

    /// Packs one frame and lists its commands.
    ///
    /// `order` is the sort order of the world; `mesh_count` the number of
    /// meshes, of which the first stands in for a missing one. An empty frame
    /// has no commands.
    pub fn record(
        &mut self,
        world: &[BakedSprite],
        order: &[u32],
        gui: &[BakedSprite],
        mesh_count: usize,
    ) -> (plan: FramePlan)
        requires
            old(self).wf(),
            old(self).allocated() || world@.len() + gui@.len() == 0,
            order_fits(order@, world@.len()),
            world@.len() + gui@.len() <= PAIRS_PER_SLOT * SPRITES_PER_PAIR,
            mesh_count > 0 || world@.len() + gui@.len() == 0,
        ensures
            final(self).wf(),
            old(self).allocated() ==> final(self).allocated(),
            // An empty frame touches no memory.
            world@.len() + gui@.len() == 0 ==> final(self).slots@ == old(self).slots@,
            final(self).frame_count == if old(self).frame_count == u64::MAX {
                0
            } else {
                old(self).frame_count + 1
            },
            plan.slot == old(self).next_slot(),
            ({
                let stream = stream_of(world@, order@, gui@);
                let meshes = meshes_of(stream);
                let pairs = pairs_needed(stream.len());
                &&& plan.commands@ == frame_commands(meshes, mesh_count as nat, pairs)
                &&& plan.pairs_used == pairs
                &&& plan.total_draws == frame_draws(meshes, pairs)
                &&& plan.total_mesh_changes == frame_draws(meshes, pairs) - pairs
                &&& plan.total_vertices == 4 * stream.len()
                // The pairs hold the stream, one slice each.
                &&& forall|p: int|
                    0 <= p < pairs ==> (#[trigger] final(self).slots@[plan.slot as int].pairs@[p]).holds(
                        stream,
                        p * SPRITES_PER_PAIR,
                        sprites_taken(stream.len() as int, p * SPRITES_PER_PAIR),
                    )
            }),
            // The memory of the other frames in flight is left alone.
            forall|s: int|
                0 <= s < final(self).slots@.len() && s != plan.slot ==> #[trigger] final(self).slots@[s]
                    == old(self).slots@[s],
    {
        let slot: usize = (self.frame_count % 2) as usize;
        self.frame_count = self.frame_count.wrapping_add(1);
        let stream: Vec<BakedSprite> = draw_stream(world, order, gui);
        let total: usize = stream.len();
        let ghost meshes = meshes_of(stream@);
        let mut commands: Vec<DrawCommand> = Vec::new();
        let mut pairs_used: u32 = 0;
        let mut total_draws: u32 = 0;
        let mut start: usize = 0;
        let ghost slots = self.slots@;
        while start < total
            invariant
                total == stream@.len(),
                meshes == meshes_of(stream@),
                total <= PAIRS_PER_SLOT * SPRITES_PER_PAIR,
                start <= total,
                start == total || start == pairs_used * SPRITES_PER_PAIR,
                pairs_needed(start as nat) == pairs_used,
                pairs_used <= PAIRS_PER_SLOT,
                commands@ == frame_commands(meshes, mesh_count as nat, pairs_used as nat),
                total_draws == frame_draws(meshes, pairs_used as nat),
                pairs_used <= total_draws <= start,
                self.wf(),
                start < total || old(self).allocated() ==> self.allocated(),
                total == 0 ==> self.slots@ == slots,
                slot < self.slots@.len(),
                slots.len() == self.slots@.len(),
                self.frame_count == if old(self).frame_count == u64::MAX {
                    0
                } else {
                    old(self).frame_count + 1
                },
                forall|p: int|
                    0 <= p < pairs_used ==> (#[trigger] self.slots@[slot as int].pairs@[p]).holds(
                        stream@,
                        p * SPRITES_PER_PAIR,
                        sprites_taken(stream@.len() as int, p * SPRITES_PER_PAIR),
                    ),
                forall|s: int|
                    0 <= s < self.slots@.len() && s != slot ==> #[trigger] self.slots@[s]
                        == slots[s],
            decreases total - start,
        {
            let pair: usize = pairs_used as usize;
            let ghost before = self.slots@;
            let outcome: PopulateOutcome = self.slots[slot].pairs[pair].populate(&stream, start);
            let end: usize = match outcome {
                PopulateOutcome::Exhausted => total,
                PopulateOutcome::Continue { next_start } => next_start,
            };
            assert(self.slots@[slot as int].pairs@[pair as int].holds(
                stream@,
                start as int,
                end - start,
            ));
            assert forall|p: int| 0 <= p < pairs_used implies (
            #[trigger] self.slots@[slot as int].pairs@[p]).holds(
                stream@,
                p * SPRITES_PER_PAIR,
                sprites_taken(stream@.len() as int, p * SPRITES_PER_PAIR),
            ) by {
                assert(before[slot as int].pairs@[p].holds(
                    stream@,
                    p * SPRITES_PER_PAIR,
                    sprites_taken(stream@.len() as int, p * SPRITES_PER_PAIR),
                ));
            }
            commands.push(DrawCommand::BindPair { pair });
            let ghost bound = commands@;
            let runs: u32 = Self::record_runs(&mut commands, &stream, start, end, mesh_count);
            proof {
                assert(meshes.subrange(start as int, end as int) =~= pair_slice(
                    meshes,
                    pair as int,
                ));
                lemma_run_count_bound(pair_slice(meshes, pair as int), 0);
                assert(commands@ =~= frame_commands(meshes, mesh_count as nat, pairs_used as nat)
                    + seq![DrawCommand::BindPair { pair }] + run_commands(
                    pair_slice(meshes, pair as int),
                    0,
                    mesh_count as nat,
                ));
            }
            total_draws += runs;
            pairs_used += 1;
            start = end;
        }
        FramePlan {
            slot,
            commands,
            pairs_used,
            total_draws,
            total_mesh_changes: total_draws - pairs_used,
            total_vertices: total * 4,
        }
    }
}

impl Default for BigBufferRenderer {
    fn default() -> (r: Self)
        ensures
            r.wf(),
            r.frame_count == 0,
            forall|s: int| 0 <= s < r.slots@.len() ==> (#[trigger] r.slots@[s]).pairs@.len() == 0,
    {
        Self::new()
    }
}

} // verus!
