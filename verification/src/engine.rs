//! The frame loop as a state machine.
//!
//! The engine decides; the application carries out. [`Engine::step`] takes what
//! happened and returns what to do next.

use vstd::prelude::*;

use crate::gfx::frame::{AcquireResult, FramesInFlight, MAX_FRAMES_IN_FLIGHT};
use crate::render::renderers::RendererKind;
use crate::render::sort::depth_laws::{depth_consistent, draws_back_to_front};
use crate::render::sort::graph::{is_fifo_order, is_permutation};
use crate::render::sort::sweep::{is_sweep_order, stamped, sweep_graph};
use crate::render::sort::{ISorter, IsoBounds, IsoSortable, IsometricRectangleSorter};

verus! {

/// Frames that are logged in detail after start-up.
pub const VERBOSE_FRAMES: u64 = 3;

/// Start-up options.
pub struct EngineConfig {
    pub app_name: String,
    pub renderer: RendererKind,
}

impl Default for EngineConfig {
    fn default() -> (config: Self)
        ensures
            config.app_name@ == "ExeyEngine"@,
            config.renderer == RendererKind::BigBuffer,
    {
        EngineConfig { app_name: "ExeyEngine".to_owned(), renderer: RendererKind::default() }
    }
}

/// Where in a frame the engine is.
#[derive(Clone, Copy, Debug, PartialEq, Eq, Structural)]
pub enum Phase {
    /// Between frames.
    Idle,
    /// The swapchain is being made anew.
    Recreating,
    /// An image is being asked for.
    Acquiring,
    /// Commands for this image are being recorded.
    Recording { image_index: u32 },
    /// This image is being submitted and presented.
    Presenting { image_index: u32 },
}

/// What happened.
#[derive(Clone, Copy, Debug, PartialEq, Eq, Structural)]
pub enum EngineEvent {
    /// The window changed its size.
    Resized,
    /// A frame is wanted, in a window of this size.
    Draw { width: u32, height: u32 },
    /// The swapchain was made anew.
    Recreated,
    /// An image was asked for, with this result.
    Acquired(AcquireResult),
    /// The commands are recorded.
    Recorded,
    /// The image was presented; the swapchain may be stale.
    Presented { needs_recreate: bool },
    /// What was asked for failed; the frame is given up.
    Failed,
}

/// What to do next.
#[derive(Clone, Copy, Debug, PartialEq, Eq, Structural)]
pub enum EngineAction {
    /// Wait for the next event.
    Wait,
    /// Make the swapchain anew, for a window of this size.
    RecreateSwapchain { width: u32, height: u32 },
    /// Ask for an image, with the resources of this frame in flight.
    AcquireImage { frame: usize },
    /// Animate, sort and record.
    Record { frame: usize, image_index: u32 },
    /// Submit and present.
    Present { frame: usize, image_index: u32 },
}

/// State of the frame loop.
#[derive(Clone, Copy, Debug, PartialEq, Eq, Structural)]
pub struct Engine {
    /// Whether the swapchain is stale.
    pub needs_recreate: bool,
    /// Frames presented so far.
    pub frame_index: u64,
    pub frames: FramesInFlight,
    pub phase: Phase,
}

/// State and action after an event.
pub open spec fn engine_step(s: Engine, event: EngineEvent) -> (Engine, EngineAction) {
    let idle = Engine { phase: Phase::Idle, ..s };
    match event {
        EngineEvent::Resized => (Engine { needs_recreate: true, ..s }, EngineAction::Wait),
        EngineEvent::Draw { width, height } => if width == 0 || height == 0 {
            // Minimised.
            (s, EngineAction::Wait)
        } else if s.needs_recreate {
            (
                Engine { phase: Phase::Recreating, ..s },
                EngineAction::RecreateSwapchain { width, height },
            )
        } else {
            (
                Engine { phase: Phase::Acquiring, ..s },
                EngineAction::AcquireImage { frame: s.frames.current },
            )
        },
        EngineEvent::Recreated => (
            Engine { needs_recreate: false, phase: Phase::Acquiring, ..s },
            EngineAction::AcquireImage { frame: s.frames.current },
        ),
        EngineEvent::Acquired(AcquireResult::Acquired(image_index)) => (
            Engine { phase: Phase::Recording { image_index }, ..s },
            EngineAction::Record { frame: s.frames.current, image_index },
        ),
        EngineEvent::Acquired(AcquireResult::Recreate) => (
            Engine { needs_recreate: true, ..idle },
            EngineAction::Wait,
        ),
        EngineEvent::Recorded => match s.phase {
            Phase::Recording { image_index } => (
                Engine { phase: Phase::Presenting { image_index }, ..s },
                EngineAction::Present { frame: s.frames.current, image_index },
            ),
            _ => (s, EngineAction::Wait),
        },
        EngineEvent::Presented { needs_recreate } => (
            Engine {
                needs_recreate: s.needs_recreate || needs_recreate,
                frame_index: (s.frame_index + 1) as u64,
                frames: FramesInFlight {
                    current: ((s.frames.current + 1) % MAX_FRAMES_IN_FLIGHT as int) as usize,
                },
                phase: Phase::Idle,
            },
            EngineAction::Wait,
        ),
        EngineEvent::Failed => (idle, EngineAction::Wait),
    }
}

/// The event can happen in this phase.
pub open spec fn event_fits(phase: Phase, event: EngineEvent) -> bool {
    match event {
        EngineEvent::Resized => phase is Idle,
        EngineEvent::Draw { .. } => phase is Idle,
        EngineEvent::Recreated => phase is Recreating,
        EngineEvent::Acquired(_) => phase is Acquiring,
        EngineEvent::Recorded => phase is Recording,
        EngineEvent::Presented { .. } => phase is Presenting,
        EngineEvent::Failed => !(phase is Idle),
    }
}

impl Engine {
    /// The frames take turns in step with the frame count, and no image is in
    /// use while the swapchain is stale.
    pub open spec fn wf(&self) -> bool {
        &&& self.frames.current == self.frame_index as int % MAX_FRAMES_IN_FLIGHT as int
        &&& self.phase is Recreating ==> self.needs_recreate
        &&& (self.phase is Acquiring || self.phase is Recording || self.phase is Presenting)
            ==> !self.needs_recreate
    }

    pub fn new() -> (engine: Self)
        ensures
            engine.wf(),
            !engine.needs_recreate,
            engine.frame_index == 0,
            engine.phase is Idle,
    {
        Engine {
            needs_recreate: false,
            frame_index: 0,
            frames: FramesInFlight::new(),
            phase: Phase::Idle,
        }
    }

    /// Takes what happened and says what to do next.
    pub fn step(&mut self, event: EngineEvent) -> (action: EngineAction)
        requires
            old(self).wf(),
            event_fits(old(self).phase, event),
            event is Presented ==> old(self).frame_index < u64::MAX,
        ensures
            final(self).wf(),
            (*final(self), action) == engine_step(*old(self), event),
    {
        match event {
            EngineEvent::Resized => {
                self.needs_recreate = true;
                EngineAction::Wait
            },
            EngineEvent::Draw { width, height } => {
                if width == 0 || height == 0 {
                    EngineAction::Wait
                } else if self.needs_recreate {
                    self.phase = Phase::Recreating;
                    EngineAction::RecreateSwapchain { width, height }
                } else {
                    self.phase = Phase::Acquiring;
                    EngineAction::AcquireImage { frame: self.frames.current() }
                }
            },
            EngineEvent::Recreated => {
                self.needs_recreate = false;
                self.phase = Phase::Acquiring;
                EngineAction::AcquireImage { frame: self.frames.current() }
            },
            EngineEvent::Acquired(result) => match result {
                AcquireResult::Acquired(image_index) => {
                    self.phase = Phase::Recording { image_index };
                    EngineAction::Record { frame: self.frames.current(), image_index }
                },
                AcquireResult::Recreate => {
                    self.needs_recreate = true;
                    self.phase = Phase::Idle;
                    EngineAction::Wait
                },
            },
            EngineEvent::Recorded => match self.phase {
                Phase::Recording { image_index } => {
                    self.phase = Phase::Presenting { image_index };
                    EngineAction::Present { frame: self.frames.current(), image_index }
                },
                _ => EngineAction::Wait,
            },
            EngineEvent::Presented { needs_recreate } => {
                self.needs_recreate = self.needs_recreate || needs_recreate;
                self.frames.advance();
                self.frame_index += 1;
                self.phase = Phase::Idle;
                EngineAction::Wait
            },
            EngineEvent::Failed => {
                self.phase = Phase::Idle;
                EngineAction::Wait
            },
        }
    }

    /// The window changed its size: the swapchain is made anew before the next
    /// frame, not in the middle of one.
    pub fn on_resize(&mut self, _new_size: (u32, u32))
        requires
            old(self).wf(),
            old(self).phase is Idle,
        ensures
            final(self).wf(),
            *final(self) == (Engine { needs_recreate: true, ..*old(self) }),
    {
        let _ = self.step(EngineEvent::Resized);
    }

    /// Whether the current frame is logged in detail.
    pub fn verbose(&self) -> (yes: bool)
        ensures
            yes <==> self.frame_index < VERBOSE_FRAMES,
            yes <==> self.frame_index < 3,
    {
        self.frame_index < VERBOSE_FRAMES
    }
}

/// The footprints of a row of sprites.
pub open spec fn footprints<S: IsoSortable>(world: Seq<S>) -> Seq<IsoBounds> {
    Seq::new(world.len(), |i: int| world[i].footprint())
}

/// The draw order of the world.
pub fn sort_world<S: IsoSortable>(sorter: &mut IsometricRectangleSorter, world: &[S]) -> (order:
    Vec<u32>)
    requires
        world@.len() <= u32::MAX,
        forall|i: int| 0 <= i < world@.len() ==> (#[trigger] world@[i]).footprint_fits(),
    ensures
        is_permutation(order@, world@.len()),
        exists|by_left: Seq<IsoBounds>| #[trigger]
            is_sweep_order(footprints(world@), by_left) && is_fifo_order(
                sweep_graph(by_left),
                order@,
            ),
        depth_consistent(stamped(footprints(world@))) ==> draws_back_to_front(
            footprints(world@),
            order@,
        ),
{
    let mut bounds: Vec<IsoBounds> = Vec::new();
    let mut i: usize = 0;
    while i < world.len()
        invariant
            i <= world@.len(),
            forall|k: int| 0 <= k < world@.len() ==> (#[trigger] world@[k]).footprint_fits(),
            bounds@ == Seq::new(i as nat, |k: int| world@[k].footprint()),
        decreases world@.len() - i,
    {
        bounds.push(world[i].iso_bounds());
        i += 1;
    }
    assert(bounds@ =~= footprints(world@));
    sorter.sort(&bounds)
}

/// An image is only asked for while the swapchain is fresh, and with the
/// resources of the frame whose turn it is.
pub proof fn law_never_acquires_when_stale(s: Engine, event: EngineEvent)
    requires
        s.wf(),
        event_fits(s.phase, event),
    ensures
        engine_step(s, event).1 matches EngineAction::AcquireImage { frame } ==> {
            &&& !engine_step(s, event).0.needs_recreate
            &&& frame == s.frames.current
            &&& frame < MAX_FRAMES_IN_FLIGHT
        },
{
}

/// A minimised window draws nothing and changes nothing.
pub proof fn law_minimised_frame_is_skipped(s: Engine, width: u32, height: u32)
    requires
        width == 0 || height == 0,
    ensures
        engine_step(s, EngineEvent::Draw { width, height }) == (s, EngineAction::Wait),
{
}

/// A stale swapchain is made anew at the next frame of a visible window, however
/// it became stale, and also if making it anew failed before.
pub proof fn law_stale_swapchain_is_recreated(s: Engine, width: u32, height: u32, image_index: u32)
    requires
        s.wf(),
        width > 0,
        height > 0,
    ensures
        // After a resize.
        s.phase is Idle ==> engine_step(
            engine_step(s, EngineEvent::Resized).0,
            EngineEvent::Draw { width, height },
        ).1 == (EngineAction::RecreateSwapchain { width, height }),
        // After an image request that said so.
        s.phase is Acquiring ==> engine_step(
            engine_step(s, EngineEvent::Acquired(AcquireResult::Recreate)).0,
            EngineEvent::Draw { width, height },
        ).1 == (EngineAction::RecreateSwapchain { width, height }),
        // After a present that said so.
        s.phase is Presenting ==> engine_step(
            engine_step(s, EngineEvent::Presented { needs_recreate: true }).0,
            EngineEvent::Draw { width, height },
        ).1 == (EngineAction::RecreateSwapchain { width, height }),
        // After a failed attempt.
        s.phase is Recreating ==> engine_step(
            engine_step(s, EngineEvent::Failed).0,
            EngineEvent::Draw { width, height },
        ).1 == (EngineAction::RecreateSwapchain { width, height }),
{
}

/// Only a presented frame is counted, and only then it is the next frame's
/// turn.
pub proof fn law_only_presented_frames_count(s: Engine, event: EngineEvent)
    requires
        s.frame_index < u64::MAX,
    ensures
        event is Presented ==> engine_step(s, event).0.frame_index == s.frame_index + 1,
        !(event is Presented) ==> engine_step(s, event).0.frame_index == s.frame_index
            && engine_step(s, event).0.frames == s.frames,
{
}

/// The events of an undisturbed frame lead from one frame to the next.
pub proof fn law_undisturbed_frame(s: Engine, width: u32, height: u32, image_index: u32)
    requires
        s.wf(),
        s.phase is Idle,
        !s.needs_recreate,
        s.frame_index < u64::MAX,
        width > 0,
        height > 0,
    ensures
        ({
            let acquiring = engine_step(s, EngineEvent::Draw { width, height });
            let recording = engine_step(
                acquiring.0,
                EngineEvent::Acquired(AcquireResult::Acquired(image_index)),
            );
            let presenting = engine_step(recording.0, EngineEvent::Recorded);
            let done = engine_step(presenting.0, EngineEvent::Presented { needs_recreate: false });
            let frame = s.frames.current;
            &&& acquiring.1 == (EngineAction::AcquireImage { frame })
            &&& recording.1 == (EngineAction::Record { frame, image_index })
            &&& presenting.1 == (EngineAction::Present { frame, image_index })
            &&& done.1 == EngineAction::Wait
            &&& done.0.phase is Idle
            &&& !done.0.needs_recreate
            &&& done.0.frame_index == s.frame_index + 1
            &&& done.0.frames.current != frame
        }),
{
}

/// The frame's image goes through recording to presenting unchanged, with the
/// resources of one frame, and the swapchain is made anew for the window's own
/// size.
pub proof fn law_image_goes_from_acquire_to_present(s: Engine, event: EngineEvent)
    requires
        s.wf(),
        event_fits(s.phase, event),
    ensures
        engine_step(s, event).1 matches EngineAction::Record { frame, image_index } ==> {
            &&& event == EngineEvent::Acquired(AcquireResult::Acquired(image_index))
            &&& frame == s.frames.current
            &&& engine_step(s, event).0.phase == (Phase::Recording { image_index })
        },
        engine_step(s, event).1 matches EngineAction::Present { frame, image_index } ==> {
            &&& event is Recorded
            &&& s.phase == (Phase::Recording { image_index })
            &&& frame == s.frames.current
            &&& engine_step(s, event).0.phase == (Phase::Presenting { image_index })
        },
        engine_step(s, event).1 matches EngineAction::RecreateSwapchain { width, height } ==> {
            &&& event == (EngineEvent::Draw { width, height })
            &&& width > 0 && height > 0
            &&& s.needs_recreate
            &&& engine_step(s, event).0.phase is Recreating
        },
        engine_step(s, event).1 is AcquireImage ==> engine_step(s, event).0.phase is Acquiring,
        engine_step(s, event).1 is Wait ==> engine_step(s, event).0.phase is Idle,
{
}

/// The swapchain becomes stale by a resize, or by an answer that says so, and stays
/// so until it has been made anew; nothing else touches the mark.
pub proof fn law_stale_until_recreated(s: Engine, event: EngineEvent)
    requires
        s.wf(),
        event_fits(s.phase, event),
    ensures
        ({
            let after = engine_step(s, event).0;
            let spoiled = event is Resized || event == EngineEvent::Acquired(
                AcquireResult::Recreate,
            ) || event == (EngineEvent::Presented { needs_recreate: true });
            &&& spoiled ==> after.needs_recreate
            &&& event is Recreated ==> !after.needs_recreate
            &&& !spoiled && !(event is Recreated) ==> after.needs_recreate == s.needs_recreate
        }),
{
}

/// A stale swapchain that was made anew goes straight on with the frame, and the
/// frame that follows does not make it anew again.
pub proof fn law_recreated_frame_goes_on(s: Engine, width: u32, height: u32)
    requires
        s.wf(),
        s.phase is Idle,
        s.needs_recreate,
        width > 0,
        height > 0,
    ensures
        ({
            let recreating = engine_step(s, EngineEvent::Draw { width, height });
            let acquiring = engine_step(recreating.0, EngineEvent::Recreated);
            &&& recreating.1 == (EngineAction::RecreateSwapchain { width, height })
            &&& acquiring.1 == (EngineAction::AcquireImage { frame: s.frames.current })
            &&& !acquiring.0.needs_recreate
            &&& acquiring.0.frame_index == s.frame_index
        }),
{
}

/// Whatever fails, the engine waits for the next frame with its counts as they
/// were, and the next frame begins as if the failed one had not been.
pub proof fn law_failure_leaves_engine_ready(s: Engine, width: u32, height: u32)
    requires
        s.wf(),
        !(s.phase is Idle),
        width > 0,
        height > 0,
    ensures
        ({
            let failed = engine_step(s, EngineEvent::Failed);
            let next = engine_step(failed.0, EngineEvent::Draw { width, height });
            &&& failed.1 is Wait
            &&& failed.0.phase is Idle
            &&& failed.0.frame_index == s.frame_index
            &&& failed.0.frames == s.frames
            &&& failed.0.needs_recreate == s.needs_recreate
            &&& next.1 == if s.needs_recreate {
                EngineAction::RecreateSwapchain { width, height }
            } else {
                EngineAction::AcquireImage { frame: s.frames.current }
            }
        }),
{
}

/// The sorter is handed the footprint of each sprite, in the order of the sprites.
pub proof fn law_footprints_follow_sprites<S: IsoSortable>(world: Seq<S>, i: int)
    requires
        0 <= i < world.len(),
    ensures
        footprints(world).len() == world.len(),
        footprints(world)[i] == world[i].footprint(),
{
}

} // verus!
