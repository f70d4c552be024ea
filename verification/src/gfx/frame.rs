//! Frames in flight: whose turn it is, what the driver's answers mean, and the
//! steps that a frame records.

use vstd::prelude::*;

verus! {

/// Frames that the CPU may prepare before the GPU has finished the first.
pub const MAX_FRAMES_IN_FLIGHT: usize = 2;

/// Raw number of `VK_SUBOPTIMAL_KHR`.
pub const SUBOPTIMAL: i32 = 1000001003;

/// Raw number of `VK_ERROR_OUT_OF_DATE_KHR`.
pub const OUT_OF_DATE: i32 = -1000001004;

/// Whose turn it is among the frames in flight.
#[derive(Clone, Copy, Debug, PartialEq, Eq, Structural)]
pub struct FramesInFlight {
    pub current: usize,
}

impl FramesInFlight {
    pub open spec fn wf(&self) -> bool {
        self.current < MAX_FRAMES_IN_FLIGHT
    }

    /// The first frame's turn.
    pub fn new() -> (frames: Self)
        ensures
            frames.wf(),
            frames.current == 0,
    {
        FramesInFlight { current: 0 }
    }

    /// The next frame's turn.
    pub fn advance(&mut self)
        requires
            old(self).wf(),
        ensures
            final(self).wf(),
            final(self).current == (old(self).current + 1) % MAX_FRAMES_IN_FLIGHT as int,
    {
        self.current = (self.current + 1) % MAX_FRAMES_IN_FLIGHT;
    }

    pub fn current(&self) -> (frame: usize)
        requires
            self.wf(),
        ensures
            frame == self.current,
            frame < MAX_FRAMES_IN_FLIGHT,
    {
        self.current
    }
}

/// What came of asking for a swapchain image.
#[derive(Clone, Copy, Debug, PartialEq, Eq, Structural)]
pub enum AcquireResult {
    /// The image with this index.
    Acquired(u32),
    /// The swapchain must be made anew first.
    Recreate,
}

/// What an answer to an image request means.
pub open spec fn acquire_answer(answer: Result<(u32, i32), i32>) -> Result<AcquireResult, i32> {
    match answer {
        Ok((index, code)) => Ok(
            if code == SUBOPTIMAL {
                AcquireResult::Recreate
            } else {
                AcquireResult::Acquired(index)
            },
        ),
        Err(code) => if code == OUT_OF_DATE {
            Ok(AcquireResult::Recreate)
        } else {
            Err(code)
        },
    }
}

/// What an answer to a present means: whether the swapchain must be made anew.
pub open spec fn present_answer(answer: Result<i32, i32>) -> Result<bool, i32> {
    match answer {
        Ok(code) => Ok(code == SUBOPTIMAL),
        Err(code) => if code == OUT_OF_DATE {
            Ok(true)
        } else {
            Err(code)
        },
    }
}

/// Reads the driver's answer to an image request: index and success code, or
/// error code. Any other error is handed on. Only on `AcquireResult::Acquired` may
/// the frame's fence be reset.
pub fn acquire_outcome(answer: Result<(u32, i32), i32>) -> (outcome: Result<AcquireResult, i32>)
    ensures
        outcome == acquire_answer(answer),
        outcome == match answer {
            Ok((index, code)) => Ok(
                if code == SUBOPTIMAL {
                    AcquireResult::Recreate
                } else {
                    AcquireResult::Acquired(index)
                },
            ),
            Err(code) => if code == OUT_OF_DATE {
                Ok(AcquireResult::Recreate)
            } else {
                Err(code)
            },
        },
{
    match answer {
        Ok((index, code)) => {
            if code == SUBOPTIMAL {
                Ok(AcquireResult::Recreate)
            } else {
                Ok(AcquireResult::Acquired(index))
            }
        },
        Err(code) => {
            if code == OUT_OF_DATE {
                Ok(AcquireResult::Recreate)
            } else {
                Err(code)
            }
        },
    }
}

/// Reads the driver's answer to a present: whether the swapchain must be made
/// anew. Any other error is handed on.
pub fn present_outcome(answer: Result<i32, i32>) -> (outcome: Result<bool, i32>)
    ensures
        outcome == present_answer(answer),
        outcome == match answer {
            Ok(code) => Ok(code == SUBOPTIMAL),
            Err(code) => if code == OUT_OF_DATE {
                Ok(true)
            } else {
                Err(code)
            },
        },
{
    match answer {
        Ok(code) => Ok(code == SUBOPTIMAL),
        Err(code) => {
            if code == OUT_OF_DATE {
                Ok(true)
            } else {
                Err(code)
            }
        },
    }
}

/// Image layouts that the engine uses.
#[derive(Clone, Copy, Debug, PartialEq, Eq, Structural)]
pub enum ImageLayout {
    Undefined,
    ColorAttachment,
    PresentSource,
    TransferDestination,
    ShaderReadOnly,
}

/// Memory accesses that a barrier waits for or guards.
#[derive(Clone, Copy, Debug, PartialEq, Eq, Structural)]
pub enum Access {
    Nothing,
    ColorAttachmentWrite,
    TransferWrite,
    ShaderRead,
}

/// Pipeline stages that a barrier stands between.
#[derive(Clone, Copy, Debug, PartialEq, Eq, Structural)]
pub enum Stage {
    TopOfPipe,
    ColorAttachmentOutput,
    Transfer,
    FragmentShader,
    BottomOfPipe,
}

/// A layout transition of one image.
#[derive(Clone, Copy, Debug, PartialEq, Eq, Structural)]
pub struct ImageBarrier {
    pub old_layout: ImageLayout,
    pub new_layout: ImageLayout,
    pub src_access: Access,
    pub dst_access: Access,
    pub src_stage: Stage,
    pub dst_stage: Stage,
}

/// A step that is recorded into a command buffer.
#[derive(Clone, Copy, Debug, PartialEq, Eq, Structural)]
pub enum RecordStep {
    /// Change the layout of the image.
    Barrier(ImageBarrier),
    /// Begin rendering into the image, which is cleared.
    BeginRendering,
    /// The renderer's commands.
    Draw,
    EndRendering,
    /// Copy the staged pixels into the image.
    CopyPixels,
}

/// The layout that a row of steps leaves the image in, or `None` if a step
/// meets the image in a layout that it cannot use.
pub open spec fn layout_after(steps: Seq<RecordStep>, layout: ImageLayout) -> Option<ImageLayout>
    decreases steps.len(),
{
    if steps.len() == 0 {
        Some(layout)
    } else {
        match layout_after(steps.drop_last(), layout) {
            None => None,
            Some(now) => match steps.last() {
                RecordStep::Barrier(b) => if b.old_layout == now || b.old_layout
                    == ImageLayout::Undefined {
                    Some(b.new_layout)
                } else {
                    None
                },
                RecordStep::CopyPixels => if now == ImageLayout::TransferDestination {
                    Some(now)
                } else {
                    None
                },
                _ => if now == ImageLayout::ColorAttachment {
                    Some(now)
                } else {
                    None
                },
            },
        }
    }
}

/// Barrier before rendering.
pub open spec fn to_attachment() -> ImageBarrier {
    ImageBarrier {
        old_layout: ImageLayout::Undefined,
        new_layout: ImageLayout::ColorAttachment,
        src_access: Access::Nothing,
        dst_access: Access::ColorAttachmentWrite,
        src_stage: Stage::TopOfPipe,
        dst_stage: Stage::ColorAttachmentOutput,
    }
}

/// Barrier after rendering.
pub open spec fn to_present() -> ImageBarrier {
    ImageBarrier {
        old_layout: ImageLayout::ColorAttachment,
        new_layout: ImageLayout::PresentSource,
        src_access: Access::ColorAttachmentWrite,
        dst_access: Access::Nothing,
        src_stage: Stage::ColorAttachmentOutput,
        dst_stage: Stage::BottomOfPipe,
    }
}

/// Barrier before an upload.
pub open spec fn to_destination() -> ImageBarrier {
    ImageBarrier {
        old_layout: ImageLayout::Undefined,
        new_layout: ImageLayout::TransferDestination,
        src_access: Access::Nothing,
        dst_access: Access::TransferWrite,
        src_stage: Stage::TopOfPipe,
        dst_stage: Stage::Transfer,
    }
}

/// Barrier after an upload.
pub open spec fn to_shader() -> ImageBarrier {
    ImageBarrier {
        old_layout: ImageLayout::TransferDestination,
        new_layout: ImageLayout::ShaderReadOnly,
        src_access: Access::TransferWrite,
        dst_access: Access::ShaderRead,
        src_stage: Stage::Transfer,
        dst_stage: Stage::FragmentShader,
    }
}

/// The steps of a frame. Without `draw` the frame is only cleared.
pub open spec fn frame_steps(draw: bool) -> Seq<RecordStep> {
    if draw {
        seq![
            RecordStep::Barrier(to_attachment()),
            RecordStep::BeginRendering,
            RecordStep::Draw,
            RecordStep::EndRendering,
            RecordStep::Barrier(to_present()),
        ]
    } else {
        seq![
            RecordStep::Barrier(to_attachment()),
            RecordStep::BeginRendering,
            RecordStep::EndRendering,
            RecordStep::Barrier(to_present()),
        ]
    }
}

/// The steps of a texture upload.
pub open spec fn upload_steps() -> Seq<RecordStep> {
    seq![
        RecordStep::Barrier(to_destination()),
        RecordStep::CopyPixels,
        RecordStep::Barrier(to_shader()),
    ]
}

fn record_steps(draw: bool) -> (steps: Vec<RecordStep>)
    ensures
        steps@ == frame_steps(draw),
{
    let mut steps: Vec<RecordStep> = Vec::new();
    steps.push(
        RecordStep::Barrier(
            ImageBarrier {
                old_layout: ImageLayout::Undefined,
                new_layout: ImageLayout::ColorAttachment,
                src_access: Access::Nothing,
                dst_access: Access::ColorAttachmentWrite,
                src_stage: Stage::TopOfPipe,
                dst_stage: Stage::ColorAttachmentOutput,
            },
        ),
    );
    steps.push(RecordStep::BeginRendering);
    if draw {
        steps.push(RecordStep::Draw);
    }
    steps.push(RecordStep::EndRendering);
    steps.push(
        RecordStep::Barrier(
            ImageBarrier {
                old_layout: ImageLayout::ColorAttachment,
                new_layout: ImageLayout::PresentSource,
                src_access: Access::ColorAttachmentWrite,
                dst_access: Access::Nothing,
                src_stage: Stage::ColorAttachmentOutput,
                dst_stage: Stage::BottomOfPipe,
            },
        ),
    );
    assert(steps@ =~= frame_steps(draw));
    steps
}

/// The steps of a frame that is only cleared.
pub fn record_clear() -> (steps: Vec<RecordStep>)
    ensures
        steps@ == frame_steps(false),
{
    record_steps(false)
}

/// The steps of a frame that is drawn.
pub fn record_frame() -> (steps: Vec<RecordStep>)
    ensures
        steps@ == frame_steps(true),
{
    record_steps(true)
}

/// The steps of a texture upload.
pub fn upload_pixels() -> (steps: Vec<RecordStep>)
    ensures
        steps@ == upload_steps(),
{
    let mut steps: Vec<RecordStep> = Vec::new();
    steps.push(
        RecordStep::Barrier(
            ImageBarrier {
                old_layout: ImageLayout::Undefined,
                new_layout: ImageLayout::TransferDestination,
                src_access: Access::Nothing,
                dst_access: Access::TransferWrite,
                src_stage: Stage::TopOfPipe,
                dst_stage: Stage::Transfer,
            },
        ),
    );
    steps.push(RecordStep::CopyPixels);
    steps.push(
        RecordStep::Barrier(
            ImageBarrier {
                old_layout: ImageLayout::TransferDestination,
                new_layout: ImageLayout::ShaderReadOnly,
                src_access: Access::TransferWrite,
                dst_access: Access::ShaderRead,
                src_stage: Stage::Transfer,
                dst_stage: Stage::FragmentShader,
            },
        ),
    );
    assert(steps@ =~= upload_steps());
    steps
}

/// Whatever layout an image is in, a frame leaves it ready to be presented and
/// an upload leaves it ready to be sampled, and no step meets it in a layout it
/// cannot use.
pub proof fn law_steps_follow_layouts(layout: ImageLayout, draw: bool)
    ensures
        layout_after(frame_steps(draw), layout) == Some(ImageLayout::PresentSource),
        layout_after(upload_steps(), layout) == Some(ImageLayout::ShaderReadOnly),
{
    reveal_with_fuel(layout_after, 6);
    let f = frame_steps(draw);
    assert(f.drop_last().drop_last() =~= f.take(f.len() - 2));
    assert(f.drop_last().drop_last().drop_last() =~= f.take(f.len() - 3));
    assert(f.drop_last().drop_last().drop_last().drop_last() =~= f.take(f.len() - 4));
    let u = upload_steps();
    assert(u.drop_last().drop_last() =~= u.take(1));
    assert(u.drop_last().drop_last().drop_last() =~= u.take(0));
}

/// Frames take turns: after all frames in flight have had theirs, it is the
/// same frame's turn again, and not before.
pub proof fn law_frames_take_turns(a: FramesInFlight, b: FramesInFlight, c: FramesInFlight)
    requires
        a.wf(),
        b.current == (a.current + 1) % MAX_FRAMES_IN_FLIGHT as int,
        c.current == (b.current + 1) % MAX_FRAMES_IN_FLIGHT as int,
    ensures
        b.current != a.current,
        c.current == a.current,
{
}

/// Each side of a barrier goes with the layout on that side. Coming from an
/// undefined layout there is nothing to wait for, and going to the screen there is
/// nothing left to guard.
pub open spec fn sides_match(b: ImageBarrier) -> bool {
    &&& match b.old_layout {
        ImageLayout::Undefined => b.src_access is Nothing && b.src_stage is TopOfPipe,
        ImageLayout::ColorAttachment => b.src_access is ColorAttachmentWrite && b.src_stage
            is ColorAttachmentOutput,
        ImageLayout::TransferDestination => b.src_access is TransferWrite && b.src_stage
            is Transfer,
        _ => false,
    }
    &&& match b.new_layout {
        ImageLayout::ColorAttachment => b.dst_access is ColorAttachmentWrite && b.dst_stage
            is ColorAttachmentOutput,
        ImageLayout::TransferDestination => b.dst_access is TransferWrite && b.dst_stage
            is Transfer,
        ImageLayout::ShaderReadOnly => b.dst_access is ShaderRead && b.dst_stage is FragmentShader,
        ImageLayout::PresentSource => b.dst_access is Nothing && b.dst_stage is BottomOfPipe,
        _ => false,
    }
}

/// Every barrier waits for the writes of the layout that it leaves and guards
/// those of the layout that it leads to.
pub proof fn law_barriers_guard_their_layouts(draw: bool, i: int)
    ensures
        0 <= i < frame_steps(draw).len() ==> (frame_steps(draw)[i] matches RecordStep::Barrier(b)
            ==> sides_match(b)),
        0 <= i < upload_steps().len() ==> (upload_steps()[i] matches RecordStep::Barrier(b)
            ==> sides_match(b)),
{
}

/// A frame begins and ends rendering once, with the renderer's commands in
/// between where it draws at all. Where it does not, the image is still cleared.
pub proof fn law_frame_draws_between_begin_and_end(draw: bool)
    ensures
        ({
            let steps = frame_steps(draw);
            let end: int = if draw {
                3
            } else {
                2
            };
            &&& steps.len() == end + 2
            &&& steps[0] matches RecordStep::Barrier(b) && b.old_layout is Undefined
                && b.new_layout is ColorAttachment
            &&& steps[1] is BeginRendering
            &&& draw ==> steps[2] is Draw
            &&& steps[end] is EndRendering
            &&& steps[end + 1] matches RecordStep::Barrier(b) && b.old_layout is ColorAttachment
                && b.new_layout is PresentSource
        }),
{
}

/// An upload copies the pixels once, between its two barriers.
pub proof fn law_upload_copies_between_barriers()
    ensures
        upload_steps().len() == 3,
        upload_steps()[0] matches RecordStep::Barrier(b) && b.old_layout is Undefined
            && b.new_layout is TransferDestination,
        upload_steps()[1] is CopyPixels,
        upload_steps()[2] matches RecordStep::Barrier(b) && b.old_layout is TransferDestination
            && b.new_layout is ShaderReadOnly,
{
}

/// Two frames are in flight, and the driver's two answers about an unfit
/// swapchain have the numbers 1000001003 and -1000001004.
pub proof fn law_driver_numbers()
    ensures
        MAX_FRAMES_IN_FLIGHT == 2,
        SUBOPTIMAL == 1000001003,
        OUT_OF_DATE == -1000001004,
{
}

/// The two answers that a swapchain no longer fits mean the same to an image request
/// and to a present: it must be made anew. Any other success goes on, with the image
/// that was handed out, and any other error is handed on as it is.
pub proof fn law_unfit_swapchain_is_made_anew(index: u32, code: i32)
    ensures
        acquire_answer(Ok((index, code))) == Ok::<AcquireResult, i32>(
            if code == 1000001003 {
                AcquireResult::Recreate
            } else {
                AcquireResult::Acquired(index)
            },
        ),
        present_answer(Ok(code)) == Ok::<bool, i32>(code == 1000001003),
        code == -1000001004 ==> acquire_answer(Err(code)) == Ok::<AcquireResult, i32>(
            AcquireResult::Recreate,
        ),
        code == -1000001004 ==> present_answer(Err(code)) == Ok::<bool, i32>(true),
        code != -1000001004 ==> acquire_answer(Err(code)) == Err::<AcquireResult, i32>(code),
        code != -1000001004 ==> present_answer(Err(code)) == Err::<bool, i32>(code),
{
}

} // verus!
