//! The renderer in use, the sorter and the registered animations.

use vstd::prelude::*;

use crate::draw::animation::FrameStrip;
use crate::render::big_buffer::BigBufferRenderer;
use crate::render::renderers::{BatchRenderer, RendererKind, SimpleRenderer};
use crate::render::sort::IsometricRectangleSorter;

verus! {

/// One of the renderers.
pub enum Renderer {
    Simple(SimpleRenderer),
    Batch(BatchRenderer),
    BigBuffer(BigBufferRenderer),
}

impl Renderer {
    /// The kind of the renderer.
    pub open spec fn of_kind(&self) -> RendererKind {
        match self {
            Renderer::Simple(_) => RendererKind::Simple,
            Renderer::Batch(_) => RendererKind::Batch,
            Renderer::BigBuffer(_) => RendererKind::BigBuffer,
        }
    }

    /// The renderer has the memory that it needs.
    pub open spec fn ready(&self) -> bool {
        match self {
            Renderer::BigBuffer(r) => r.allocated(),
            _ => true,
        }
    }

    pub fn kind(&self) -> (kind: RendererKind)
        ensures
            kind == self.of_kind(),
    {
        match self {
            Renderer::Simple(r) => r.kind(),
            Renderer::Batch(r) => r.kind(),
            Renderer::BigBuffer(r) => r.kind(),
        }
    }
}

/// A renderer of the given kind, with the memory that it needs.
pub fn make_renderer(kind: RendererKind) -> (renderer: Renderer)
    ensures
        renderer.of_kind() == kind,
        renderer.ready(),
        renderer matches Renderer::BigBuffer(r) ==> r.frame_count == 0,
{
    match kind {
        RendererKind::Simple => Renderer::Simple(SimpleRenderer::new()),
        RendererKind::Batch => Renderer::Batch(BatchRenderer::new()),
        RendererKind::BigBuffer => {
            let mut renderer: BigBufferRenderer = BigBufferRenderer::new();
            renderer.allocate_pools();
            Renderer::BigBuffer(renderer)
        },
    }
}

/// Owner of the renderer, the sorter and the animations.
pub struct RenderCore {
    pub renderer: Renderer,
    pub sorter: IsometricRectangleSorter,
    pub frame_strips: Vec<FrameStrip>,
}

impl RenderCore {
    pub fn new(kind: RendererKind) -> (core: Self)
        ensures
            core.renderer.of_kind() == kind,
            core.renderer.ready(),
            core.renderer matches Renderer::BigBuffer(r) ==> r.frame_count == 0,
            core.sorter.keeps_nothing(),
            core.frame_strips@.len() == 0,
    {
        RenderCore {
            renderer: make_renderer(kind),
            sorter: IsometricRectangleSorter::new(),
            frame_strips: Vec::new(),
        }
    }

    /// Registers an animation; sprites refer to it by the returned id.
    pub fn register_strip(&mut self, strip: FrameStrip) -> (id: u16)
        requires
            old(self).frame_strips@.len() <= u16::MAX,
        ensures
            id == old(self).frame_strips@.len(),
            final(self).frame_strips@ == old(self).frame_strips@.push(strip),
            final(self).renderer == old(self).renderer,
            final(self).sorter == old(self).sorter,
    {
        let id: u16 = self.frame_strips.len() as u16;
        self.frame_strips.push(strip);
        id
    }
}

/// The kind of a renderer is its own, and only the streaming one needs memory first:
/// a slot for each of the two frames in flight, each with two pairs.
pub proof fn law_renderer_is_of_its_kind(renderer: Renderer)
    ensures
        renderer is Simple <==> renderer.of_kind() == RendererKind::Simple,
        renderer is Batch <==> renderer.of_kind() == RendererKind::Batch,
        renderer is BigBuffer <==> renderer.of_kind() == RendererKind::BigBuffer,
        !(renderer is BigBuffer) ==> renderer.ready(),
        renderer matches Renderer::BigBuffer(r) ==> (renderer.ready() <==> r.slots@.len() == 2
            && r.slots@[0].pairs@.len() == 2 && r.slots@[1].pairs@.len() == 2),
{
}

} // verus!
