//! Turning sprites into draw calls.

pub mod big_buffer;
pub mod buffer_pair;
pub mod iso;
pub mod render_core;
pub mod renderer_laws;
pub mod renderers;
pub mod sort;
pub mod sprite;
pub mod sprite_pipeline;

pub use self::big_buffer::BigBufferRenderer;
pub use self::render_core::RenderCore;
pub use self::renderers::{BatchRenderer, RendererKind, SimpleRenderer};
pub use self::sprite::{Sprite, SpriteMesh};
