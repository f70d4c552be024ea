//! Verified core of a 2D isometric sprite engine.

pub mod demo;
pub mod draw;
pub mod engine;
pub mod gfx;
pub mod render;

pub use crate::draw::vertex::Vertex2D;
pub use crate::engine::{Engine, EngineConfig};
pub use crate::gfx::texture::Texture;
pub use crate::render::iso;
pub use crate::render::renderers::RendererKind;
pub use crate::render::sort::{IsoBounds, IsoSortable, IsometricRectangleSorter};
pub use crate::render::sprite::{Sprite, SpriteMesh};
