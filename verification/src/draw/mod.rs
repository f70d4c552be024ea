//! Drawable primitives.

pub mod animation;
pub mod vertex;

pub use self::animation::{AnimationState, FrameStrip, LoopMode};
pub use self::vertex::Vertex2D;
