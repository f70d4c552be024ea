//! Decisions of the Vulkan layer, on plain values.
//!
//! Handles and calls stay with the application. What it asks the driver for
//! comes in as plain values, enumerations as their raw numbers, and what it
//! shall do goes out the same way.

pub mod buffer;
pub mod device;
pub mod frame;
pub mod instance;
pub mod memory;
pub mod swapchain;
pub mod texture;
pub mod version;

pub use self::frame::FramesInFlight;
pub use self::texture::Texture;
