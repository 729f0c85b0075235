//! The integer core of a tile-parallel ray tracer: which image sizes it takes,
//! how an image is cut into tiles for the worker pool, and the 8-bit
//! framebuffer that the rendered tiles are put together in.

pub mod bits;
pub mod dimensions;
pub mod framebuffer;
pub mod pixel_buffer;
pub mod tiles;
