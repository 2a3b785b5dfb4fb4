//! A minimal software rasterizer: an in-memory RGBA framebuffer with
//! primitive drawing operations (pixel, line, rectangle, filled triangle)
//! and conversion to a packed 32-bit pixel array for a display surface.

pub mod color;
pub mod framebuffer;
pub mod raster;
