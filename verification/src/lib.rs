//! Verified core of a tiled path tracer.
//!
//! The renderer partitions the output image into fixed-size tiles, hands the
//! tiles to a bounded pool of workers, and assembles the finished tiles into a
//! packed RGB framebuffer.  This crate holds the parts of that pipeline whose
//! behaviour is stated and proved: the tile scheduler, the framebuffer
//! assembly, the per-depth indirect-sample budget of the integrator, and the
//! worker-dispatch bookkeeping.  The floating-point shading math itself lives
//! outside the verified core.

pub mod dispatch;
pub mod image_types;
pub mod raster;
pub mod sampling;
