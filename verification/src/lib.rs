//! Tiled rendering buffers for a Monte-Carlo path tracer.
//!
//! The library owns the discrete side of the renderer: partitioning an image
//! into fixed-size tiles, addressing pixels inside interleaved RGB byte
//! buffers, compositing finished tiles into a full image with the vertical
//! flip that the output convention asks for, and looking up texels of an
//! equirectangular environment map. The floating-point shading that fills the
//! tiles lives with the caller.

pub mod renderer;
pub mod scene;
