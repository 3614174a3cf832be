//! Structural core of a progressive sphere ray tracer: convolution kernels,
//! per-pixel sample accumulation, RGBA packing, camera raster offsets, the
//! bounded-depth tracing recursion and the frame-by-frame render loop.
pub mod config;
pub mod kernel;
pub mod samples;
pub mod pixels;
pub mod camera;
pub mod progress;
pub mod tracer;
pub mod scene;
