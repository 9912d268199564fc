//! Pixel-buffer and frame-scheduling core of an interactive ray tracer.
//!
//! The library holds what the tracer decides with integers: packed RGBA
//! colors, the framebuffer and its drawing operations, the passes that turn
//! traced sample colors into pixels (full, block-upscaled, adaptive with
//! temporal blending, progressive chunks), the scheduler that picks a pass per
//! frame, and the integer hash behind procedural sky noise. Tracing the rays
//! themselves is floating-point work left to the caller, which hands in one
//! color per sample point.

pub mod color;
pub mod framebuffer;
pub mod noise;
pub mod passes;
pub mod progressive;
pub mod scheduler;
