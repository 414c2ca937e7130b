//! Skeletal animation core: skeleton construction, animation binding,
//! per-frame bone transform resolution and fixed-step playback.
//!
//! Floating-point payloads (matrices, keyframe values, timestamps) are carried
//! as raw IEEE-754 bit patterns (`u32`); the library decides which of them
//! compose into each skinning slot and leaves the arithmetic to the renderer.

pub mod binder;
pub mod hierarchy;
pub mod laws;
pub mod model;
pub mod player;
pub mod resolver;
pub mod skeleton;
