//! Verified core of a manim-style animation renderer: timeline liveness,
//! track indexing, path and stroke topology, frame-range planning, buffer
//! layout, cache keys and the small text formats the renderer writes.

pub mod buffers;
pub mod cache;
pub mod encode;
pub mod format;
pub mod frames;
pub mod ir;
pub mod passes;
pub mod path;
pub mod stroke;
pub mod tex;
pub mod text;
pub mod timeline;
pub mod tracks;
