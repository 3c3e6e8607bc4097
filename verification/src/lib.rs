//! Immediate-mode UI declaration layer with a retained reconciliation core.
//!
//! Callers re-declare their whole UI tree every frame as plain value objects.
//! The core resolves anchor-based layout into absolute normalized boxes,
//! assigns stable cross-frame identity keys, performs depth-ordered pointer
//! hit-testing with single-claim capture, and decides per item whether the
//! host's visual proxy must be rebuilt or merely repositioned.
//!
//! All coordinates are fixed-point integers: `fixed::UV_ONE` represents 1.0
//! in normalized viewport space. Rendering, windowing and input polling are
//! the host's business; the core consumes and produces plain values only.

pub mod fixed;
pub mod geom;
pub mod units;
pub mod keys;
pub mod item;
pub mod state;
pub mod statemap;
pub mod engine;
pub mod frame;
pub mod laws;
