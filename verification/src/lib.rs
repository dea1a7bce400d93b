//! A small 2D driving simulation, verified.
//!
//! The library holds the whole per-frame logic of the demo: steering and
//! motion of the single car, deterministic obstacle layout generation,
//! camera-follow screen offsets, distance-based collision reset, and the
//! elapsed-time HUD line. All state is kept in fixed-point integers so that
//! every step of the arithmetic is exact and provable; a rendering host
//! converts to its own floating-point types at the edge.

pub mod car;
pub mod fixed;
pub mod hud;
pub mod obstacles;
