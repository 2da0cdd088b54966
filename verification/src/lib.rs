//! A physics-object lifecycle bridge: keeps a rigid-body simulation's bodies
//! and collision shapes consistent with a dynamic scene of entities that are
//! created and destroyed over time, under a fixed-step simulation clock.
//!
//! The crate has three layers, leaf first:
//!
//! * [`engine`]: a deterministic engine handle owning one simulation world,
//!   its bodies and its collision shapes, with fixed-point integer state.
//!   It enforces the engine's ownership rules: shapes are destroyed before
//!   their body, bodies before the world, and destroyed handles are never
//!   touched again.
//! * [`bridge`]: maps scene entities (slot + generation identifiers) to the
//!   physics bodies they own, creating, attaching and tearing down physics
//!   resources as entities come and go, and reading poses back each tick.
//! * [`driver`]: accumulates wall-clock time and decides how many fixed-size
//!   physics steps to run on each scheduler tick.
//!
//! All lengths and positions are fixed-point integers in micro-units
//! (one millionth of a world unit); times are in microseconds.

pub mod bridge;
pub mod driver;
pub mod engine;
pub mod math;
