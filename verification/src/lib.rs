//! A one-dimensional spring-mass-damper layout kernel.
//!
//! Point masses ("nodes") live on integer layers. Nodes of one layer repel
//! each other at short range, sibling nodes are tied by horizontal springs,
//! a child node is tied to the midpoint of its parent edge by a vertical
//! spring, and links of one layer push each other apart to avoid overlap.
//! A classic fourth-order Runge-Kutta integrator advances the whole system,
//! running four force passes per reported step.
//!
//! All quantities are fixed-point numbers: an `i64` holding `SCALE` counts
//! per unit of length or time. Every state-changing operation has an exact
//! contract over this integer model.

pub mod num;
pub mod model;
pub mod engine;
pub mod laws;
