//! A scene-graph transform hierarchy: entities related by parent links carry
//! local rigid transforms (translation, rotation, scale); a resolver orders
//! the entities so that every parent precedes its children and reports cyclic
//! ancestry, and a propagator composes local matrices along parent chains
//! into world-space matrices, recomputing only what changed.
//!
//! Coordinates are exact signed 64-bit integers with saturating arithmetic:
//! the ordering and propagation logic is independent of the scalar's
//! granularity, and integer scalars make every matrix product exact.

pub mod entity;
pub mod graph;
pub mod laws;
pub mod math;
pub mod propagator;
pub mod resolver;
pub mod transform;
