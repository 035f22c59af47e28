//! Decision and bookkeeping core of a rigid-body physics pipeline.
//!
//! Floating-point geometry stays with the embedding host; this crate holds
//! the parts of each tick that decide and organise: which bodies may touch,
//! how contact points persist, in which order impacts are resolved.
pub mod aabb;
pub mod arena;
pub mod advance;
pub mod broadphase;
pub mod collector;
pub mod config;
pub mod hull;
pub mod manifold;
pub mod narrowphase;
pub mod ordinal;
pub mod pair;
pub mod sort;
