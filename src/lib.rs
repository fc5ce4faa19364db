//! Procedural golf-course terrain: a seeded heightfield with a fairway
//! centerline, bunkers, zones and props, streamed in square chunks around
//! moving observers.
//!
//! All lengths and heights are integers in millimetres.

pub mod arith;
pub mod coord;
pub mod noise;
pub mod course;
pub mod hazard;
mod rng;
pub mod generator;
pub mod chunk;
pub mod manager;
pub mod loader;
pub mod scheduler;
