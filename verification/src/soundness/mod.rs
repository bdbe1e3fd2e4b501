//! What is proved of the cascade and of the deduction passes.

pub mod boundary;
pub mod cascade;
pub mod effects;
pub mod fixed_point;
pub mod lines;
pub mod model;
pub mod pairs;
pub mod progress;
pub mod solving;
pub mod steps;
pub mod techniques;
pub mod triples;
pub mod wings;
pub mod witness;
