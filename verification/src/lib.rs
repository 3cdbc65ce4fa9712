//! A feature cache and similarity ranking engine over point sets.
pub mod engine;
pub mod error;
pub mod features;
pub mod image_generator;
pub mod ieee;
pub mod ranking;
pub mod laws;
pub mod number_laws;
