//! Verified core of a temporal multi-brain signal model: reading weights and
//! feature snapshots, buffering sequences, writing the model's forward passes
//! as programs of tensor operations, turning model outputs into predictions,
//! and preparing and scheduling training data.
//!
//! Floating-point values travel through the library as their IEEE 754 bit
//! patterns: `u32` for single and `u64` for double precision.

pub mod agreement;
pub mod archive;
pub mod attending;
pub mod bytes;
pub mod cli;
pub mod config;
pub mod dataset;
pub mod engine;
pub mod evaluation;
pub mod forward;
pub mod graph;
pub mod history;
pub mod ieee;
pub mod inference;
pub mod inference_values;
pub mod layer_laws;
pub mod mixing;
pub mod model;
pub mod normalization;
pub mod pass_laws;
pub mod predict;
pub mod query;
pub mod reals;
pub mod reordering;
pub mod ring;
pub mod rounding;
pub mod rows;
pub mod sequence;
pub mod shapes;
pub mod sizes;
pub mod snapshot;
pub mod split;
pub mod stats;
pub mod swarm_laws;
pub mod tensor;
pub mod text;
pub mod training;
pub mod training_laws;
pub mod training_pass;
pub mod training_pass_laws;
pub mod training_shapes;
pub mod training_values;
pub mod weights;
