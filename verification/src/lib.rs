//! Post-quantum additively homomorphic Module-LWE encryption for verifiable voting.

pub mod arith;
pub mod algebra;
pub mod linear;
pub mod ring;
pub mod params;
pub mod rng;
pub mod sample;
pub mod poly;
pub mod matrix;
pub mod noise;
pub mod keygen;
pub mod encrypt;
pub mod decrypt;
pub mod threshold;
pub mod threshold_error;
pub mod bytes;
pub mod challenge;
pub mod disjunctive;
pub mod ballot;
pub mod laws;
pub mod protocol;
pub mod wasm;
pub mod text;
pub mod checked;
