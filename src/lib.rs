//! A stochastic cellular-automaton engine: typed particles on a square lattice
//! that relabel their neighbours and drift towards the places their type likes.

pub mod engine;
pub mod lattice;
mod random;
mod text;


pub use engine::{ParticleGrid, UpdateError};
