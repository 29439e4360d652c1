//! Ising models on periodic grids: lattice geometry, spin configurations and
//! the model file format.

pub mod bits;
pub mod rng;
pub mod lattice;
pub mod ising;
pub mod text;
pub mod config_hex;
pub mod ising_file;
pub mod ground_state_file;
pub mod ising_file_gen;
pub mod dist_spec;
