//! Ant-colony optimisation for protein folding in the two-dimensional
//! hydrophobic-polar lattice model.
//!
//! A candidate folding (a [`conformation::Conformation`]) is a self-avoiding
//! walk on the square lattice, grown one relative move at a time.  A colony of
//! ants builds conformations stochastically, guided by a
//! [`pheromones::Pheromones`] matrix that is reinforced by every generation,
//! and each finished walk is refined by local search.

pub mod aco;
pub mod conformation;
pub mod config;
pub mod pheromones;
pub mod protein;
mod sampling;
