//! Structural side of the spectral-gap experiment: grid-world and chain MDPs,
//! their state graphs, and the combinatorial graph Laplacian `L = D - A`,
//! with the Laplacian's properties proved.

pub mod matrix;
pub mod sums;
pub mod mdp;
pub mod laplacian;
pub mod comparison;
