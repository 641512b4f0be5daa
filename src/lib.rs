//! Evolutionary dynamics of a fixed-size population on a toroidal genotype
//! grid, under a genotype-phenotype map and a switching environment.

pub mod envfile;
pub mod environment;
pub mod evolve;
pub mod fitness;
pub mod gpm;
pub mod grid;
pub mod pop;
pub mod rng;
pub mod text;
