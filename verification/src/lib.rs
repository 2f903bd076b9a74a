//! Coevolution of a host and a parasite population of fixed-length binary
//! genotypes, under a genotype-to-phenotype map and a phenotype-mediated
//! fitness interaction.
//!
//! Every real-valued quantity (fitness, probability, fraction) is carried as
//! an exact fixed-point integer: a `u64` counting multiples of
//! `1 / config::UNIT`. All arithmetic on them is integer arithmetic, so the
//! contracts below are stated over mathematical integers and sequences.

pub mod config;
pub mod config_text;
pub mod environment;
pub mod fitness;
pub mod ga;
pub mod genotype;
mod random;
pub mod text;
pub mod world;
