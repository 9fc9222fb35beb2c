//! Sparse Ising models: energy, chromatic Gibbs sampling, annealing, replica
//! exchange, and Max-Cut as the optimization workload.

pub mod anneal;
pub mod balance;
pub mod chain;
pub mod chance;
pub mod energy;
pub mod exchange;
pub mod exec;
pub mod gibbs;
pub mod graphs;
pub mod ising;
pub mod maxcut;
pub mod reduction;
pub mod replay;
pub mod schedule;
pub mod solve;
pub mod tempering;
