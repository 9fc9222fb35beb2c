//! Spiking neural networks: populations of leaky integrate-and-fire neurons
//! with sparse, delayed, current-based synapses.

pub mod job;
pub mod learning;
pub mod lif;
pub mod membrane;
pub mod network;
pub mod replay;
pub mod report;
pub mod run;
pub mod stats;
pub mod stdp;
