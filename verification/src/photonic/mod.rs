//! Photonic circuits: universal interferometer meshes, optical products and
//! scattering networks.

pub mod acting;
pub mod clements;
pub mod network;
pub mod mvm;
pub mod components;
pub mod detection;
pub mod gram_schmidt;
pub mod haar;
pub mod lossless;
pub mod nulling;
pub mod propagation;
pub mod rebuild;
pub mod solving;
pub mod star;
pub mod waves;
pub mod run;
