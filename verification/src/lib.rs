//! The core of a thermodynamic compute fabric.
//!
//! Work is routed to the substrate that spends the least energy on it
//! ([`cost`]), and every substrate has a functional simulator: Gaussian optics
//! ([`gaussian`]), photonic meshes ([`photonic`]), spiking networks
//! ([`spiking`]), Ising samplers ([`stochastic`]) and electromagnetic fields
//! ([`field`]). [`forge`] drives the build of firmware for the boards that the
//! fabric runs on.
//!
//! Numbers are abstract: a simulator is generic over a [`scalar::Scalar`] and
//! its contract says which operations are made on which samples, in which
//! order. Elementary functions and random draws are handed in as functions,
//! and contracts speak of what those return. Laws that rounding would break are
//! stated for scalars that compute exactly ([`exact`]).
//!
//! Long runs report what they have done to a [`progress::Listener`], and
//! contracts say which reports it hears.

pub mod complex;
pub mod cost;
pub mod exact;
pub mod field;
pub mod forge;
pub mod gaussian;
pub mod matrix;
pub mod numerals;
pub mod parallel;
pub mod photonic;
pub mod progress;
pub mod scalar;
pub mod sorting;
pub mod sparse;
pub mod spiking;
pub mod stochastic;
pub mod text;
