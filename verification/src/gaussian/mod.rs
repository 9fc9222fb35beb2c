//! Gaussian states of light: means and covariances under symplectic maps.
//!
//! Quadratures are interleaved: mode `k` owns indices `2k` and `2k+1`. Units
//! are those in which the vacuum covariance is the identity.

pub mod state;
pub mod diagonal;
pub mod exec;
pub mod fidelity;
pub mod jacobi;
pub mod likeness;
pub mod measure;
pub mod moments;
pub mod shots;
pub mod symplectic;
pub mod williamson;
