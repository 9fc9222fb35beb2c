//! Electromagnetic field solvers on Yee grids.

pub mod absorption;
pub mod clock;
pub mod cpml;
pub mod device;
pub mod dispersion;
pub mod eps;
pub mod extraction;
pub mod gpu;
pub mod grid;
pub mod grid3;
pub mod guidance;
pub mod job;
pub mod lattice;
pub mod maxwell;
pub mod medium3;
pub mod mode;
pub mod monitor;
pub mod replay;
pub mod replay3;
pub mod run;
pub mod run3;
pub mod setup;
pub mod signals;
pub mod source;
pub mod sparams;
pub mod ticks;
pub mod whole;
