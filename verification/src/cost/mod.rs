//! The cost surface: what each substrate charges for a primitive, and which of
//! them gets it.

pub mod catalog;
pub mod dialects;
pub mod dispatch;
pub mod presets;
pub mod pricing;
pub mod scaling;
