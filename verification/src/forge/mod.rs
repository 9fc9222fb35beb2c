//! The app build service.
//!
//! A user edits an `app()` body; the service validates it, splices it into a
//! vetted skeleton whose manifest the user can never touch, compiles it under
//! a sandbox with no network and a wall timeout, and packages a flashable
//! artifact.
//!
//! Compiling untrusted code on a host is dangerous at build time (build
//! scripts, procedural macros and constant evaluation run on the host). Three
//! layers stand against that:
//!
//! 1. Fixed dependencies: only `src/app.rs` is written into a copy of the
//!    skeleton ([`pipeline`]).
//! 2. A token denylist ([`validate`]).
//! 3. A sandbox with network denied and writes confined ([`sandbox`]).

pub mod order;
pub mod pipeline;
pub mod hash;
pub mod sandbox;
pub mod skeleton;
pub mod targets;
pub mod validate;
