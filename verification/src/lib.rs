//! Bookkeeping core of a two-dimensional soft-body simulation.
//!
//! Bodies are rectangular lattices of particles held together by springs. The
//! stores that hold them, the registry that lets a whole body be taken back
//! out, the spatial hash of the broad phase and the fixed-step clock are
//! verified here. The arithmetic on positions and velocities is not part of
//! this crate: the world is generic in the vector type, and the driver takes
//! the numeric kernels as closures and states what it does in terms of what
//! they return.
//!
//! - [`spring`] and [`boundary`]: the wiring and the outline of a lattice.
//! - [`object`]: the index ranges of one body.
//! - [`world`]: the stores, the registry, the edges and the clock.
//! - [`snapshot`]: a world made of parts that were kept elsewhere.
//! - [`hash`]: the spatial hash.
//! - [`rules`], [`step`] and [`determinism`]: what a sub-step does, the driver
//!   that does it, and the proof that it leaves one result only.
//! - [`log`] and [`color`]: small types of the user interface.

pub mod boundary;
pub mod color;
pub mod determinism;
pub mod hash;
pub mod log;
pub mod object;
pub mod rules;
pub mod snapshot;
pub mod spring;
pub mod step;
pub mod world;
