//! Verified core of a soft-body driving sandbox.
//!
//! The simulation itself integrates `f32` node/beam physics; this crate holds
//! the discrete logic around it, each piece with its contract: camera-mode
//! selection, the gearbox state machine, the beam store and lattice topology,
//! the car chassis layout, the terrain mesh connectivity, and the layout of the
//! buffers shared with the renderer.

pub mod camera;
pub mod car;
pub mod collision;
pub mod descriptor;
pub mod drivetrain;
pub mod fleet;
pub mod lattice;
pub mod lines;
pub mod mounts;
pub mod layout;
pub mod scene;
pub mod structure;
