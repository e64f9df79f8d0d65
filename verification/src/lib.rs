//! The core of a 2D rigid-body physics engine, with proofs: the object pool,
//! the balanced bounding-volume tree of the broad phase, the body arena, the
//! per-pair constraint maps and the step of the simulation.
//!
//! Coordinates are integers on a fixed-point grid chosen by the caller. The
//! numeric work of a step (shapes, contacts, impulses) is the caller's: the
//! world asks it of a [`world::Dynamics`], which works on the state that the
//! caller keeps with each body and on the lists that it keeps with each
//! pair. What a step makes of a world depends on the world and on the
//! [`world::Dynamics`] alone: see [`determinism`].

pub mod body;
pub mod bounds_tree;
pub mod broad_phase;
pub mod constraints;
pub mod determinism;
pub mod math;
pub mod pool;
pub mod query;
pub mod step;
pub mod world;
