//! The verified core of a distributed stochastic ray tracer.
//!
//! A scene of primitives is rendered by tracing paths of rays through it. One
//! frame may be cut into divisions of whole rows, each rendered by a worker
//! of its own; a coordinator hands the divisions out, collects the slices
//! that come back, and puts them together to the frame.
//!
//! What is proved here works on integers, bytes and sequences: the bounding
//! volume hierarchy (`grid`, `aabb`, `bvh`), the choice among hits (`hit`), the walk
//! along a path (`integrator`), the geometry of frames and the bookkeeping of
//! the tiled renderer (`frame`, `tile`, `worker`), and the coordinator with
//! its jobs and slices (`slices`, `job`, `coordinator`, `id`, `encode`,
//! `text`). Coordinates and distances are handed in as integers that keep
//! their order; rays, colors and materials stay with the caller.

pub mod aabb;
pub mod bvh;
pub mod coordinator;
pub mod encode;
pub mod frame;
pub mod grid;
pub mod hit;
pub mod id;
pub mod integrator;
pub mod job;
pub mod material;
pub mod slices;
pub mod text;
pub mod tile;
pub mod worker;
