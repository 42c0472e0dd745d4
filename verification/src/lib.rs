//! Device-resource lifecycle runtime for a GPU renderer.
//!
//! The crate owns GPU memory accounting, tracks every buffer, image and
//! sampler it hands out, and decides when reclaiming them is safe, given that
//! the device consumes submitted work asynchronously.  Work is tagged with
//! per-queue, monotonically increasing epochs; memory is released only once
//! the completed epoch of every queue that referenced a resource has passed
//! the resource's last use.

pub mod error;
pub mod factory;
pub mod fence;
pub mod heap;
pub mod queue;
pub mod resource;
pub mod svec;
pub mod upload;
