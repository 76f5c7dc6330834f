//! Typed 3D scene and mesh model: connectivity analysis, scene-graph
//! navigation, and id bookkeeping with machine-checked contracts.
use vstd::prelude::*;

pub mod animation;
pub mod asset;
pub mod boundary;
pub mod combine;
pub mod components;
pub mod compose;
pub mod error;
pub mod graph;
pub mod ids;
pub mod material;
pub mod mesh;
pub mod optimize;
pub mod scene;
mod sort;
pub mod summary;
pub mod topology;
pub mod validate;
pub mod vertex_cache;
pub mod weld;

verus! {

} // verus!
