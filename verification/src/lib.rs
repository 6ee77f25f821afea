//! Core of a small game engine: an A* solver over navigation graphs, keyframe
//! animation playback, scene description and the pass plans of a deferred
//! renderer, all over integer lattice coordinates and integer time.

pub mod animation;
pub mod astar;
pub mod deferred;
pub mod error;
pub mod geometry;
pub mod json;
pub mod navmesh;
pub mod open_set;
pub mod scene;
pub mod text;
