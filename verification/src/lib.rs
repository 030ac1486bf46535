//! Planning and frame-synchronization engine for a split-screen video
//! compositor: a time codec for checkpoint timestamps, a tile layout
//! planner, a split aligner that produces a frame-indexed render plan,
//! and a compositor that merges per-tile frame streams in lockstep.

pub mod compose;
pub mod config;
pub mod frame;
pub mod layout;
pub mod overlay;
pub mod plan;
pub mod time_codec;
