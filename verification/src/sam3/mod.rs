//! Concept segmentation and multi-object tracking over video.
pub mod association;
pub mod config;
pub mod detr;
pub mod geometry;
pub mod hotstart;
pub mod masks;
pub mod memory;
pub mod occlusion;
pub mod quantization;
pub mod tracker;
pub mod video;
pub mod vision;
