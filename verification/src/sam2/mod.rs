//! Promptable image and video segmentation.
pub mod config;
pub mod hiera;
pub mod image_encoder;
pub mod memory;
pub mod sam_heads;
pub mod util;
pub mod video_predictor;
