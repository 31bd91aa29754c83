//! Verified decision logic of an image-generation and video-segmentation stack.
pub mod binary32;
pub mod collect;
pub mod layout;
pub mod qwen;
pub mod sam2;
pub mod text;
pub mod sam3;
