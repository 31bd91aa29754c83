//! Text-to-image generation.
pub mod generation;
pub mod load;
pub mod loader;
pub mod model;
pub mod model_control;
pub mod model_edit;
pub mod pipeline;
pub mod request;
pub mod run;
pub mod sampler;
pub mod transformer;
