//! The model files: where they come from, and how far their download is.
pub mod progress;
pub mod resolve;
