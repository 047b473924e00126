//! Turning a raw transcript into readable text with a language model.
pub mod create;
pub mod generate;
pub mod prompt;
pub mod session;
pub mod split;
