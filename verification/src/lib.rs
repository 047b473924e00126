//! The logic of a voice input tool: hold a key, talk, release it, and what was said is
//! recognised, refined by a language model, and typed where the cursor stands.
//!
//! Devices, models, windows and threads are outside of this library. Its parts decide what
//! is to be done with them, and are told what came of it.
pub mod app;
pub mod args;
pub mod audio;
pub mod hotkey;
pub mod hub;
pub mod pipeline;
pub mod recognizer;
pub mod recorder;
pub mod refiner;
pub mod text;
pub mod tray;
