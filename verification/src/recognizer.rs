//! From a recording to its transcript.
pub mod load;
pub mod ready;
pub mod run;
pub mod segments;
