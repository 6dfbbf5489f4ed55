//! Transcription on this machine, needing no account, no key and no network
//! once its model is here.
//!
//! Which models there are and which one suits a machine is in [`models`], what
//! is made of what a model writes is in [`speech`], and when a stretch of audio
//! is handed to it is in [`session`].

pub mod models;
pub mod session;
pub mod speech;

pub use models::{
    catalogue, describe, larger_than, likely_keeps_up, model_path, recommended, smaller_than,
    ModelInfo,
};
pub use session::{interim_pace, Session, Sustained};
pub use speech::{clean, decode_language};
