//! What Castavox and Pulpitry both need.
//!
//! The two products present differently, one as a broadcast studio and the other
//! as a presentation app for a projector, but underneath they do several
//! identical things: capture a microphone, transcribe on the machine, keep a
//! transcript, turn a summary into a document a church can send on, hear what
//! an operator asks for, and keep a second screen in step.
//!
//! Nothing here has an opinion about its host. Whatever touches the machine (a
//! file, a socket, a sound card, a database) hands plain values in and takes
//! plain values back. What is decided in between is proved: every function
//! states what it returns, and the promises that span several of them stand as
//! proof functions whose names begin with `law_`.

pub mod assistant;
pub mod audio;
pub mod bytes;
pub mod canon;
pub mod checkin;
pub mod commands;
pub mod digest;
pub mod embed;
pub mod exports;
pub mod feedback;
pub mod hosted;
pub mod instructions;
pub mod json;
pub mod languages;
pub mod library;
pub mod made;
pub mod mirror;
pub mod node;
pub mod numbers;
pub mod order;
pub mod packs;
pub mod proxy;
pub mod random;
pub mod text;
pub mod transcripts;
pub mod update;
pub mod whisper;
