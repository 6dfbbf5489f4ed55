//! One church, two machines, one transcription.
//!
//! Pulpitry at the operator's desk listens and stages; Castavox on the
//! streaming machine shows what was staged. [`discovery`] finds the desk on the
//! network, [`pairing`] decides whether it should be listened to, and [`link`]
//! keeps the two in step.

pub mod discovery;
pub mod link;
pub mod pairing;

pub use discovery::{Discovery, Peer, SERVICE_TYPE};
pub use link::{Desk, Event, Line, Screen, Secret, Shown};
pub use pairing::{Answer, Challenge, Doorkeeper, Pairing, Verdict};
