//! Keystroke dynamics: a bounded log of key events, the latency samples of
//! each digraph in it, the choice of what is compared when a sample of
//! typing is held against an enrolled profile, and the framing of a
//! persisted profile.
//!
//! The moments of a digraph's timing, and the diffs computed from them, are
//! real numbers. This crate never computes with them. It says which
//! latencies a moment is worked out from, which moments are compared and in
//! what order, and which stretches of a log a baseline rests on; the
//! arithmetic is the caller's, in whatever number type the caller has.

pub mod clock;
pub mod codec;
pub mod diff;
pub mod digraph;
pub mod events;
pub mod json;
pub mod persist;
pub mod profile;
pub mod statistics;
pub mod table;
pub mod text;

pub use diff::{Calibration, DiffTerm, KeynomeAuthenticator, KeynomeAuthenticatorDiffParams};
pub use digraph::Digraph;
pub use events::{KeyEvent, KeystrokeLogger};
pub use persist::ParseError;
pub use profile::UserProfile;
pub use statistics::DigraphStats;
pub use table::DigraphMap;
