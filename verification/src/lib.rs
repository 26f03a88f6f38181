//! Verified core of a line-oriented stream plumbing toolkit.
//!
//! Three independent subsystems share only the notion of a *line*: a byte
//! sequence free of newline bytes, terminated by one newline byte when
//! stored or forwarded.
//!
//! - `seglog` and `segfile`: a segmented append-only log — the in-memory
//!   model with its round-trip and resumability laws, and the naming,
//!   chain-checking and positioning rules for its on-disk segments.
//! - `bridge`: line-quota planning for a supervised child process.
//! - `hub`: the broadcast replay history.
//! - `pending`, `http` and `json`: request/response correlation for the
//!   HTTP bridge, and the JSON line frames it emits.
//!
//! Unverified I/O shells drive these cores; every decision the shells take
//! (rotation, naming, positioning, quota, replay, correlation, framing) is
//! computed here under contract.

pub mod bridge;
pub mod http;
pub mod hub;
pub mod json;
pub mod pending;
pub mod segfile;
pub mod seglog;
