//! A room-based cake collection game whose outcome can be re-derived from
//! its operation log alone.
//!
//! The room state machine (`room`) processes moves and timer ticks and keeps
//! an append-only log of operations; the replay verifier (`replay`) recomputes
//! the final ranking from that log; `ranking` holds the ordering rule both use.
pub mod types;
pub mod ranking;
pub mod replay;
pub mod prng;
pub mod model;
pub mod room;
pub mod laws;
