//! Core of a tick-based multi-agent grid simulation ("snake" style):
//! the tile model, the agent state machine, the binary wire codec for
//! snapshots and command packets, the remote-channel decision core, and
//! the simulation engine that advances the grid one tick at a time.
//!
//! Everything here is plain data and logic; reading keyboards, drawing,
//! and the byte-stream endpoints themselves live with the host program,
//! which feeds this library plain values.

pub mod channel;
pub mod object;
pub mod snake;
pub mod snakegrid;
pub mod wire;
