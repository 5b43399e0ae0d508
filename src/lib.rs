//! Membership state, share names, framing and control-plane decisions of a
//! peer-to-peer LAN directory-sharing daemon.
//!
//! - [`shares`]: share names and their text form.
//! - [`model`]: the membership graph as mathematics, its invariants and laws.
//! - [`state`]: the single-writer membership state.
//! - [`dto`]: snapshots of the state.
//! - [`framing`] and [`noise`]: length-prefixed frames and the Noise
//!   transport's state machines.
//! - [`messages`], [`command`] and [`control`]: the control protocol and the
//!   daemon's decisions.
//! - [`order`] and [`table`]: orders and sequence views used by the above.

pub mod command;
pub mod control;
pub mod dto;
pub mod framing;
pub mod messages;
pub mod model;
pub mod noise;
pub mod order;
pub mod shares;
pub mod state;
pub mod table;
