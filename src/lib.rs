//! Deterministic lockstep networking for fixed-tick simulations.
//!
//! Peers exchange only the commands each player issues per tick; every peer
//! executes the same commands in the same order and so computes the same
//! state.  The crate holds the logic of that protocol, with no I/O:
//!
//! - [`wire`]: the byte encoding of values, and its laws;
//! - [`commands`]: the messages peers exchange and their encoding;
//! - [`lockstep`]: the per-tick command buffer, the tick scheduler, the peer
//!   directory, and the session that runs them;
//! - [`session`]: the host/client state machine that the session follows;
//! - [`desync`]: the state checksum and the divergence detector;
//! - [`replay`]: recording, saving and loading what was executed.
//!
//! The caller owns the transport and the clock: it hands received packets and
//! the time to the session, and sends the messages the session returns.
use vstd::prelude::*;

pub mod commands;
pub mod desync;
pub mod lockstep;
pub mod replay;
pub mod session;
pub mod wire;

verus! {

} // verus!
