//! Core logic of a Stratum mining-pool coordinator.
//!
//! The crate models the online coordination engine of a proof-of-work pool:
//! the line-delimited JSON-RPC codec spoken with prover clients, the
//! per-connection Stratum state machine, the pool-wide server state with its
//! registries, nonce dedup and epoch fan-out, per-prover and pool-wide
//! difficulty targeting, the upstream-node session state machine, and the
//! PPLNS share-accounting window with its key-value snapshots.
//!
//! All I/O, clocks and cryptography stay outside: functions take the current
//! time in milliseconds and the outcomes of puzzle or signature verification
//! as plain arguments, and return the actions the caller must perform.

use vstd::prelude::*;

pub mod codec;
pub mod connection;
pub mod message;
pub mod meter;
pub mod pplns;
pub mod server;
pub mod snapshot;
pub mod ttlmap;
pub mod upstream;
pub mod util;
pub mod targeting;

verus! {

/// Milliseconds a prover connection may take from accept to authorization.
pub const HANDSHAKE_TIMEOUT_MS: u64 = 10_000;

/// Milliseconds of inbound silence after which a peer is considered gone.
pub const IDLE_TIMEOUT_MS: u64 = 180_000;

} // verus!
