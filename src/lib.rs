//! The protocol engine of an rsync client that fetches a module from a daemon.
//!
//! The handshake (`handshake`) is a state machine: it turns each line the
//! server sends into the bytes to write next, or a failure. Once the seed is
//! read, the read side is demultiplexed (`envelope`), the generator describes
//! existing data (`generator`) and the receiver rebuilds files from the
//! server's instructions (`receiver`). Every function here moves bytes in
//! memory only; the caller owns the connection.

use vstd::prelude::*;

pub mod bytes;
pub mod envelope;
pub mod filter;
pub mod generator;
pub mod handshake;
pub mod receiver;
pub mod seed;
pub mod version;

verus! {

} // verus!
