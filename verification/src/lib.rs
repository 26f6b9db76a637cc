//! The dispatch and subscription core of a JSON-RPC 2.0 framework.
//!
//! The library covers both sides of a connection. On the server side,
//! [`module::RpcModule`] registers named methods and subscription
//! pairs, merges with other modules, and serves inbound frames through
//! [`module::RpcModule::dispatch`], which keeps the table of live
//! subscribers and frames every reply. On the client side,
//! [`client::ClientCore`] correlates responses to calls by identifier
//! and demultiplexes subscription notifications into bounded queues
//! with explicit overflow. The wire format lives in [`wire`] over the
//! verified JSON codec of [`json`]; [`http`] holds the checks around
//! the stateless HTTP transport; [`sink`] carries frames toward a
//! connection.

use vstd::prelude::*;

pub mod client;
pub mod error;
pub mod http;
pub mod json;
pub mod module;
pub mod sink;
pub mod wire;

verus! {

/// Mask that keeps the low 53 bits of a raw identifier, so that the value
/// survives a round trip through consumers that store numbers as IEEE-754
/// doubles.
pub const JS_NUM_MASK: u64 = 0x001f_ffff_ffff_ffff;

/// Restrict a raw 64-bit value to the 53 bits that a JSON number can carry
/// without losing precision.
pub fn mask_subscription_id(raw: u64) -> (r: u64)
    ensures
        r == raw & JS_NUM_MASK,
        r < 0x20000000000000u64,
{
    let r = raw & JS_NUM_MASK;
    proof {
        assert(raw & 0x001f_ffff_ffff_ffffu64 < 0x20000000000000u64) by (bit_vector);
    }
    r
}

} // verus!
