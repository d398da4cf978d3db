//! Timeout configuration, in whole units of time, with the ordering rule
//! that keeps the client waiting strictly longer than any backend validation
//! the server may perform mid-handshake.

use vstd::prelude::*;

verus! {

/// Maximum time, in seconds, the server waits for the backend to validate an
/// API key.
pub const BACKEND_HTTP_TIMEOUT_SECS: u64 = 5;

/// Maximum time, in seconds, either side waits for a single protocol receive
/// or an outbound connect.
///
/// This must be at least twice `BACKEND_HTTP_TIMEOUT_SECS`: the server may
/// spend up to one backend timeout validating a key before it can answer, and
/// a margin of the same size covers slow networks.
pub const NETWORK_TIMEOUT_SECS: u64 = 10;

/// Poll period, in milliseconds, of the public listener between heartbeats.
pub const HEARTBEAT_POLL_MILLIS: u64 = 500;

/// Time, in seconds, a parked public stream may wait for a matching accept
/// before the janitor reclaims it.
pub const STALE_CONNECTION_SECS: u64 = 10;

/// The network timeout brackets backend validation: a client that waits
/// `NETWORK_TIMEOUT_SECS` never disconnects merely because the server spent
/// the full backend budget, with an equal margin to spare.
pub proof fn timeouts_bracket_backend_validation()
    ensures
        NETWORK_TIMEOUT_SECS >= 2 * BACKEND_HTTP_TIMEOUT_SECS,
        NETWORK_TIMEOUT_SECS > BACKEND_HTTP_TIMEOUT_SECS,
{
}

} // verus!
