//! Public-port allocation: validation of a requested port against the
//! configured range, the random probe used when any port will do, and the
//! error texts reported for failed binds.

use vstd::prelude::*;
use vstd::utf8::valid_utf8;
use crate::auth::lemma_ascii_valid_utf8;
use crate::jsontext::{append_lit, ascii_bytes};

verus! {

/// How many random ports are probed when the client asks for any port.
///
/// Checking `-2 ln(d) / e` uniformly random ports finds a free one with
/// probability at least `1 - d` when a proportion `e` of the range is free;
/// 150 probes give better than 99.999% success at 85% occupancy.
pub const PORT_PROBE_ATTEMPTS: u32 = 150;

/// What to do with a client's port request.
pub enum PortPlan {
    /// The requested port lies outside the configured range: reject.
    OutOfRange,
    /// Bind exactly this requested port, once.
    BindOne(u16),
    /// Probe up to [`PORT_PROBE_ATTEMPTS`] random ports of the range.
    Probe,
}

/// Decides how to serve a port request: a concrete port must lie in the
/// configured range and is bound once; zero means any port, served by random
/// probing.
pub fn plan_port_request(requested: u16, min: u16, max: u16) -> (r: PortPlan)
    requires
        min <= max,
    ensures
        requested == 0 ==> r is Probe,
        requested > 0 && (requested < min || requested > max) ==> r is OutOfRange,
        requested > 0 && min <= requested <= max ==> r == PortPlan::BindOne(requested),
{
    if requested == 0 {
        PortPlan::Probe
    } else if requested < min || requested > max {
        PortPlan::OutOfRange
    } else {
        PortPlan::BindOne(requested)
    }
}

/// Relies on `fastrand::u16` over an inclusive range: it panics only on an
/// empty range and returns a value within the given bounds.  Nothing else is
/// assumed of the random draw.
#[verifier::external_body]
fn random_port_in(min: u16, max: u16) -> (r: u16)
    requires
        min <= max,
    ensures
        min <= r <= max,
{
    fastrand::u16(min..=max)
}

/// Draws one probe candidate from the range.  A range of a single port
/// always yields that port, so with that port free the first probe succeeds.
pub fn pick_probe_port(min: u16, max: u16) -> (r: u16)
    requires
        min <= max,
    ensures
        min <= r <= max,
        min == max ==> r == min,
{
    random_port_in(min, max)
}

/// The error reported when the requested port is outside the range.
pub fn port_not_in_range_message() -> (r: Vec<u8>)
    ensures
        r@ == ascii_bytes("client port number not in allowed range"@),
        valid_utf8(r@),
{
    let mut out: Vec<u8> = Vec::new();
    proof {
        reveal_strlit("client port number not in allowed range");
    }
    append_lit(&mut out, "client port number not in allowed range");
    proof {
        lemma_ascii_valid_utf8(out@);
    }
    out
}

/// The error reported when no free port was found after all probes.
pub fn port_search_failed_message() -> (r: Vec<u8>)
    ensures
        r@ == ascii_bytes("failed to find an available port"@),
        valid_utf8(r@),
{
    let mut out: Vec<u8> = Vec::new();
    proof {
        reveal_strlit("failed to find an available port");
    }
    append_lit(&mut out, "failed to find an available port");
    proof {
        lemma_ascii_valid_utf8(out@);
    }
    out
}

/// Why the operating system refused a bind.
#[derive(Debug, PartialEq, Eq, Structural, Clone, Copy)]
pub enum BindErrorKind {
    /// The address is already in use.
    AddrInUse,
    /// Binding the port needs more privilege.
    PermissionDenied,
    /// Any other refusal.
    Other,
}

/// The single-line message for a refused bind.
pub fn bind_error_message(kind: BindErrorKind) -> (r: Vec<u8>)
    ensures
        kind == BindErrorKind::AddrInUse ==> r@ == ascii_bytes("port already in use"@),
        kind == BindErrorKind::PermissionDenied ==> r@ == ascii_bytes("permission denied"@),
        kind == BindErrorKind::Other ==> r@ == ascii_bytes("failed to bind to port"@),
        valid_utf8(r@),
{
    let mut out: Vec<u8> = Vec::new();
    match kind {
        BindErrorKind::AddrInUse => {
            proof {
                reveal_strlit("port already in use");
            }
            append_lit(&mut out, "port already in use");
        },
        BindErrorKind::PermissionDenied => {
            proof {
                reveal_strlit("permission denied");
            }
            append_lit(&mut out, "permission denied");
        },
        BindErrorKind::Other => {
            proof {
                reveal_strlit("failed to bind to port");
            }
            append_lit(&mut out, "failed to bind to port");
        },
    }
    proof {
        lemma_ascii_valid_utf8(out@);
    }
    out
}

/// The first port at or after `start_port`, below 65535, that is not in
/// `taken`; `None` when every such port is taken.
pub fn find_available_port(start_port: u16, taken: &Vec<u16>) -> (r: Option<u16>)
    ensures
        match r {
            Some(p) => start_port <= p < 65535 && !taken@.contains(p) && (forall|q: u16|
                start_port <= q < p ==> taken@.contains(q)),
            None => forall|q: u16| start_port <= q < 65535 ==> taken@.contains(q),
        },
{
    let mut port: u16 = start_port;
    while port < 65535
        invariant
            start_port <= port,
            forall|q: u16| start_port <= q < port ==> taken@.contains(q),
        decreases 65535 - port,
    {
        let mut used = false;
        let n = taken.len();
        let mut i: usize = 0;
        while i < n
            invariant
                n == taken@.len(),
                i <= n,
                used == exists|j: int| 0 <= j < i && taken@[j] == port,
            decreases n - i,
        {
            if taken[i] == port {
                used = true;
            }
            i = i + 1;
        }
        if !used {
            proof {
                assert(!taken@.contains(port));
            }
            return Some(port);
        }
        proof {
            assert(taken@.contains(port));
        }
        port = port + 1;
    }
    None
}

} // verus!
