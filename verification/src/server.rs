//! The server side of the control protocol: the dispatch on the first frame
//! of a connection, admission against the per-user cap, and the rendezvous
//! step that parks an inbound public stream before announcing it.

use vstd::prelude::*;
use vstd::utf8::valid_utf8;
use crate::admission::UserTunnels;
use crate::auth::lemma_ascii_valid_utf8;
use crate::ids::UuidBytes;
use crate::jsontext::{append_lit, ascii_bytes};
use crate::msg::{ClientMessage, ServerMessage};
use crate::rendezvous::Rendezvous;
use crate::wire::{dec_rep, push_dec};

verus! {

/// What the server does with the first frame of a control connection.
pub enum FirstFrameAction {
    /// Hand the connection over to the parked stream under this id; the
    /// admission path is never consulted.
    ServeAccept(UuidBytes),
    /// A managed key was offered to a legacy-only server: reject, so a
    /// forged key can never bypass the HMAC handshake.
    RejectLegacyBypass,
    /// Ask the validation oracle about this key, then expect `Hello`.
    ValidateKey(Vec<u8>),
    /// A bare `Hello` reached a server that requires managed keys: reject.
    RejectUnauthenticatedHello,
    /// Run the HMAC challenge handshake, then admit under the legacy
    /// identity with the requested port.
    LegacyHandshake(u16),
    /// No authentication is configured: admit under the legacy identity.
    LegacyOpen(u16),
    /// Anything else, or end of stream: report a protocol error and close.
    ProtocolError,
}

/// The dispatch table on the first frame, as a function of the frame and of
/// whether a validation oracle and a legacy secret are configured.
pub open spec fn first_frame_spec(
    first: Option<ClientMessage>,
    oracle_enabled: bool,
    legacy_secret: bool,
) -> FirstFrameAction {
    match first {
        Some(ClientMessage::Accept(id)) => FirstFrameAction::ServeAccept(id),
        Some(ClientMessage::Authenticate(key)) => if !oracle_enabled && legacy_secret {
            FirstFrameAction::RejectLegacyBypass
        } else {
            FirstFrameAction::ValidateKey(key)
        },
        Some(ClientMessage::Hello(port)) => if oracle_enabled && !legacy_secret {
            FirstFrameAction::RejectUnauthenticatedHello
        } else if legacy_secret {
            FirstFrameAction::LegacyHandshake(port)
        } else {
            FirstFrameAction::LegacyOpen(port)
        },
        None => FirstFrameAction::ProtocolError,
    }
}

/// Dispatches the first frame of a control connection.
pub fn first_frame_action(
    first: Option<ClientMessage>,
    oracle_enabled: bool,
    legacy_secret: bool,
) -> (r: FirstFrameAction)
    ensures
        r == first_frame_spec(first, oracle_enabled, legacy_secret),
{
    match first {
        Some(ClientMessage::Accept(id)) => FirstFrameAction::ServeAccept(id),
        Some(ClientMessage::Authenticate(key)) => {
            if !oracle_enabled && legacy_secret {
                FirstFrameAction::RejectLegacyBypass
            } else {
                FirstFrameAction::ValidateKey(key)
            }
        },
        Some(ClientMessage::Hello(port)) => {
            if oracle_enabled && !legacy_secret {
                FirstFrameAction::RejectUnauthenticatedHello
            } else if legacy_secret {
                FirstFrameAction::LegacyHandshake(port)
            } else {
                FirstFrameAction::LegacyOpen(port)
            }
        },
        None => FirstFrameAction::ProtocolError,
    }
}

/// An `Accept` frame is served by the rendezvous path under every
/// configuration: the admission and authentication machinery is never
/// consulted for it.
pub proof fn lemma_accept_bypasses_authentication(
    id: UuidBytes,
    oracle_enabled: bool,
    legacy_secret: bool,
)
    ensures
        first_frame_spec(Some(ClientMessage::Accept(id)), oracle_enabled, legacy_secret)
            == FirstFrameAction::ServeAccept(id),
{
}

/// After a validated key, the next frame must be `Hello`; its port is the
/// request.  Anything else is a protocol error.
pub fn expect_hello(reply: &Option<ClientMessage>) -> (r: Result<u16, Vec<u8>>)
    ensures
        forall|p: u16| *reply == Some(ClientMessage::Hello(p)) ==> r == Ok::<u16, Vec<u8>>(p),
        !(reply matches Some(ClientMessage::Hello(_))) ==> (r matches Err(m) && m@ == ascii_bytes(
            "Protocol error"@,
        ) && valid_utf8(m@)),
{
    match reply {
        Some(ClientMessage::Hello(p)) => Ok(*p),
        _ => {
            let mut out: Vec<u8> = Vec::new();
            proof {
                reveal_strlit("Protocol error");
            }
            append_lit(&mut out, "Protocol error");
            proof {
                lemma_ascii_valid_utf8(out@);
            }
            Err(out)
        },
    }
}

/// The rejection sent when a managed key is offered in legacy mode.
pub fn method_not_supported_message() -> (r: Vec<u8>)
    ensures
        r@ == ascii_bytes("Authentication method not supported. Use shared secret mode."@),
        valid_utf8(r@),
{
    let mut out: Vec<u8> = Vec::new();
    proof {
        reveal_strlit("Authentication method not supported. Use shared secret mode.");
    }
    append_lit(&mut out, "Authentication method not supported. Use shared secret mode.");
    proof {
        lemma_ascii_valid_utf8(out@);
    }
    out
}

/// The rejection sent when a bare `Hello` needs a managed key.
pub fn auth_required_message() -> (r: Vec<u8>)
    ensures
        r@ == ascii_bytes("Authentication required. Please provide a valid API key."@),
        valid_utf8(r@),
{
    let mut out: Vec<u8> = Vec::new();
    proof {
        reveal_strlit("Authentication required. Please provide a valid API key.");
    }
    append_lit(&mut out, "Authentication required. Please provide a valid API key.");
    proof {
        lemma_ascii_valid_utf8(out@);
    }
    out
}

/// The error sent when the oracle cannot be reached at all.
pub fn auth_service_unavailable_message() -> (r: Vec<u8>)
    ensures
        r@ == ascii_bytes("Authentication service unavailable"@),
        valid_utf8(r@),
{
    let mut out: Vec<u8> = Vec::new();
    proof {
        reveal_strlit("Authentication service unavailable");
    }
    append_lit(&mut out, "Authentication service unavailable");
    proof {
        lemma_ascii_valid_utf8(out@);
    }
    out
}

/// The error sent on an unexpected first frame.
pub fn unexpected_first_message() -> (r: Vec<u8>)
    ensures
        r@ == ascii_bytes("Expected authentication or hello"@),
        valid_utf8(r@),
{
    let mut out: Vec<u8> = Vec::new();
    proof {
        reveal_strlit("Expected authentication or hello");
    }
    append_lit(&mut out, "Expected authentication or hello");
    proof {
        lemma_ascii_valid_utf8(out@);
    }
    out
}

/// The denial sent when a user is at the concurrency cap.
pub fn limit_reached_message(max_tunnels: u32) -> (r: Vec<u8>)
    ensures
        r@ == ascii_bytes("Maximum concurrent tunnels ("@) + dec_rep(max_tunnels as nat)
            + ascii_bytes(
            ") reached. Please disconnect an existing tunnel or upgrade your plan."@,
        ),
        valid_utf8(r@),
{
    let mut out: Vec<u8> = Vec::new();
    proof {
        reveal_strlit("Maximum concurrent tunnels (");
        reveal_strlit(") reached. Please disconnect an existing tunnel or upgrade your plan.");
    }
    append_lit(&mut out, "Maximum concurrent tunnels (");
    push_dec(&mut out, max_tunnels as u64);
    append_lit(&mut out, ") reached. Please disconnect an existing tunnel or upgrade your plan.");
    proof {
        crate::oracle::lemma_dec_rep_ascii(max_tunnels as nat);
        lemma_ascii_valid_utf8(out@);
    }
    out
}

/// Atomic admission of one control connection for a user: the counter is
/// checked against the cap and incremented in one step.  `None` admits; a
/// denial returns the error message to send and changes nothing.
pub fn admit_or_deny(tunnels: &mut UserTunnels, user_id: &[u8], max_tunnels: u32) -> (r: Option<
    Vec<u8>,
>)
    requires
        old(tunnels).wf(),
    ensures
        final(tunnels).wf(),
        r is None <==> old(tunnels).current(user_id@) < max_tunnels,
        max_tunnels == 0 ==> r is Some,
        r is None ==> final(tunnels).current(user_id@) == old(tunnels).current(user_id@) + 1
            && final(tunnels).current(user_id@) <= max_tunnels,
        r is Some ==> final(tunnels).current(user_id@) == old(tunnels).current(user_id@),
        r matches Some(m) ==> m@ == ascii_bytes("Maximum concurrent tunnels ("@) + dec_rep(
            max_tunnels as nat,
        ) + ascii_bytes(") reached. Please disconnect an existing tunnel or upgrade your plan."@)
            && valid_utf8(m@),
        forall|other: Seq<u8>|
            other != user_id@ ==> final(tunnels).current(other) == old(tunnels).current(other),
{
    if tunnels.try_admit(user_id, max_tunnels) {
        None
    } else {
        Some(limit_reached_message(max_tunnels))
    }
}

/// Releases one admitted connection of a user on shutdown or bind failure:
/// a saturating decrement that drops the entry at zero.
pub fn release_tunnel(tunnels: &mut UserTunnels, user_id: &[u8])
    requires
        old(tunnels).wf(),
    ensures
        final(tunnels).wf(),
        final(tunnels).current(user_id@) == if old(tunnels).current(user_id@) > 0 {
            (old(tunnels).current(user_id@) - 1) as nat
        } else {
            0
        },
        forall|other: Seq<u8>|
            other != user_id@ ==> final(tunnels).current(other) == old(tunnels).current(other),
{
    tunnels.release(user_id);
}

/// One inbound public connection during the forwarding loop: a fresh id is
/// drawn, the stream's handle is parked under it, and the `Connection`
/// frame to send is returned together with the id the janitor must reclaim.
///
/// The handle is parked before the notification frame exists, so by the
/// time the client can send `Accept(id)` the entry is in place; only the
/// janitor can remove it first.
pub fn register_public_conn(conns: &mut Rendezvous, handle: u64) -> (r: (UuidBytes, ServerMessage))
    requires
        old(conns).wf(),
    ensures
        final(conns).wf(),
        r.0.wf(),
        final(conns).lookup(r.0@) == Some(handle),
        r.1 matches ServerMessage::Connection(cid) && cid@ == r.0@,
        r.1.wf(),
        forall|other: Seq<u8>|
            other != r.0@ ==> final(conns).lookup(other) == old(conns).lookup(other),
{
    let id = UuidBytes::new_random();
    let mut copy_bytes: Vec<u8> = Vec::new();
    copy_bytes.extend_from_slice(id.as_bytes().as_slice());
    proof {
        assert(copy_bytes@ =~= id@);
    }
    let parked = UuidBytes::from_bytes(copy_bytes);
    conns.park(parked, handle);
    let mut msg_bytes: Vec<u8> = Vec::new();
    msg_bytes.extend_from_slice(id.as_bytes().as_slice());
    proof {
        assert(msg_bytes@ =~= id@);
    }
    let note = ServerMessage::Connection(UuidBytes::from_bytes(msg_bytes));
    (id, note)
}

} // verus!
