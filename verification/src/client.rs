//! The client side of the control protocol: classifying the secret, the
//! opening frames, the handshake on the server's first answers, and the
//! dispatch loop over the established control stream.

use vstd::prelude::*;
use vstd::utf8::valid_utf8;
use crate::auth::Authenticator;
use crate::ids::UuidBytes;
use crate::jsontext::ascii_bytes;
use crate::msg::{ClientMessage, ServerMessage};

verus! {

/// A managed key begins with `sk_` or `tk_`.  Nothing else marks a secret
/// as managed: in particular a 64-character hexadecimal secret is a legacy
/// shared secret, as produced by common random generators.
pub open spec fn is_managed_key_spec(secret: Seq<u8>) -> bool {
    secret.len() >= 3 && (secret.take(3) == ascii_bytes("sk_"@) || secret.take(3) == ascii_bytes(
        "tk_"@,
    ))
}

/// Classifies a secret: managed key or legacy shared secret.
pub fn is_managed_key(secret: &[u8]) -> (r: bool)
    ensures
        r == is_managed_key_spec(secret@),
{
    proof {
        reveal_strlit("sk_");
        reveal_strlit("tk_");
    }
    if secret.len() < 3 {
        return false;
    }
    let sk = secret[0] == 0x73 && secret[1] == 0x6b && secret[2] == 0x5f;
    let tk = secret[0] == 0x74 && secret[1] == 0x6b && secret[2] == 0x5f;
    proof {
        assert(ascii_bytes("sk_"@).len() == 3);
        assert(ascii_bytes("tk_"@).len() == 3);
        assert(secret@.take(3).len() == 3);
        if sk {
            assert(secret@.take(3) =~= ascii_bytes("sk_"@));
        } else {
            assert(secret@.take(3) != ascii_bytes("sk_"@)) by {
                if secret@.take(3) == ascii_bytes("sk_"@) {
                    assert(secret@[0] == ascii_bytes("sk_"@)[0]);
                    assert(secret@[1] == ascii_bytes("sk_"@)[1]);
                    assert(secret@[2] == ascii_bytes("sk_"@)[2]);
                }
            }
        }
        if tk {
            assert(secret@.take(3) =~= ascii_bytes("tk_"@));
        } else {
            assert(secret@.take(3) != ascii_bytes("tk_"@)) by {
                if secret@.take(3) == ascii_bytes("tk_"@) {
                    assert(secret@[0] == ascii_bytes("tk_"@)[0]);
                    assert(secret@[1] == ascii_bytes("tk_"@)[1]);
                    assert(secret@[2] == ascii_bytes("tk_"@)[2]);
                }
            }
        }
    }
    sk || tk
}

/// The frames a client sends when it opens a control connection, and the
/// authenticator it keeps for a later challenge.
pub struct ClientOpening {
    /// The frames to send, in order.
    pub frames: Vec<ClientMessage>,
    /// Present exactly in legacy mode: the answerer for a challenge.
    pub auth: Option<Authenticator>,
}

/// Decides the opening of a control connection.  A managed key is sent at
/// once in an `Authenticate` frame and `Hello` follows; a legacy secret
/// sends only `Hello` and keeps an authenticator for the challenge; with no
/// secret, `Hello` alone is sent and a challenge cannot be answered.
pub fn client_opening(secret: Option<&[u8]>, requested_port: u16) -> (r: ClientOpening)
    requires
        secret matches Some(s) ==> valid_utf8(s@),
    ensures
        match secret {
            Some(s) => {
                if is_managed_key_spec(s@) {
                    &&& r.frames@.len() == 2
                    &&& r.frames@[0] matches ClientMessage::Authenticate(k) && k@ == s@
                    &&& r.frames@[1] == ClientMessage::Hello(requested_port)
                    &&& r.auth is None
                } else {
                    &&& r.frames@.len() == 1
                    &&& r.frames@[0] == ClientMessage::Hello(requested_port)
                    &&& r.auth matches Some(a) && a.key() == crate::auth::sha256_of(s@)
                }
            },
            None => {
                &&& r.frames@.len() == 1
                &&& r.frames@[0] == ClientMessage::Hello(requested_port)
                &&& r.auth is None
            },
        },
        forall|i: int| 0 <= i < r.frames@.len() ==> (#[trigger] r.frames@[i]).wf(),
{
    let mut frames: Vec<ClientMessage> = Vec::new();
    match secret {
        Some(s) => {
            if is_managed_key(s) {
                let mut key: Vec<u8> = Vec::new();
                key.extend_from_slice(s);
                proof {
                    assert(key@ =~= s@);
                }
                frames.push(ClientMessage::Authenticate(key));
                frames.push(ClientMessage::Hello(requested_port));
                ClientOpening { frames, auth: None }
            } else {
                let auth = Authenticator::from_secret_bytes(s);
                frames.push(ClientMessage::Hello(requested_port));
                ClientOpening { frames, auth: Some(auth) }
            }
        },
        None => {
            frames.push(ClientMessage::Hello(requested_port));
            ClientOpening { frames, auth: None }
        },
    }
}

/// Why a client handshake failed.
#[derive(Clone, Debug)]
pub enum ClientFailure {
    /// The server reported this error.
    ServerError(Vec<u8>),
    /// The server sent a challenge but no secret is configured.
    AuthRequired,
    /// A frame that has no place at this point of the handshake.
    UnexpectedMessage,
    /// The stream ended mid-handshake.
    Eof,
}

/// The client's next step after the server's answer to its opening.
pub enum HandshakeStep {
    /// Send this `Authenticate` answer, then read one more frame.
    Answer(ClientMessage),
    /// The tunnel is established on this public port.
    Established(u16),
    /// The handshake failed.
    Failed(ClientFailure),
}

/// Decides on the first frame the server sends back: a challenge is
/// answered when a legacy secret is held, `Hello` establishes the tunnel,
/// an error is surfaced, and anything else fails the handshake.
pub fn first_response_step(resp: Option<ServerMessage>, auth: &Option<Authenticator>) -> (r:
    HandshakeStep)
    ensures
        match resp {
            Some(ServerMessage::Challenge(n)) => match auth {
                Some(a) => r matches HandshakeStep::Answer(m) && m matches ClientMessage::Authenticate(t)
                    && t@ == crate::hexcode::hex_of(
                    crate::auth::hmac_sha256_of(a.key(), n@),
                ) && m.wf(),
                None => r == HandshakeStep::Failed(ClientFailure::AuthRequired),
            },
            Some(ServerMessage::Hello(p)) => r == HandshakeStep::Established(p),
            Some(ServerMessage::Error(e)) => r matches HandshakeStep::Failed(f) && f
                matches ClientFailure::ServerError(m) && m@ == e@,
            Some(ServerMessage::Heartbeat) => r == HandshakeStep::Failed(
                ClientFailure::UnexpectedMessage,
            ),
            Some(ServerMessage::Connection(_)) => r == HandshakeStep::Failed(
                ClientFailure::UnexpectedMessage,
            ),
            None => r == HandshakeStep::Failed(ClientFailure::Eof),
        },
{
    match resp {
        Some(ServerMessage::Challenge(n)) => match auth {
            Some(a) => HandshakeStep::Answer(a.challenge_reply(&n)),
            None => HandshakeStep::Failed(ClientFailure::AuthRequired),
        },
        Some(ServerMessage::Hello(p)) => HandshakeStep::Established(p),
        Some(ServerMessage::Error(e)) => HandshakeStep::Failed(ClientFailure::ServerError(e)),
        Some(ServerMessage::Heartbeat) => HandshakeStep::Failed(ClientFailure::UnexpectedMessage),
        Some(ServerMessage::Connection(_)) => HandshakeStep::Failed(
            ClientFailure::UnexpectedMessage,
        ),
        None => HandshakeStep::Failed(ClientFailure::Eof),
    }
}

/// Decides on the frame after the challenge was answered: only `Hello`
/// establishes; a second challenge is unexpected.
pub fn after_answer_step(resp: Option<ServerMessage>) -> (r: HandshakeStep)
    ensures
        match resp {
            Some(ServerMessage::Hello(p)) => r == HandshakeStep::Established(p),
            Some(ServerMessage::Error(e)) => r matches HandshakeStep::Failed(f) && f
                matches ClientFailure::ServerError(m) && m@ == e@,
            None => r == HandshakeStep::Failed(ClientFailure::Eof),
            _ => r == HandshakeStep::Failed(ClientFailure::UnexpectedMessage),
        },
{
    match resp {
        Some(ServerMessage::Hello(p)) => HandshakeStep::Established(p),
        Some(ServerMessage::Error(e)) => HandshakeStep::Failed(ClientFailure::ServerError(e)),
        None => HandshakeStep::Failed(ClientFailure::Eof),
        _ => HandshakeStep::Failed(ClientFailure::UnexpectedMessage),
    }
}

/// What the dispatch loop does with one frame of the control stream.
pub enum ListenAction {
    /// Nothing: heartbeats keep the stream alive, stray frames are noted
    /// and skipped.
    Ignore,
    /// Open a fresh connection to the server and send this `Accept` frame
    /// on it; no authentication precedes it, because the accept path never
    /// challenges.
    OpenAccept(ClientMessage),
    /// Note the server's error and continue reading.
    NoteError(Vec<u8>),
    /// Orderly end of the control stream.
    Stop,
}

/// Dispatches one frame of the established control stream.
pub fn dispatch_server_frame(msg: Option<ServerMessage>) -> (r: ListenAction)
    ensures
        match msg {
            Some(ServerMessage::Connection(id)) => r matches ListenAction::OpenAccept(m) && m
                matches ClientMessage::Accept(aid) && aid@ == id@,
            Some(ServerMessage::Error(e)) => r matches ListenAction::NoteError(m) && m@ == e@,
            Some(ServerMessage::Heartbeat) => r == ListenAction::Ignore,
            Some(ServerMessage::Hello(_)) => r == ListenAction::Ignore,
            Some(ServerMessage::Challenge(_)) => r == ListenAction::Ignore,
            None => r == ListenAction::Stop,
        },
        (msg matches Some(m) && m.wf()) ==> (r matches ListenAction::OpenAccept(a) ==> a.wf()),
{
    match msg {
        Some(ServerMessage::Connection(id)) => ListenAction::OpenAccept(ClientMessage::Accept(id)),
        Some(ServerMessage::Error(e)) => ListenAction::NoteError(e),
        Some(ServerMessage::Heartbeat) => ListenAction::Ignore,
        Some(ServerMessage::Hello(_)) => ListenAction::Ignore,
        Some(ServerMessage::Challenge(_)) => ListenAction::Ignore,
        None => ListenAction::Stop,
    }
}

} // verus!
