//! Protocol messages and their canonical JSON wire form: every message is a
//! single-key object and strings use the canonical escaping.  The decoders
//! accept exactly the canonical encodings: an accepted body re-encodes to
//! the same bytes, a rejected body is the body of no well-formed message,
//! and no two well-formed messages share a body.

use vstd::prelude::*;
use vstd::utf8::valid_utf8;
use crate::ids::{UuidBytes, parse_uuid_text, push_uuid_text, uuid_text};
use crate::jsontext::{append_lit, append_json_string, ascii_bytes, json_escape, match_lit,
    parse_dec_u16, parse_json_string};
use crate::wire::{FrameError, FrameOutcome, MAX_FRAME_LENGTH, dec_rep, encode_frame, frame_of,
    parse_frame, split_frame};

verus! {

/// A message sent from the tunnel client to the tunnel server.
#[derive(Clone, Debug)]
pub enum ClientMessage {
    /// An opaque key, or the hex tag answering an HMAC challenge.
    Authenticate(Vec<u8>),
    /// Request for a public port; `0` asks for any port in the range.
    Hello(u16),
    /// This connection consumes the parked stream stored under the id.
    Accept(UuidBytes),
}

/// A message sent from the tunnel server to the tunnel client.
#[derive(Clone, Debug)]
pub enum ServerMessage {
    /// A nonce opening the legacy HMAC handshake.
    Challenge(UuidBytes),
    /// The public port assigned to this tunnel.
    Hello(u16),
    /// An inbound public connection was parked under this id.
    Connection(UuidBytes),
    /// Liveness probe.
    Heartbeat,
    /// A terminal error; the sender closes afterwards.
    Error(Vec<u8>),
}

impl ClientMessage {
    /// Strings are well-formed UTF-8 and identifiers hold 16 bytes.
    pub open spec fn wf(&self) -> bool {
        match self {
            ClientMessage::Authenticate(t) => valid_utf8(t@),
            ClientMessage::Hello(_) => true,
            ClientMessage::Accept(id) => id.wf(),
        }
    }
}

impl ServerMessage {
    /// Strings are well-formed UTF-8 and identifiers hold 16 bytes.
    pub open spec fn wf(&self) -> bool {
        match self {
            ServerMessage::Challenge(id) => id.wf(),
            ServerMessage::Hello(_) => true,
            ServerMessage::Connection(id) => id.wf(),
            ServerMessage::Heartbeat => true,
            ServerMessage::Error(m) => valid_utf8(m@),
        }
    }
}

/// The canonical JSON body of a client message.
pub open spec fn client_body(m: ClientMessage) -> Seq<u8> {
    match m {
        ClientMessage::Authenticate(t) => ascii_bytes("{\"Authenticate\":\""@) + json_escape(t@)
            + ascii_bytes("\"}"@),
        ClientMessage::Hello(p) => ascii_bytes("{\"Hello\":"@) + dec_rep(p as nat) + ascii_bytes(
            "}"@,
        ),
        ClientMessage::Accept(id) => ascii_bytes("{\"Accept\":\""@) + uuid_text(id@) + ascii_bytes(
            "\"}"@,
        ),
    }
}

/// The canonical JSON body of a server message.
pub open spec fn server_body(m: ServerMessage) -> Seq<u8> {
    match m {
        ServerMessage::Challenge(id) => ascii_bytes("{\"Challenge\":\""@) + uuid_text(id@)
            + ascii_bytes("\"}"@),
        ServerMessage::Hello(p) => ascii_bytes("{\"Hello\":"@) + dec_rep(p as nat) + ascii_bytes(
            "}"@,
        ),
        ServerMessage::Connection(id) => ascii_bytes("{\"Connection\":\""@) + uuid_text(id@)
            + ascii_bytes("\"}"@),
        ServerMessage::Heartbeat => ascii_bytes("{\"Heartbeat\":null}"@),
        ServerMessage::Error(t) => ascii_bytes("{\"Error\":\""@) + json_escape(t@) + ascii_bytes(
            "\"}"@,
        ),
    }
}

/// Encodes the JSON body of a client message.
pub fn encode_client_body(m: &ClientMessage) -> (r: Vec<u8>)
    requires
        m.wf(),
    ensures
        r@ == client_body(*m),
{
    let mut out: Vec<u8> = Vec::new();
    match m {
        ClientMessage::Authenticate(t) => {
            proof {
                reveal_strlit("{\"Authenticate\":");
                reveal_strlit("{\"Authenticate\":\"");
                reveal_strlit("}");
                reveal_strlit("\"}");
            }
            append_lit(&mut out, "{\"Authenticate\":");
            append_json_string(&mut out, t.as_slice());
            append_lit(&mut out, "}");
            proof {
                assert(out@ =~= client_body(*m));
            }
        },
        ClientMessage::Hello(p) => {
            proof {
                reveal_strlit("{\"Hello\":");
                reveal_strlit("}");
            }
            append_lit(&mut out, "{\"Hello\":");
            crate::wire::push_dec(&mut out, *p as u64);
            append_lit(&mut out, "}");
            proof {
                assert(out@ =~= client_body(*m));
            }
        },
        ClientMessage::Accept(id) => {
            proof {
                reveal_strlit("{\"Accept\":\"");
                reveal_strlit("\"}");
            }
            append_lit(&mut out, "{\"Accept\":\"");
            push_uuid_text(&mut out, id);
            append_lit(&mut out, "\"}");
            proof {
                assert(out@ =~= client_body(*m));
            }
        },
    }
    out
}

/// Encodes the JSON body of a server message.
pub fn encode_server_body(m: &ServerMessage) -> (r: Vec<u8>)
    requires
        m.wf(),
    ensures
        r@ == server_body(*m),
{
    let mut out: Vec<u8> = Vec::new();
    match m {
        ServerMessage::Challenge(id) => {
            proof {
                reveal_strlit("{\"Challenge\":\"");
                reveal_strlit("\"}");
            }
            append_lit(&mut out, "{\"Challenge\":\"");
            push_uuid_text(&mut out, id);
            append_lit(&mut out, "\"}");
            proof {
                assert(out@ =~= server_body(*m));
            }
        },
        ServerMessage::Hello(p) => {
            proof {
                reveal_strlit("{\"Hello\":");
                reveal_strlit("}");
            }
            append_lit(&mut out, "{\"Hello\":");
            crate::wire::push_dec(&mut out, *p as u64);
            append_lit(&mut out, "}");
            proof {
                assert(out@ =~= server_body(*m));
            }
        },
        ServerMessage::Connection(id) => {
            proof {
                reveal_strlit("{\"Connection\":\"");
                reveal_strlit("\"}");
            }
            append_lit(&mut out, "{\"Connection\":\"");
            push_uuid_text(&mut out, id);
            append_lit(&mut out, "\"}");
            proof {
                assert(out@ =~= server_body(*m));
            }
        },
        ServerMessage::Heartbeat => {
            proof {
                reveal_strlit("{\"Heartbeat\":null}");
            }
            append_lit(&mut out, "{\"Heartbeat\":null}");
            proof {
                assert(out@ =~= server_body(*m));
            }
        },
        ServerMessage::Error(t) => {
            proof {
                reveal_strlit("{\"Error\":");
                reveal_strlit("}");
            }
            append_lit(&mut out, "{\"Error\":");
            append_json_string(&mut out, t.as_slice());
            append_lit(&mut out, "}");
            proof {
                reveal_strlit("{\"Error\":\"");
                reveal_strlit("\"}");
                assert(out@ =~= server_body(*m));
            }
        },
    }
    out
}

/// Decodes the JSON body of a client message: accepts exactly the canonical
/// encodings, and returns the one message a body can encode.
#[verifier::rlimit(100)]
pub fn decode_client_body(b: &[u8]) -> (r: Option<ClientMessage>)
    ensures
        match r {
            Some(m) => m.wf() && b@ == client_body(m),
            None => forall|m: ClientMessage| !(m.wf() && b@ == client_body(m)),
        },
{
    let n = b.len();
    proof {
        reveal_strlit("{\"Authenticate\":\"");
        reveal_strlit("{\"Hello\":");
        reveal_strlit("{\"Accept\":\"");
        reveal_strlit("\"}");
        reveal_strlit("}");
    }
    if let Some(j) = match_lit(b, 0, "{\"Authenticate\":\"") {
        match parse_json_string(b, j) {
            None => {
                proof {
                    assert forall|m: ClientMessage| !(m.wf() && b@ == client_body(m)) by {
                        if m.wf() && b@ == client_body(m) {
                            match m {
                                ClientMessage::Authenticate(t) => {
                                    assert(ascii_bytes("\"}"@) =~= seq![0x22u8, 0x7du8]);
                                    assert(b@ =~= ascii_bytes("{\"Authenticate\":\""@) + (
                                    json_escape(t@) + seq![0x22u8] + seq![0x7du8]));
                                    assert(b@.skip(j as int) =~= json_escape(t@) + seq![0x22u8]
                                        + seq![0x7du8]);
                                    assert(false);
                                },
                                ClientMessage::Hello(_) => {
                                    assert(b@[2] == ascii_bytes("{\"Hello\":"@)[2]);
                                    assert(b@.subrange(0, j as int)[2] == b@[2]);
                                },
                                ClientMessage::Accept(_) => {
                                    assert(b@[3] == ascii_bytes("{\"Accept\":\""@)[3]);
                                    assert(b@.subrange(0, j as int)[3] == b@[3]);
                                },
                            }
                        }
                    }
                }
                return None;
            },
            Some((content, end)) => {
                let trailing = match_lit(b, end, "}");
                let done = match trailing {
                    Some(k) => k == n,
                    None => false,
                };
                if done {
                    let m = ClientMessage::Authenticate(content);
                    proof {
                        assert(b@ =~= b@.subrange(0, j as int) + b@.subrange(j as int, end as int)
                            + b@.subrange(end as int, n as int));
                        assert(b@ =~= client_body(m));
                    }
                    return Some(m);
                }
                proof {
                    assert forall|m: ClientMessage| !(m.wf() && b@ == client_body(m)) by {
                        if m.wf() && b@ == client_body(m) {
                            match m {
                                ClientMessage::Authenticate(t) => {
                                    assert(ascii_bytes("\"}"@) =~= seq![0x22u8, 0x7du8]);
                                    assert(b@ =~= ascii_bytes("{\"Authenticate\":\""@) + (
                                    json_escape(t@) + seq![0x22u8] + seq![0x7du8]));
                                    assert(b@.skip(j as int) =~= json_escape(t@) + seq![0x22u8]
                                        + seq![0x7du8]);
                                    assert(b@.skip(j as int) =~= b@.subrange(j as int, end as int)
                                        + b@.skip(end as int));
                                    assert(b@.skip(j as int) =~= json_escape(content@) + seq![
                                        0x22u8,
                                    ] + b@.skip(end as int));
                                    crate::jsontext::lemma_escaped_string_deterministic(
                                        t@,
                                        content@,
                                        seq![0x7du8],
                                        b@.skip(end as int),
                                    );
                                    assert(b@.skip(end as int).len() == n - end);
                                    assert(n - end == 1);
                                    assert(b@.skip(end as int)[0] == b@[end as int]);
                                    assert(b@[end as int] == 0x7d);
                                    assert(b@.subrange(end as int, end + 1) =~= seq![0x7du8]);
                                    assert(ascii_bytes("}"@) =~= seq![0x7du8]);
                                    assert(false);
                                },
                                ClientMessage::Hello(_) => {
                                    assert(b@[2] == ascii_bytes("{\"Hello\":"@)[2]);
                                    assert(b@.subrange(0, j as int)[2] == b@[2]);
                                },
                                ClientMessage::Accept(_) => {
                                    assert(b@[3] == ascii_bytes("{\"Accept\":\""@)[3]);
                                    assert(b@.subrange(0, j as int)[3] == b@[3]);
                                },
                            }
                        }
                    }
                }
                return None;
            },
        }
    }
    if let Some(j) = match_lit(b, 0, "{\"Hello\":") {
        match parse_dec_u16(b, j) {
            None => {
                proof {
                    assert forall|m: ClientMessage| !(m.wf() && b@ == client_body(m)) by {
                        if m.wf() && b@ == client_body(m) {
                            match m {
                                ClientMessage::Hello(p) => {
                                    assert(ascii_bytes("}"@) =~= seq![0x7du8]);
                                    assert(b@ =~= ascii_bytes("{\"Hello\":"@) + (dec_rep(p as nat)
                                        + seq![0x7du8]));
                                    assert(b@.skip(j as int) =~= dec_rep(p as nat) + seq![0x7du8]);
                                    crate::wire::lemma_dec_rep_shape(p as nat);
                                    let jq = j + dec_rep(p as nat).len();
                                    assert(b@.skip(j as int).len() == n - j);
                                    assert(jq + 1 == n);
                                    assert(b@.subrange(j as int, jq as int) =~= dec_rep(p as nat))
                                        by {
                                        assert(forall|t: int|
                                            0 <= t < dec_rep(p as nat).len() ==> b@.skip(
                                                j as int,
                                            )[t] == b@[j + t]);
                                    }
                                    assert(b@[jq as int] == b@.skip(j as int)[jq - j]);
                                    assert(b@[jq as int] == 0x7d);
                                    assert(!is_digit(b@[jq as int]));
                                    assert(false);
                                },
                                ClientMessage::Authenticate(_) => {
                                    assert(b@[2] == ascii_bytes("{\"Authenticate\":\""@)[2]);
                                    assert(b@.subrange(0, j as int)[2] == b@[2]);
                                },
                                ClientMessage::Accept(_) => {
                                    assert(b@[2] == ascii_bytes("{\"Accept\":\""@)[2]);
                                    assert(b@.subrange(0, j as int)[2] == b@[2]);
                                },
                            }
                        }
                    }
                }
                return None;
            },
            Some((v, end)) => {
                let trailing = match_lit(b, end, "}");
                let done = match trailing {
                    Some(k) => k == n,
                    None => false,
                };
                if done {
                    let m = ClientMessage::Hello(v);
                    proof {
                        assert(b@ =~= b@.subrange(0, j as int) + b@.subrange(j as int, end as int)
                            + b@.subrange(end as int, n as int));
                        assert(b@ =~= client_body(m));
                    }
                    return Some(m);
                }
                proof {
                    assert forall|m: ClientMessage| !(m.wf() && b@ == client_body(m)) by {
                        if m.wf() && b@ == client_body(m) {
                            match m {
                                ClientMessage::Hello(p) => {
                                    assert(ascii_bytes("}"@) =~= seq![0x7du8]);
                                    assert(b@ =~= ascii_bytes("{\"Hello\":"@) + (dec_rep(p as nat)
                                        + seq![0x7du8]));
                                    assert(b@.skip(j as int) =~= dec_rep(p as nat) + seq![0x7du8]);
                                    assert(b@.skip(j as int) =~= b@.subrange(j as int, end as int)
                                        + b@.skip(end as int));
                                    assert(b@.skip(j as int) =~= dec_rep(v as nat) + b@.skip(
                                        end as int,
                                    ));
                                    crate::wire::lemma_dec_rep_shape(p as nat);
                                    crate::wire::lemma_dec_rep_shape(v as nat);
                                    if end == n {
                                        assert(b@.skip(end as int).len() == 0);
                                        assert(dec_rep(v as nat) =~= dec_rep(p as nat) + seq![
                                            0x7du8,
                                        ]);
                                        assert(dec_rep(v as nat).last() == 0x7d);
                                        assert(is_digit(
                                            dec_rep(v as nat)[dec_rep(v as nat).len() - 1],
                                        ));
                                        assert(false);
                                    }
                                    assert(b@.skip(end as int)[0] == b@[end as int]);
                                    assert(!is_digit(b@[end as int]));
                                    lemma_number_tail(
                                        v as nat,
                                        p as nat,
                                        b@.skip(end as int),
                                        seq![0x7du8],
                                    );
                                    assert(b@.skip(end as int).len() == 1);
                                    assert(n - end == 1);
                                    assert(b@[end as int] == 0x7d);
                                    assert(b@.subrange(end as int, end + 1) =~= seq![0x7du8]);
                                    assert(false);
                                },
                                ClientMessage::Authenticate(_) => {
                                    assert(b@[2] == ascii_bytes("{\"Authenticate\":\""@)[2]);
                                    assert(b@.subrange(0, j as int)[2] == b@[2]);
                                },
                                ClientMessage::Accept(_) => {
                                    assert(b@[2] == ascii_bytes("{\"Accept\":\""@)[2]);
                                    assert(b@.subrange(0, j as int)[2] == b@[2]);
                                },
                            }
                        }
                    }
                }
                return None;
            },
        }
    }
    if let Some(j) = match_lit(b, 0, "{\"Accept\":\"") {
        match parse_canonical_uuid(b, j) {
            None => {
                proof {
                    assert forall|m: ClientMessage| !(m.wf() && b@ == client_body(m)) by {
                        if m.wf() && b@ == client_body(m) {
                            match m {
                                ClientMessage::Accept(idc) => {
                                    assert(ascii_bytes("\"}"@) =~= seq![0x22u8, 0x7du8]);
                                    assert(b@ =~= ascii_bytes("{\"Accept\":\""@) + (uuid_text(idc@)
                                        + seq![0x22u8, 0x7du8]));
                                    assert(b@.skip(j as int) =~= uuid_text(idc@) + seq![
                                        0x22u8,
                                        0x7du8,
                                    ]);
                                    crate::ids::lemma_uuid_text_len(idc@);
                                    assert(b@.skip(j as int).len() == n - j);
                                    assert(j + 38 == n);
                                    assert(b@.subrange(j as int, j + 36) =~= uuid_text(idc@)) by {
                                        assert(forall|t: int|
                                            0 <= t < 36 ==> b@.skip(j as int)[t] == b@[j + t]);
                                    }
                                    assert(false);
                                },
                                ClientMessage::Authenticate(_) => {
                                    assert(b@[3] == ascii_bytes("{\"Authenticate\":\""@)[3]);
                                    assert(b@.subrange(0, j as int)[3] == b@[3]);
                                },
                                ClientMessage::Hello(_) => {
                                    assert(b@[2] == ascii_bytes("{\"Hello\":"@)[2]);
                                    assert(b@.subrange(0, j as int)[2] == b@[2]);
                                },
                            }
                        }
                    }
                }
                return None;
            },
            Some((id, end)) => {
                let trailing = match_lit(b, end, "\"}");
                let done = match trailing {
                    Some(k) => k == n,
                    None => false,
                };
                if done {
                    let m = ClientMessage::Accept(id);
                    proof {
                        assert(b@ =~= b@.subrange(0, j as int) + b@.subrange(j as int, end as int)
                            + b@.subrange(end as int, n as int));
                        assert(b@ =~= client_body(m));
                    }
                    return Some(m);
                }
                proof {
                    assert forall|m: ClientMessage| !(m.wf() && b@ == client_body(m)) by {
                        if m.wf() && b@ == client_body(m) {
                            match m {
                                ClientMessage::Accept(idc) => {
                                    assert(ascii_bytes("\"}"@) =~= seq![0x22u8, 0x7du8]);
                                    assert(b@ =~= ascii_bytes("{\"Accept\":\""@) + (uuid_text(idc@)
                                        + seq![0x22u8, 0x7du8]));
                                    assert(b@.skip(j as int) =~= uuid_text(idc@) + seq![
                                        0x22u8,
                                        0x7du8,
                                    ]);
                                    crate::ids::lemma_uuid_text_len(idc@);
                                    assert(b@.skip(j as int).len() == n - j);
                                    assert(j + 38 == n);
                                    assert(b@.subrange(j as int, j + 36) =~= uuid_text(idc@)) by {
                                        assert(forall|t: int|
                                            0 <= t < 36 ==> b@.skip(j as int)[t] == b@[j + t]);
                                    }
                                    assert(uuid_text(idc@) == uuid_text(id@));
                                    crate::ids::lemma_uuid_text_round_trip(idc@);
                                    crate::ids::lemma_uuid_text_round_trip(id@);
                                    assert(idc@ == id@);
                                    assert(b@[end as int] == b@.skip(j as int)[36]);
                                    assert(b@[end as int] == 0x22);
                                    assert(b@[end + 1] == b@.skip(j as int)[37]);
                                    assert(b@[end + 1] == 0x7d);
                                    assert(end + 2 == n);
                                    assert(b@.subrange(end as int, end + 2) =~= seq![
                                        0x22u8,
                                        0x7du8,
                                    ]);
                                    assert(false);
                                },
                                ClientMessage::Authenticate(_) => {
                                    assert(b@[3] == ascii_bytes("{\"Authenticate\":\""@)[3]);
                                    assert(b@.subrange(0, j as int)[3] == b@[3]);
                                },
                                ClientMessage::Hello(_) => {
                                    assert(b@[2] == ascii_bytes("{\"Hello\":"@)[2]);
                                    assert(b@.subrange(0, j as int)[2] == b@[2]);
                                },
                            }
                        }
                    }
                }
                return None;
            },
        }
    }
    proof {
        assert forall|m: ClientMessage| !(m.wf() && b@ == client_body(m)) by {
            if m.wf() && b@ == client_body(m) {
                match m {
                    ClientMessage::Authenticate(t) => {
                        let lit = ascii_bytes("{\"Authenticate\":\""@);
                        assert(b@ =~= lit + (json_escape(t@) + ascii_bytes("\"}"@)));
                        assert(b@.subrange(0, lit.len() as int) =~= lit);
                    },
                    ClientMessage::Hello(p) => {
                        let lit = ascii_bytes("{\"Hello\":"@);
                        assert(b@ =~= lit + (dec_rep(p as nat) + ascii_bytes("}"@)));
                        assert(b@.subrange(0, lit.len() as int) =~= lit);
                    },
                    ClientMessage::Accept(idc) => {
                        let lit = ascii_bytes("{\"Accept\":\""@);
                        assert(b@ =~= lit + (uuid_text(idc@) + ascii_bytes("\"}"@)));
                        assert(b@.subrange(0, lit.len() as int) =~= lit);
                    },
                }
            }
        }
    }
    None
}

/// Decodes the JSON body of a server message: accepts exactly the canonical
/// encodings, and returns the one message a body can encode.
#[verifier::rlimit(100)]
pub fn decode_server_body(b: &[u8]) -> (r: Option<ServerMessage>)
    ensures
        match r {
            Some(m) => m.wf() && b@ == server_body(m),
            None => forall|m: ServerMessage| !(m.wf() && b@ == server_body(m)),
        },
{
    let n = b.len();
    proof {
        reveal_strlit("{\"Challenge\":\"");
        reveal_strlit("{\"Hello\":");
        reveal_strlit("{\"Connection\":\"");
        reveal_strlit("{\"Heartbeat\":null}");
        reveal_strlit("{\"Error\":\"");
        reveal_strlit("\"}");
        reveal_strlit("}");
    }
    if let Some(j) = match_lit(b, 0, "{\"Challenge\":\"") {
        match parse_canonical_uuid(b, j) {
            None => {
                proof {
                    assert forall|m: ServerMessage| !(m.wf() && b@ == server_body(m)) by {
                        if m.wf() && b@ == server_body(m) {
                            match m {
                                ServerMessage::Challenge(idc) => {
                                    assert(ascii_bytes("\"}"@) =~= seq![0x22u8, 0x7du8]);
                                    assert(b@ =~= ascii_bytes("{\"Challenge\":\""@) + (uuid_text(idc@)
                                        + seq![0x22u8, 0x7du8]));
                                    assert(b@.skip(j as int) =~= uuid_text(idc@) + seq![
                                        0x22u8,
                                        0x7du8,
                                    ]);
                                    crate::ids::lemma_uuid_text_len(idc@);
                                    assert(b@.skip(j as int).len() == n - j);
                                    assert(j + 38 == n);
                                    assert(b@.subrange(j as int, j + 36) =~= uuid_text(idc@)) by {
                                        assert(forall|t: int|
                                            0 <= t < 36 ==> b@.skip(j as int)[t] == b@[j + t]);
                                    }
                                    assert(false);
                                },
                                ServerMessage::Hello(_) => {
                                    assert(b@[2] == ascii_bytes("{\"Hello\":"@)[2]);
                                    assert(b@.subrange(0, j as int)[2] == b@[2]);
                                },
                                ServerMessage::Connection(_) => {
                                    assert(b@[3] == ascii_bytes("{\"Connection\":\""@)[3]);
                                    assert(b@.subrange(0, j as int)[3] == b@[3]);
                                },
                                ServerMessage::Heartbeat => {
                                    assert(b@[3] == ascii_bytes("{\"Heartbeat\":null}"@)[3]);
                                    assert(b@.subrange(0, j as int)[3] == b@[3]);
                                },
                                ServerMessage::Error(_) => {
                                    assert(b@[2] == ascii_bytes("{\"Error\":\""@)[2]);
                                    assert(b@.subrange(0, j as int)[2] == b@[2]);
                                },
                            }
                        }
                    }
                }
                return None;
            },
            Some((id, end)) => {
                let trailing = match_lit(b, end, "\"}");
                let done = match trailing {
                    Some(k) => k == n,
                    None => false,
                };
                if done {
                    let m = ServerMessage::Challenge(id);
                    proof {
                        assert(b@ =~= b@.subrange(0, j as int) + b@.subrange(j as int, end as int)
                            + b@.subrange(end as int, n as int));
                        assert(b@ =~= server_body(m));
                    }
                    return Some(m);
                }
                proof {
                    assert forall|m: ServerMessage| !(m.wf() && b@ == server_body(m)) by {
                        if m.wf() && b@ == server_body(m) {
                            match m {
                                ServerMessage::Challenge(idc) => {
                                    assert(ascii_bytes("\"}"@) =~= seq![0x22u8, 0x7du8]);
                                    assert(b@ =~= ascii_bytes("{\"Challenge\":\""@) + (uuid_text(idc@)
                                        + seq![0x22u8, 0x7du8]));
                                    assert(b@.skip(j as int) =~= uuid_text(idc@) + seq![
                                        0x22u8,
                                        0x7du8,
                                    ]);
                                    crate::ids::lemma_uuid_text_len(idc@);
                                    assert(b@.skip(j as int).len() == n - j);
                                    assert(j + 38 == n);
                                    assert(b@.subrange(j as int, j + 36) =~= uuid_text(idc@)) by {
                                        assert(forall|t: int|
                                            0 <= t < 36 ==> b@.skip(j as int)[t] == b@[j + t]);
                                    }
                                    assert(uuid_text(idc@) == uuid_text(id@));
                                    crate::ids::lemma_uuid_text_round_trip(idc@);
                                    crate::ids::lemma_uuid_text_round_trip(id@);
                                    assert(idc@ == id@);
                                    assert(b@[end as int] == b@.skip(j as int)[36]);
                                    assert(b@[end as int] == 0x22);
                                    assert(b@[end + 1] == b@.skip(j as int)[37]);
                                    assert(b@[end + 1] == 0x7d);
                                    assert(end + 2 == n);
                                    assert(b@.subrange(end as int, end + 2) =~= seq![
                                        0x22u8,
                                        0x7du8,
                                    ]);
                                    assert(false);
                                },
                                ServerMessage::Hello(_) => {
                                    assert(b@[2] == ascii_bytes("{\"Hello\":"@)[2]);
                                    assert(b@.subrange(0, j as int)[2] == b@[2]);
                                },
                                ServerMessage::Connection(_) => {
                                    assert(b@[3] == ascii_bytes("{\"Connection\":\""@)[3]);
                                    assert(b@.subrange(0, j as int)[3] == b@[3]);
                                },
                                ServerMessage::Heartbeat => {
                                    assert(b@[3] == ascii_bytes("{\"Heartbeat\":null}"@)[3]);
                                    assert(b@.subrange(0, j as int)[3] == b@[3]);
                                },
                                ServerMessage::Error(_) => {
                                    assert(b@[2] == ascii_bytes("{\"Error\":\""@)[2]);
                                    assert(b@.subrange(0, j as int)[2] == b@[2]);
                                },
                            }
                        }
                    }
                }
                return None;
            },
        }
    }

    if let Some(j) = match_lit(b, 0, "{\"Hello\":") {
        match parse_dec_u16(b, j) {
            None => {
                proof {
                    assert forall|m: ServerMessage| !(m.wf() && b@ == server_body(m)) by {
                        if m.wf() && b@ == server_body(m) {
                            match m {
                                ServerMessage::Hello(p) => {
                                    assert(ascii_bytes("}"@) =~= seq![0x7du8]);
                                    assert(b@ =~= ascii_bytes("{\"Hello\":"@) + (dec_rep(p as nat)
                                        + seq![0x7du8]));
                                    assert(b@.skip(j as int) =~= dec_rep(p as nat) + seq![0x7du8]);
                                    crate::wire::lemma_dec_rep_shape(p as nat);
                                    let jq = j + dec_rep(p as nat).len();
                                    assert(b@.skip(j as int).len() == n - j);
                                    assert(jq + 1 == n);
                                    assert(b@.subrange(j as int, jq as int) =~= dec_rep(p as nat))
                                        by {
                                        assert(forall|t: int|
                                            0 <= t < dec_rep(p as nat).len() ==> b@.skip(
                                                j as int,
                                            )[t] == b@[j + t]);
                                    }
                                    assert(b@[jq as int] == b@.skip(j as int)[jq - j]);
                                    assert(b@[jq as int] == 0x7d);
                                    assert(!is_digit(b@[jq as int]));
                                    assert(false);
                                },
                                ServerMessage::Challenge(_) => {
                                    assert(b@[2] == ascii_bytes("{\"Challenge\":\""@)[2]);
                                    assert(b@.subrange(0, j as int)[2] == b@[2]);
                                },
                                ServerMessage::Connection(_) => {
                                    assert(b@[2] == ascii_bytes("{\"Connection\":\""@)[2]);
                                    assert(b@.subrange(0, j as int)[2] == b@[2]);
                                },
                                ServerMessage::Heartbeat => {
                                    assert(b@[4] == ascii_bytes("{\"Heartbeat\":null}"@)[4]);
                                    assert(b@.subrange(0, j as int)[4] == b@[4]);
                                },
                                ServerMessage::Error(_) => {
                                    assert(b@[2] == ascii_bytes("{\"Error\":\""@)[2]);
                                    assert(b@.subrange(0, j as int)[2] == b@[2]);
                                },
                            }
                        }
                    }
                }
                return None;
            },
            Some((v, end)) => {
                let trailing = match_lit(b, end, "}");
                let done = match trailing {
                    Some(k) => k == n,
                    None => false,
                };
                if done {
                    let m = ServerMessage::Hello(v);
                    proof {
                        assert(b@ =~= b@.subrange(0, j as int) + b@.subrange(j as int, end as int)
                            + b@.subrange(end as int, n as int));
                        assert(b@ =~= server_body(m));
                    }
                    return Some(m);
                }
                proof {
                    assert forall|m: ServerMessage| !(m.wf() && b@ == server_body(m)) by {
                        if m.wf() && b@ == server_body(m) {
                            match m {
                                ServerMessage::Hello(p) => {
                                    assert(ascii_bytes("}"@) =~= seq![0x7du8]);
                                    assert(b@ =~= ascii_bytes("{\"Hello\":"@) + (dec_rep(p as nat)
                                        + seq![0x7du8]));
                                    assert(b@.skip(j as int) =~= dec_rep(p as nat) + seq![0x7du8]);
                                    assert(b@.skip(j as int) =~= b@.subrange(j as int, end as int)
                                        + b@.skip(end as int));
                                    assert(b@.skip(j as int) =~= dec_rep(v as nat) + b@.skip(
                                        end as int,
                                    ));
                                    crate::wire::lemma_dec_rep_shape(p as nat);
                                    crate::wire::lemma_dec_rep_shape(v as nat);
                                    if end == n {
                                        assert(b@.skip(end as int).len() == 0);
                                        assert(dec_rep(v as nat) =~= dec_rep(p as nat) + seq![
                                            0x7du8,
                                        ]);
                                        assert(dec_rep(v as nat).last() == 0x7d);
                                        assert(is_digit(
                                            dec_rep(v as nat)[dec_rep(v as nat).len() - 1],
                                        ));
                                        assert(false);
                                    }
                                    assert(b@.skip(end as int)[0] == b@[end as int]);
                                    assert(!is_digit(b@[end as int]));
                                    lemma_number_tail(
                                        v as nat,
                                        p as nat,
                                        b@.skip(end as int),
                                        seq![0x7du8],
                                    );
                                    assert(b@.skip(end as int).len() == 1);
                                    assert(n - end == 1);
                                    assert(b@[end as int] == 0x7d);
                                    assert(b@.subrange(end as int, end + 1) =~= seq![0x7du8]);
                                    assert(false);
                                },
                                ServerMessage::Challenge(_) => {
                                    assert(b@[2] == ascii_bytes("{\"Challenge\":\""@)[2]);
                                    assert(b@.subrange(0, j as int)[2] == b@[2]);
                                },
                                ServerMessage::Connection(_) => {
                                    assert(b@[2] == ascii_bytes("{\"Connection\":\""@)[2]);
                                    assert(b@.subrange(0, j as int)[2] == b@[2]);
                                },
                                ServerMessage::Heartbeat => {
                                    assert(b@[4] == ascii_bytes("{\"Heartbeat\":null}"@)[4]);
                                    assert(b@.subrange(0, j as int)[4] == b@[4]);
                                },
                                ServerMessage::Error(_) => {
                                    assert(b@[2] == ascii_bytes("{\"Error\":\""@)[2]);
                                    assert(b@.subrange(0, j as int)[2] == b@[2]);
                                },
                            }
                        }
                    }
                }
                return None;
            },
        }
    }
    if let Some(j) = match_lit(b, 0, "{\"Connection\":\"") {
        match parse_canonical_uuid(b, j) {
            None => {
                proof {
                    assert forall|m: ServerMessage| !(m.wf() && b@ == server_body(m)) by {
                        if m.wf() && b@ == server_body(m) {
                            match m {
                                ServerMessage::Connection(idc) => {
                                    assert(ascii_bytes("\"}"@) =~= seq![0x22u8, 0x7du8]);
                                    assert(b@ =~= ascii_bytes("{\"Connection\":\""@) + (uuid_text(idc@)
                                        + seq![0x22u8, 0x7du8]));
                                    assert(b@.skip(j as int) =~= uuid_text(idc@) + seq![
                                        0x22u8,
                                        0x7du8,
                                    ]);
                                    crate::ids::lemma_uuid_text_len(idc@);
                                    assert(b@.skip(j as int).len() == n - j);
                                    assert(j + 38 == n);
                                    assert(b@.subrange(j as int, j + 36) =~= uuid_text(idc@)) by {
                                        assert(forall|t: int|
                                            0 <= t < 36 ==> b@.skip(j as int)[t] == b@[j + t]);
                                    }
                                    assert(false);
                                },
                                ServerMessage::Challenge(_) => {
                                    assert(b@[3] == ascii_bytes("{\"Challenge\":\""@)[3]);
                                    assert(b@.subrange(0, j as int)[3] == b@[3]);
                                },
                                ServerMessage::Hello(_) => {
                                    assert(b@[2] == ascii_bytes("{\"Hello\":"@)[2]);
                                    assert(b@.subrange(0, j as int)[2] == b@[2]);
                                },
                                ServerMessage::Heartbeat => {
                                    assert(b@[2] == ascii_bytes("{\"Heartbeat\":null}"@)[2]);
                                    assert(b@.subrange(0, j as int)[2] == b@[2]);
                                },
                                ServerMessage::Error(_) => {
                                    assert(b@[2] == ascii_bytes("{\"Error\":\""@)[2]);
                                    assert(b@.subrange(0, j as int)[2] == b@[2]);
                                },
                            }
                        }
                    }
                }
                return None;
            },
            Some((id, end)) => {
                let trailing = match_lit(b, end, "\"}");
                let done = match trailing {
                    Some(k) => k == n,
                    None => false,
                };
                if done {
                    let m = ServerMessage::Connection(id);
                    proof {
                        assert(b@ =~= b@.subrange(0, j as int) + b@.subrange(j as int, end as int)
                            + b@.subrange(end as int, n as int));
                        assert(b@ =~= server_body(m));
                    }
                    return Some(m);
                }
                proof {
                    assert forall|m: ServerMessage| !(m.wf() && b@ == server_body(m)) by {
                        if m.wf() && b@ == server_body(m) {
                            match m {
                                ServerMessage::Connection(idc) => {
                                    assert(ascii_bytes("\"}"@) =~= seq![0x22u8, 0x7du8]);
                                    assert(b@ =~= ascii_bytes("{\"Connection\":\""@) + (uuid_text(idc@)
                                        + seq![0x22u8, 0x7du8]));
                                    assert(b@.skip(j as int) =~= uuid_text(idc@) + seq![
                                        0x22u8,
                                        0x7du8,
                                    ]);
                                    crate::ids::lemma_uuid_text_len(idc@);
                                    assert(b@.skip(j as int).len() == n - j);
                                    assert(j + 38 == n);
                                    assert(b@.subrange(j as int, j + 36) =~= uuid_text(idc@)) by {
                                        assert(forall|t: int|
                                            0 <= t < 36 ==> b@.skip(j as int)[t] == b@[j + t]);
                                    }
                                    assert(uuid_text(idc@) == uuid_text(id@));
                                    crate::ids::lemma_uuid_text_round_trip(idc@);
                                    crate::ids::lemma_uuid_text_round_trip(id@);
                                    assert(idc@ == id@);
                                    assert(b@[end as int] == b@.skip(j as int)[36]);
                                    assert(b@[end as int] == 0x22);
                                    assert(b@[end + 1] == b@.skip(j as int)[37]);
                                    assert(b@[end + 1] == 0x7d);
                                    assert(end + 2 == n);
                                    assert(b@.subrange(end as int, end + 2) =~= seq![
                                        0x22u8,
                                        0x7du8,
                                    ]);
                                    assert(false);
                                },
                                ServerMessage::Challenge(_) => {
                                    assert(b@[3] == ascii_bytes("{\"Challenge\":\""@)[3]);
                                    assert(b@.subrange(0, j as int)[3] == b@[3]);
                                },
                                ServerMessage::Hello(_) => {
                                    assert(b@[2] == ascii_bytes("{\"Hello\":"@)[2]);
                                    assert(b@.subrange(0, j as int)[2] == b@[2]);
                                },
                                ServerMessage::Heartbeat => {
                                    assert(b@[2] == ascii_bytes("{\"Heartbeat\":null}"@)[2]);
                                    assert(b@.subrange(0, j as int)[2] == b@[2]);
                                },
                                ServerMessage::Error(_) => {
                                    assert(b@[2] == ascii_bytes("{\"Error\":\""@)[2]);
                                    assert(b@.subrange(0, j as int)[2] == b@[2]);
                                },
                            }
                        }
                    }
                }
                return None;
            },
        }
    }

    if let Some(j) = match_lit(b, 0, "{\"Heartbeat\":null}") {
        if j == n {
            let m = ServerMessage::Heartbeat;
            proof {
                assert(b@ =~= b@.subrange(0, j as int));
                assert(b@ =~= server_body(m));
            }
            return Some(m);
        }
        proof {
            assert forall|m: ServerMessage| !(m.wf() && b@ == server_body(m)) by {
                if m.wf() && b@ == server_body(m) {
                    match m {
                        ServerMessage::Heartbeat => {
                            assert(b@ == ascii_bytes("{\"Heartbeat\":null}"@));
                            assert(b@.len() == ascii_bytes("{\"Heartbeat\":null}"@).len());
                        },
                                ServerMessage::Challenge(_) => {
                                    assert(b@[2] == ascii_bytes("{\"Challenge\":\""@)[2]);
                                    assert(b@.subrange(0, j as int)[2] == b@[2]);
                                },
                                ServerMessage::Hello(_) => {
                                    assert(b@[4] == ascii_bytes("{\"Hello\":"@)[4]);
                                    assert(b@.subrange(0, j as int)[4] == b@[4]);
                                },
                                ServerMessage::Connection(_) => {
                                    assert(b@[2] == ascii_bytes("{\"Connection\":\""@)[2]);
                                    assert(b@.subrange(0, j as int)[2] == b@[2]);
                                },
                                ServerMessage::Error(_) => {
                                    assert(b@[2] == ascii_bytes("{\"Error\":\""@)[2]);
                                    assert(b@.subrange(0, j as int)[2] == b@[2]);
                                },
                    }
                }
            }
        }
        return None;
    }
    if let Some(j) = match_lit(b, 0, "{\"Error\":\"") {
        match parse_json_string(b, j) {
            None => {
                proof {
                    assert forall|m: ServerMessage| !(m.wf() && b@ == server_body(m)) by {
                        if m.wf() && b@ == server_body(m) {
                            match m {
                                ServerMessage::Error(t) => {
                                    assert(ascii_bytes("\"}"@) =~= seq![0x22u8, 0x7du8]);
                                    assert(b@ =~= ascii_bytes("{\"Error\":\""@) + (json_escape(t@) + seq![
                                        0x22u8,
                                    ] + seq![0x7du8]));
                                    assert(b@.skip(j as int) =~= json_escape(t@) + seq![0x22u8]
                                        + seq![0x7du8]);
                                    assert(false);
                                },
                                ServerMessage::Challenge(_) => {
                                    assert(b@[2] == ascii_bytes("{\"Challenge\":\""@)[2]);
                                    assert(b@.subrange(0, j as int)[2] == b@[2]);
                                },
                                ServerMessage::Hello(_) => {
                                    assert(b@[2] == ascii_bytes("{\"Hello\":"@)[2]);
                                    assert(b@.subrange(0, j as int)[2] == b@[2]);
                                },
                                ServerMessage::Connection(_) => {
                                    assert(b@[2] == ascii_bytes("{\"Connection\":\""@)[2]);
                                    assert(b@.subrange(0, j as int)[2] == b@[2]);
                                },
                                ServerMessage::Heartbeat => {
                                    assert(b@[2] == ascii_bytes("{\"Heartbeat\":null}"@)[2]);
                                    assert(b@.subrange(0, j as int)[2] == b@[2]);
                                },
                            }
                        }
                    }
                }
                return None;
            },
            Some((content, end)) => {
                let trailing = match_lit(b, end, "}");
                let done = match trailing {
                    Some(k) => k == n,
                    None => false,
                };
                if done {
                    let m = ServerMessage::Error(content);
                    proof {
                        assert(b@ =~= b@.subrange(0, j as int) + b@.subrange(j as int, end as int)
                            + b@.subrange(end as int, n as int));
                        assert(b@ =~= server_body(m));
                    }
                    return Some(m);
                }
                proof {
                    assert forall|m: ServerMessage| !(m.wf() && b@ == server_body(m)) by {
                        if m.wf() && b@ == server_body(m) {
                            match m {
                                ServerMessage::Error(t) => {
                                    assert(ascii_bytes("\"}"@) =~= seq![0x22u8, 0x7du8]);
                                    assert(b@ =~= ascii_bytes("{\"Error\":\""@) + (json_escape(t@) + seq![
                                        0x22u8,
                                    ] + seq![0x7du8]));
                                    assert(b@.skip(j as int) =~= json_escape(t@) + seq![0x22u8]
                                        + seq![0x7du8]);
                                    assert(b@.skip(j as int) =~= b@.subrange(j as int, end as int)
                                        + b@.skip(end as int));
                                    assert(b@.skip(j as int) =~= json_escape(content@) + seq![
                                        0x22u8,
                                    ] + b@.skip(end as int));
                                    crate::jsontext::lemma_escaped_string_deterministic(
                                        t@,
                                        content@,
                                        seq![0x7du8],
                                        b@.skip(end as int),
                                    );
                                    assert(b@.skip(end as int).len() == n - end);
                                    assert(n - end == 1);
                                    assert(b@.skip(end as int)[0] == b@[end as int]);
                                    assert(b@[end as int] == 0x7d);
                                    assert(b@.subrange(end as int, end + 1) =~= seq![0x7du8]);
                                    assert(ascii_bytes("}"@) =~= seq![0x7du8]);
                                    assert(false);
                                },
                                ServerMessage::Challenge(_) => {
                                    assert(b@[2] == ascii_bytes("{\"Challenge\":\""@)[2]);
                                    assert(b@.subrange(0, j as int)[2] == b@[2]);
                                },
                                ServerMessage::Hello(_) => {
                                    assert(b@[2] == ascii_bytes("{\"Hello\":"@)[2]);
                                    assert(b@.subrange(0, j as int)[2] == b@[2]);
                                },
                                ServerMessage::Connection(_) => {
                                    assert(b@[2] == ascii_bytes("{\"Connection\":\""@)[2]);
                                    assert(b@.subrange(0, j as int)[2] == b@[2]);
                                },
                                ServerMessage::Heartbeat => {
                                    assert(b@[2] == ascii_bytes("{\"Heartbeat\":null}"@)[2]);
                                    assert(b@.subrange(0, j as int)[2] == b@[2]);
                                },
                            }
                        }
                    }
                }
                return None;
            },
        }
    }
    proof {
        assert forall|m: ServerMessage| !(m.wf() && b@ == server_body(m)) by {
            if m.wf() && b@ == server_body(m) {
                match m {
                    ServerMessage::Challenge(idc) => {
                        let lit = ascii_bytes("{\"Challenge\":\""@);
                        assert(b@ =~= lit + (uuid_text(idc@) + ascii_bytes("\"}"@)));
                        assert(b@.subrange(0, lit.len() as int) =~= lit);
                    },
                    ServerMessage::Hello(p) => {
                        let lit = ascii_bytes("{\"Hello\":"@);
                        assert(b@ =~= lit + (dec_rep(p as nat) + ascii_bytes("}"@)));
                        assert(b@.subrange(0, lit.len() as int) =~= lit);
                    },
                    ServerMessage::Connection(idc) => {
                        let lit = ascii_bytes("{\"Connection\":\""@);
                        assert(b@ =~= lit + (uuid_text(idc@) + ascii_bytes("\"}"@)));
                        assert(b@.subrange(0, lit.len() as int) =~= lit);
                    },
                    ServerMessage::Heartbeat => {
                        let lit = ascii_bytes("{\"Heartbeat\":null}"@);
                        assert(b@ =~= lit);
                        assert(b@ =~= lit + Seq::<u8>::empty());
                        assert(b@.subrange(0, lit.len() as int) =~= lit);
                    },
                    ServerMessage::Error(t) => {
                        let lit = ascii_bytes("{\"Error\":\""@);
                        assert(b@ =~= lit + (json_escape(t@) + ascii_bytes("\"}"@)));
                        assert(b@.subrange(0, lit.len() as int) =~= lit);
                    },
                }
            }
        }
    }
    None
}

/// Reads exactly the canonical lowercase hyphenated text of an identifier.
fn parse_canonical_uuid(b: &[u8], start: usize) -> (r: Option<(UuidBytes, usize)>)
    requires
        start <= b@.len(),
    ensures
        match r {
            Some((id, end)) => {
                &&& id.wf()
                &&& start <= end <= b@.len()
                &&& end == start + 36
                &&& b@.subrange(start as int, end as int) == uuid_text(id@)
            },
            None => forall|idb: Seq<u8>|
                idb.len() == 16 ==> start + 36 > b@.len() || b@.subrange(start as int, start + 36)
                    != uuid_text(idb),
        },
{
    let n = b.len();
    if n - start < 36 {
        return None;
    }
    let piece = vstd::slice::slice_subrange(b, start, start + 36);
    let parsed = parse_uuid_text(piece);
    if let Some(id) = parsed {
        let mut canon: Vec<u8> = Vec::new();
        push_uuid_text(&mut canon, &id);
        let piece_vec = vstd::slice::slice_to_vec(piece);
        if canon == piece_vec {
            proof {
                assert(canon@ =~= piece_vec@);
                assert(b@.subrange(start as int, start + 36) == uuid_text(id@));
            }
            return Some((id, start + 36));
        }
        proof {
            assert forall|idb: Seq<u8>|
                idb.len() == 16 implies b@.subrange(start as int, start + 36) != uuid_text(
                idb,
            ) by {
                if b@.subrange(start as int, start + 36) == uuid_text(idb) {
                    crate::ids::lemma_uuid_text_round_trip(idb);
                    assert(crate::ids::uuid_parsed(piece@) == Some(idb));
                    assert(id@ == idb);
                    assert(canon@ =~= piece_vec@);
                }
            }
        }
        return None;
    }
    proof {
        assert forall|idb: Seq<u8>|
            idb.len() == 16 implies b@.subrange(start as int, start + 36) != uuid_text(idb) by {
            if b@.subrange(start as int, start + 36) == uuid_text(idb) {
                crate::ids::lemma_uuid_text_round_trip(idb);
                assert(crate::ids::uuid_parsed(piece@) == Some(idb));
            }
        }
    }
    None
}

/// Encodes a whole client frame, or `None` when the body would exceed the
/// frame ceiling.
pub fn encode_client_frame(m: &ClientMessage) -> (r: Option<Vec<u8>>)
    requires
        m.wf(),
    ensures
        match r {
            Some(v) => client_body(*m).len() <= MAX_FRAME_LENGTH && v@ == frame_of(client_body(*m)),
            None => client_body(*m).len() > MAX_FRAME_LENGTH,
        },
{
    let body = encode_client_body(m);
    if body.len() <= MAX_FRAME_LENGTH {
        Some(encode_frame(body.as_slice()))
    } else {
        None
    }
}

/// Encodes a whole server frame, or `None` when the body would exceed the
/// frame ceiling.
pub fn encode_server_frame(m: &ServerMessage) -> (r: Option<Vec<u8>>)
    requires
        m.wf(),
    ensures
        match r {
            Some(v) => server_body(*m).len() <= MAX_FRAME_LENGTH && v@ == frame_of(server_body(*m)),
            None => server_body(*m).len() > MAX_FRAME_LENGTH,
        },
{
    let body = encode_server_body(m);
    if body.len() <= MAX_FRAME_LENGTH {
        Some(encode_frame(body.as_slice()))
    } else {
        None
    }
}

/// Splits and decodes one client message off the head of a receive buffer.
///
/// A whole frame whose consumed byte count is returned occupies exactly the
/// length digits, the separating space, and the declared number of payload
/// bytes.
pub fn decode_client_frame(buf: &[u8]) -> (r: Result<Option<(ClientMessage, usize)>, FrameError>)
    ensures
        match r {
            Ok(Some((m, consumed))) => m.wf() && parse_frame(buf@) == FrameOutcome::Payload(
                client_body(m),
                consumed as int,
            ),
            Ok(None) => parse_frame(buf@) is Incomplete,
            Err(FrameError::FrameTooLarge) => parse_frame(buf@) is TooLarge,
            Err(FrameError::Malformed) => parse_frame(buf@) is Bad || (parse_frame(buf@)
                matches FrameOutcome::Payload(pl, _) && forall|m: ClientMessage|
                !(m.wf() && pl == client_body(m))),
        },
{
    match split_frame(buf) {
        Ok(Some((payload, consumed))) => match decode_client_body(payload.as_slice()) {
            Some(m) => Ok(Some((m, consumed))),
            None => Err(FrameError::Malformed),
        },
        Ok(None) => Ok(None),
        Err(e) => Err(e),
    }
}

/// Splits and decodes one server message off the head of a receive buffer.
pub fn decode_server_frame(buf: &[u8]) -> (r: Result<Option<(ServerMessage, usize)>, FrameError>)
    ensures
        match r {
            Ok(Some((m, consumed))) => m.wf() && parse_frame(buf@) == FrameOutcome::Payload(
                server_body(m),
                consumed as int,
            ),
            Ok(None) => parse_frame(buf@) is Incomplete,
            Err(FrameError::FrameTooLarge) => parse_frame(buf@) is TooLarge,
            Err(FrameError::Malformed) => parse_frame(buf@) is Bad || (parse_frame(buf@)
                matches FrameOutcome::Payload(pl, _) && forall|m: ServerMessage|
                !(m.wf() && pl == server_body(m))),
        },
{
    match split_frame(buf) {
        Ok(Some((payload, consumed))) => match decode_server_body(payload.as_slice()) {
            Some(m) => Ok(Some((m, consumed))),
            None => Err(FrameError::Malformed),
        },
        Ok(None) => Ok(None),
        Err(e) => Err(e),
    }
}

} // verus!

use crate::ids::{lemma_uuid_text_len, lemma_uuid_text_round_trip, uuid_parsed};
use crate::jsontext::lemma_escaped_string_deterministic;
use crate::wire::{dec_val, is_digit, lemma_dec_rep_shape, lemma_dec_val_of_rep,
    lemma_digit_run_of_framed, digit_run};

verus! {

/// Two byte strings that agree after a common prefix agree.
proof fn lemma_strip_prefix(p: Seq<u8>, a: Seq<u8>, b: Seq<u8>)
    requires
        p + a == p + b,
    ensures
        a == b,
{
    assert((p + a).len() == p.len() + a.len());
    assert((p + b).len() == p.len() + b.len());
    assert(a.len() == b.len());
    assert(a =~= b) by {
        assert(forall|i: int|
            0 <= i < a.len() ==> (p + a)[p.len() + i] == a[i] && (p + b)[p.len() + i] == b[i]);
    }
}

/// A canonical number followed by a non-digit determines the number and the
/// tail.
proof fn lemma_number_tail(n1: nat, n2: nat, t1: Seq<u8>, t2: Seq<u8>)
    requires
        dec_rep(n1) + t1 == dec_rep(n2) + t2,
        t1.len() > 0,
        t2.len() > 0,
        !is_digit(t1[0]),
        !is_digit(t2[0]),
    ensures
        n1 == n2,
        t1 == t2,
{
    lemma_dec_rep_shape(n1);
    lemma_dec_rep_shape(n2);
    lemma_digit_run_of_framed(dec_rep(n1), t1);
    lemma_digit_run_of_framed(dec_rep(n2), t2);
    assert(digit_run(dec_rep(n1) + t1) == dec_rep(n1).len());
    assert(digit_run(dec_rep(n2) + t2) == dec_rep(n2).len());
    assert(dec_rep(n1).len() == dec_rep(n2).len());
    assert(dec_rep(n1) =~= dec_rep(n2)) by {
        assert(forall|i: int|
            0 <= i < dec_rep(n1).len() ==> (dec_rep(n1) + t1)[i] == dec_rep(n1)[i] && (dec_rep(n2)
                + t2)[i] == dec_rep(n2)[i]);
    }
    lemma_dec_val_of_rep(n1);
    lemma_dec_val_of_rep(n2);
    lemma_strip_prefix(dec_rep(n1), t1, t2);
}

/// An identifier's text followed by anything determines the identifier and
/// the tail.
proof fn lemma_uuid_tail(b1: Seq<u8>, b2: Seq<u8>, t1: Seq<u8>, t2: Seq<u8>)
    requires
        b1.len() == 16,
        b2.len() == 16,
        uuid_text(b1) + t1 == uuid_text(b2) + t2,
    ensures
        b1 == b2,
        t1 == t2,
{
    lemma_uuid_text_len(b1);
    lemma_uuid_text_len(b2);
    assert(uuid_text(b1) =~= uuid_text(b2)) by {
        assert(forall|i: int|
            0 <= i < 36 ==> (uuid_text(b1) + t1)[i] == uuid_text(b1)[i] && (uuid_text(b2) + t2)[i]
                == uuid_text(b2)[i]);
    }
    lemma_uuid_text_round_trip(b1);
    lemma_uuid_text_round_trip(b2);
    assert(uuid_parsed(uuid_text(b1)) == Some(b1));
    assert(uuid_parsed(uuid_text(b2)) == Some(b2));
    lemma_strip_prefix(uuid_text(b1), t1, t2);
}

/// The canonical wire form is unambiguous: two well-formed client messages
/// with the same body are the same message.
pub proof fn lemma_client_body_injective(m1: ClientMessage, m2: ClientMessage)
    requires
        m1.wf(),
        m2.wf(),
        client_body(m1) == client_body(m2),
    ensures
        match (m1, m2) {
            (ClientMessage::Authenticate(a), ClientMessage::Authenticate(b)) => a@ == b@,
            (ClientMessage::Hello(p), ClientMessage::Hello(q)) => p == q,
            (ClientMessage::Accept(x), ClientMessage::Accept(y)) => x@ == y@,
            _ => false,
        },
{
    reveal_strlit("{\"Authenticate\":\"");
    reveal_strlit("{\"Hello\":");
    reveal_strlit("{\"Accept\":\"");
    reveal_strlit("\"}");
    reveal_strlit("}");
    let s = client_body(m1);
    match (m1, m2) {
        (ClientMessage::Authenticate(a), ClientMessage::Authenticate(b)) => {
            let lit = ascii_bytes("{\"Authenticate\":\""@);
            assert(client_body(m1) =~= lit + (json_escape(a@) + seq![0x22u8] + seq![0x7du8]));
            assert(client_body(m2) =~= lit + (json_escape(b@) + seq![0x22u8] + seq![0x7du8]));
            lemma_strip_prefix(
                lit,
                json_escape(a@) + seq![0x22u8] + seq![0x7du8],
                json_escape(b@) + seq![0x22u8] + seq![0x7du8],
            );
            lemma_escaped_string_deterministic(a@, b@, seq![0x7du8], seq![0x7du8]);
        },
        (ClientMessage::Hello(p), ClientMessage::Hello(q)) => {
            let lit = ascii_bytes("{\"Hello\":"@);
            assert(client_body(m1) =~= lit + (dec_rep(p as nat) + seq![0x7du8]));
            assert(client_body(m2) =~= lit + (dec_rep(q as nat) + seq![0x7du8]));
            lemma_strip_prefix(lit, dec_rep(p as nat) + seq![0x7du8], dec_rep(q as nat) + seq![
                0x7du8,
            ]);
            lemma_number_tail(p as nat, q as nat, seq![0x7du8], seq![0x7du8]);
        },
        (ClientMessage::Accept(x), ClientMessage::Accept(y)) => {
            let lit = ascii_bytes("{\"Accept\":\""@);
            assert(client_body(m1) =~= lit + (uuid_text(x@) + seq![0x22u8, 0x7du8]));
            assert(client_body(m2) =~= lit + (uuid_text(y@) + seq![0x22u8, 0x7du8]));
            lemma_strip_prefix(
                lit,
                uuid_text(x@) + seq![0x22u8, 0x7du8],
                uuid_text(y@) + seq![0x22u8, 0x7du8],
            );
            lemma_uuid_tail(x@, y@, seq![0x22u8, 0x7du8], seq![0x22u8, 0x7du8]);
        },
        (ClientMessage::Authenticate(_), ClientMessage::Hello(_)) => {
            assert(s[2] == 0x41 && s[2] == 0x48);
        },
        (ClientMessage::Hello(_), ClientMessage::Authenticate(_)) => {
            assert(s[2] == 0x48 && s[2] == 0x41);
        },
        (ClientMessage::Authenticate(_), ClientMessage::Accept(_)) => {
            assert(s[3] == 0x75 && s[3] == 0x63);
        },
        (ClientMessage::Accept(_), ClientMessage::Authenticate(_)) => {
            assert(s[3] == 0x63 && s[3] == 0x75);
        },
        (ClientMessage::Hello(_), ClientMessage::Accept(_)) => {
            assert(s[2] == 0x48 && s[2] == 0x41);
        },
        (ClientMessage::Accept(_), ClientMessage::Hello(_)) => {
            assert(s[2] == 0x41 && s[2] == 0x48);
        },
    }
}

} // verus!

verus! {

/// The canonical wire form is unambiguous: two well-formed server messages
/// with the same body are the same message.
pub proof fn lemma_server_body_injective(m1: ServerMessage, m2: ServerMessage)
    requires
        m1.wf(),
        m2.wf(),
        server_body(m1) == server_body(m2),
    ensures
        match (m1, m2) {
            (ServerMessage::Challenge(x), ServerMessage::Challenge(y)) => x@ == y@,
            (ServerMessage::Hello(p), ServerMessage::Hello(q)) => p == q,
            (ServerMessage::Connection(x), ServerMessage::Connection(y)) => x@ == y@,
            (ServerMessage::Heartbeat, ServerMessage::Heartbeat) => true,
            (ServerMessage::Error(a), ServerMessage::Error(b)) => a@ == b@,
            _ => false,
        },
{
    reveal_strlit("{\"Challenge\":\"");
    reveal_strlit("{\"Hello\":");
    reveal_strlit("{\"Connection\":\"");
    reveal_strlit("{\"Heartbeat\":null}");
    reveal_strlit("{\"Error\":\"");
    reveal_strlit("\"}");
    reveal_strlit("}");
    let s = server_body(m1);
    match (m1, m2) {
        (ServerMessage::Challenge(x), ServerMessage::Challenge(y)) => {
            let lit = ascii_bytes("{\"Challenge\":\""@);
            assert(server_body(m1) =~= lit + (uuid_text(x@) + seq![0x22u8, 0x7du8]));
            assert(server_body(m2) =~= lit + (uuid_text(y@) + seq![0x22u8, 0x7du8]));
            lemma_strip_prefix(
                lit,
                uuid_text(x@) + seq![0x22u8, 0x7du8],
                uuid_text(y@) + seq![0x22u8, 0x7du8],
            );
            lemma_uuid_tail(x@, y@, seq![0x22u8, 0x7du8], seq![0x22u8, 0x7du8]);
        },
        (ServerMessage::Hello(p), ServerMessage::Hello(q)) => {
            let lit = ascii_bytes("{\"Hello\":"@);
            assert(server_body(m1) =~= lit + (dec_rep(p as nat) + seq![0x7du8]));
            assert(server_body(m2) =~= lit + (dec_rep(q as nat) + seq![0x7du8]));
            lemma_strip_prefix(lit, dec_rep(p as nat) + seq![0x7du8], dec_rep(q as nat) + seq![
                0x7du8,
            ]);
            lemma_number_tail(p as nat, q as nat, seq![0x7du8], seq![0x7du8]);
        },
        (ServerMessage::Connection(x), ServerMessage::Connection(y)) => {
            let lit = ascii_bytes("{\"Connection\":\""@);
            assert(server_body(m1) =~= lit + (uuid_text(x@) + seq![0x22u8, 0x7du8]));
            assert(server_body(m2) =~= lit + (uuid_text(y@) + seq![0x22u8, 0x7du8]));
            lemma_strip_prefix(
                lit,
                uuid_text(x@) + seq![0x22u8, 0x7du8],
                uuid_text(y@) + seq![0x22u8, 0x7du8],
            );
            lemma_uuid_tail(x@, y@, seq![0x22u8, 0x7du8], seq![0x22u8, 0x7du8]);
        },
        (ServerMessage::Heartbeat, ServerMessage::Heartbeat) => {},
        (ServerMessage::Error(a), ServerMessage::Error(b)) => {
            let lit = ascii_bytes("{\"Error\":\""@);
            assert(server_body(m1) =~= lit + (json_escape(a@) + seq![0x22u8] + seq![0x7du8]));
            assert(server_body(m2) =~= lit + (json_escape(b@) + seq![0x22u8] + seq![0x7du8]));
            lemma_strip_prefix(
                lit,
                json_escape(a@) + seq![0x22u8] + seq![0x7du8],
                json_escape(b@) + seq![0x22u8] + seq![0x7du8],
            );
            lemma_escaped_string_deterministic(a@, b@, seq![0x7du8], seq![0x7du8]);
        },
        (ServerMessage::Challenge(_), ServerMessage::Hello(_)) => {
            assert(s[2] == 0x43 && s[2] == 0x48);
        },
        (ServerMessage::Challenge(_), ServerMessage::Connection(_)) => {
            assert(s[3] == 0x68 && s[3] == 0x6f);
        },
        (ServerMessage::Challenge(_), ServerMessage::Heartbeat) => {
            assert(s[2] == 0x43 && s[2] == 0x48);
        },
        (ServerMessage::Challenge(_), ServerMessage::Error(_)) => {
            assert(s[2] == 0x43 && s[2] == 0x45);
        },
        (ServerMessage::Hello(_), ServerMessage::Challenge(_)) => {
            assert(s[2] == 0x48 && s[2] == 0x43);
        },
        (ServerMessage::Hello(_), ServerMessage::Connection(_)) => {
            assert(s[2] == 0x48 && s[2] == 0x43);
        },
        (ServerMessage::Hello(_), ServerMessage::Heartbeat) => {
            assert(s[4] == 0x6c && s[4] == 0x61);
        },
        (ServerMessage::Hello(_), ServerMessage::Error(_)) => {
            assert(s[2] == 0x48 && s[2] == 0x45);
        },
        (ServerMessage::Connection(_), ServerMessage::Challenge(_)) => {
            assert(s[3] == 0x6f && s[3] == 0x68);
        },
        (ServerMessage::Connection(_), ServerMessage::Hello(_)) => {
            assert(s[2] == 0x43 && s[2] == 0x48);
        },
        (ServerMessage::Connection(_), ServerMessage::Heartbeat) => {
            assert(s[2] == 0x43 && s[2] == 0x48);
        },
        (ServerMessage::Connection(_), ServerMessage::Error(_)) => {
            assert(s[2] == 0x43 && s[2] == 0x45);
        },
        (ServerMessage::Heartbeat, ServerMessage::Challenge(_)) => {
            assert(s[2] == 0x48 && s[2] == 0x43);
        },
        (ServerMessage::Heartbeat, ServerMessage::Hello(_)) => {
            assert(s[4] == 0x61 && s[4] == 0x6c);
        },
        (ServerMessage::Heartbeat, ServerMessage::Connection(_)) => {
            assert(s[2] == 0x48 && s[2] == 0x43);
        },
        (ServerMessage::Heartbeat, ServerMessage::Error(_)) => {
            assert(s[2] == 0x48 && s[2] == 0x45);
        },
        (ServerMessage::Error(_), ServerMessage::Challenge(_)) => {
            assert(s[2] == 0x45 && s[2] == 0x43);
        },
        (ServerMessage::Error(_), ServerMessage::Hello(_)) => {
            assert(s[2] == 0x45 && s[2] == 0x48);
        },
        (ServerMessage::Error(_), ServerMessage::Connection(_)) => {
            assert(s[2] == 0x45 && s[2] == 0x43);
        },
        (ServerMessage::Error(_), ServerMessage::Heartbeat) => {
            assert(s[2] == 0x45 && s[2] == 0x48);
        },
    }
}

} // verus!
