//! HMAC-SHA256 challenge/response authentication for the legacy shared-secret
//! mode.  The MAC key is the SHA-256 hash of the secret, which uniformizes
//! weak secrets; tags travel as lowercase hexadecimal.

use vstd::prelude::*;
use vstd::string::StringSliceAdditionalSpecFns;
use vstd::utf8::{valid_utf8, valid_first_scalar, pop_first_scalar, length_of_first_scalar};
use hmac::Mac;
use sha2::Digest;
use crate::hexcode::{hex_decode, hex_decoded, hex_encode, hex_of, is_hex_digit,
    lemma_hex_round_trip};
use crate::ids::UuidBytes;
use crate::jsontext::{append_lit, ascii_bytes};
use crate::msg::ClientMessage;

verus! {

/// The SHA-256 digest of a byte string.
pub uninterp spec fn sha256_of(data: Seq<u8>) -> Seq<u8>;

/// The HMAC-SHA256 tag over a message under a key.
pub uninterp spec fn hmac_sha256_of(key: Seq<u8>, msg: Seq<u8>) -> Seq<u8>;

/// Relies on `sha2::Sha256` through `Digest::digest`: the digest is a
/// function of the input alone and is 32 bytes long.
#[verifier::external_body]
fn sha256(data: &[u8]) -> (r: Vec<u8>)
    ensures
        r@ == sha256_of(data@),
        r@.len() == 32,
{
    sha2::Sha256::digest(data).to_vec()
}

/// Relies on `hmac::Hmac<Sha256>` through `Mac`: the tag is a function of
/// the key and the message alone and is 32 bytes long.  HMAC accepts keys of
/// any length.
#[verifier::external_body]
fn hmac_tag(key: &[u8], msg: &[u8]) -> (r: Vec<u8>)
    ensures
        r@ == hmac_sha256_of(key@, msg@),
        r@.len() == 32,
{
    let mut mac = <hmac::Hmac<sha2::Sha256> as Mac>::new_from_slice(key)
        .expect("HMAC accepts keys of any length");
    mac.update(msg);
    mac.finalize().into_bytes().to_vec()
}

/// Relies on `Mac::verify_slice` of `hmac::Hmac<Sha256>`: it succeeds exactly
/// when the tag equals the computed MAC, compared in constant time.
#[verifier::external_body]
fn hmac_verify(key: &[u8], msg: &[u8], tag: &[u8]) -> (r: bool)
    ensures
        r == (tag@ == hmac_sha256_of(key@, msg@)),
{
    let mut mac = <hmac::Hmac<sha2::Sha256> as Mac>::new_from_slice(key)
        .expect("HMAC accepts keys of any length");
    mac.update(msg);
    mac.verify_slice(tag).is_ok()
}

/// Whether a received hexadecimal tag matches the MAC of `msg` under `key`:
/// the tag must decode as hexadecimal and equal the MAC.  Invalid
/// hexadecimal never matches.
pub open spec fn tag_matches(key: Seq<u8>, msg: Seq<u8>, tag: Seq<u8>) -> bool {
    match hex_decoded(tag) {
        Some(raw) => raw == hmac_sha256_of(key, msg),
        None => false,
    }
}

/// Authenticates peers that share a secret.
pub struct Authenticator {
    key: Vec<u8>,
}

impl Authenticator {
    /// The derived MAC key.
    pub closed spec fn key(&self) -> Seq<u8> {
        self.key@
    }

    /// Derives the MAC key from a secret by hashing it with SHA-256.
    pub fn new(secret: &str) -> (r: Authenticator)
        ensures
            r.key() == sha256_of(secret.spec_bytes()),
    {
        Authenticator { key: sha256(secret.as_bytes()) }
    }

    /// Derives the MAC key from the raw bytes of a secret.
    pub fn from_secret_bytes(secret: &[u8]) -> (r: Authenticator)
        ensures
            r.key() == sha256_of(secret@),
    {
        Authenticator { key: sha256(secret) }
    }

    /// Answers a challenge: the MAC of the nonce bytes, in lowercase
    /// hexadecimal.
    pub fn answer(&self, challenge: &UuidBytes) -> (r: Vec<u8>)
        ensures
            r@ == hex_of(hmac_sha256_of(self.key(), challenge@)),
            tag_matches(self.key(), challenge@, r@),
    {
        let tag = hmac_tag(self.key.as_slice(), challenge.as_bytes().as_slice());
        let encoded = hex_encode(tag.as_slice());
        proof {
            lemma_hex_round_trip(tag@);
        }
        encoded
    }

    /// Validates a received tag against a challenge: hexadecimal decoding
    /// followed by a constant-time comparison with the expected MAC.
    pub fn validate(&self, challenge: &UuidBytes, tag: &[u8]) -> (r: bool)
        ensures
            r == tag_matches(self.key(), challenge@, tag@),
    {
        match hex_decode(tag) {
            Some(raw) => hmac_verify(
                self.key.as_slice(),
                challenge.as_bytes().as_slice(),
                raw.as_slice(),
            ),
            None => false,
        }
    }

    /// The client's reply to a challenge: an `Authenticate` message holding
    /// the answer tag.
    pub fn challenge_reply(&self, challenge: &UuidBytes) -> (r: ClientMessage)
        ensures
            r matches ClientMessage::Authenticate(t) && t@ == hex_of(
                hmac_sha256_of(self.key(), challenge@),
            ),
            r.wf(),
    {
        let t = self.answer(challenge);
        proof {
            lemma_hex_of_ascii(hmac_sha256_of(self.key(), challenge@));
            lemma_ascii_valid_utf8(t@);
        }
        ClientMessage::Authenticate(t)
    }

    /// The server's judgement of the first reply to its challenge: accepted
    /// exactly when the reply is an `Authenticate` frame whose tag matches.
    pub fn server_handshake_check(&self, challenge: &UuidBytes, reply: &Option<ClientMessage>)
        -> (r: Result<(), AuthError>)
        ensures
            r is Ok <==> (match reply {
                Some(ClientMessage::Authenticate(t)) => tag_matches(
                    self.key(),
                    challenge@,
                    t@,
                ),
                _ => false,
            }),
            r == Err::<(), AuthError>(AuthError::InvalidSecret) <==> (match reply {
                Some(ClientMessage::Authenticate(t)) => !tag_matches(
                    self.key(),
                    challenge@,
                    t@,
                ),
                _ => false,
            }),
            r == Err::<(), AuthError>(AuthError::MissingAuthenticate) <==> !(reply matches Some(
                ClientMessage::Authenticate(_),
            )),
    {
        match reply {
            Some(ClientMessage::Authenticate(t)) => {
                if self.validate(challenge, t.as_slice()) {
                    Ok(())
                } else {
                    Err(AuthError::InvalidSecret)
                }
            },
            _ => Err(AuthError::MissingAuthenticate),
        }
    }
}

/// Why a legacy handshake failed.
#[derive(Debug, PartialEq, Eq, Structural, Clone, Copy)]
pub enum AuthError {
    /// The tag did not match the expected MAC.
    InvalidSecret,
    /// The peer did not answer the challenge with an `Authenticate` frame.
    MissingAuthenticate,
}

impl AuthError {
    /// The single-line message reported to the peer.
    pub fn message(&self) -> (r: Vec<u8>)
        ensures
            *self == AuthError::InvalidSecret ==> r@ == ascii_bytes("invalid secret"@),
            *self == AuthError::MissingAuthenticate ==> r@ == ascii_bytes(
                "server requires secret, but no secret was provided"@,
            ),
            valid_utf8(r@),
    {
        let mut out: Vec<u8> = Vec::new();
        match self {
            AuthError::InvalidSecret => {
                proof {
                    reveal_strlit("invalid secret");
                }
                append_lit(&mut out, "invalid secret");
            },
            AuthError::MissingAuthenticate => {
                proof {
                    reveal_strlit("server requires secret, but no secret was provided");
                }
                append_lit(&mut out, "server requires secret, but no secret was provided");
            },
        }
        proof {
            lemma_ascii_valid_utf8(out@);
        }
        out
    }
}

/// A tag produced by `answer` under the same key always validates.
pub proof fn lemma_answer_validates(key: Seq<u8>, challenge: Seq<u8>)
    ensures
        tag_matches(key, challenge, hex_of(hmac_sha256_of(key, challenge))),
{
    lemma_hex_round_trip(hmac_sha256_of(key, challenge));
}

/// A tag computed under a key whose MAC of the nonce differs never
/// validates: distinct MAC values cannot cross-validate.
pub proof fn lemma_foreign_answer_rejected(key: Seq<u8>, other_key: Seq<u8>, challenge: Seq<u8>)
    requires
        hmac_sha256_of(key, challenge) != hmac_sha256_of(other_key, challenge),
    ensures
        !tag_matches(key, challenge, hex_of(hmac_sha256_of(other_key, challenge))),
{
    lemma_hex_round_trip(hmac_sha256_of(other_key, challenge));
}

/// Every byte of a hexadecimal encoding is an ASCII digit or letter.
pub proof fn lemma_hex_of_ascii(bytes: Seq<u8>)
    ensures
        forall|i: int| 0 <= i < hex_of(bytes).len() ==> hex_of(bytes)[i] < 0x80,
    decreases bytes.len(),
{
    if bytes.len() > 0 {
        lemma_hex_of_ascii(bytes.drop_first());
        assert forall|i: int| 0 <= i < hex_of(bytes).len() implies hex_of(bytes)[i] < 0x80 by {
            if i >= 2 {
                assert(hex_of(bytes)[i] == hex_of(bytes.drop_first())[i - 2]);
            }
        }
    }
}

/// A string of bytes below 0x80 is well-formed UTF-8.
pub proof fn lemma_ascii_valid_utf8(s: Seq<u8>)
    requires
        forall|i: int| 0 <= i < s.len() ==> #[trigger] s[i] < 0x80,
    ensures
        valid_utf8(s),
    decreases s.len(),
{
    if s.len() > 0 {
        assert(s[0] < 0x80);
        assert(valid_first_scalar(s));
        assert(length_of_first_scalar(s) == 1);
        assert(pop_first_scalar(s) =~= s.drop_first());
        assert(forall|i: int|
            0 <= i < s.drop_first().len() ==> #[trigger] s.drop_first()[i] == s[i + 1]);
        lemma_ascii_valid_utf8(s.drop_first());
    }
}

} // verus!
