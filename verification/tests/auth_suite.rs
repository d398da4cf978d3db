//! The HMAC challenge/response authenticator, held against independent
//! computations with the underlying crates.

use hmac::Mac;
use sha2::Digest;

use bore_core::auth::{AuthError, Authenticator};
use bore_core::ids::UuidBytes;
use bore_core::msg::ClientMessage;

fn nonce() -> UuidBytes {
    UuidBytes::from_bytes(vec![
        0x12, 0x34, 0x56, 0x78, 0x9a, 0xbc, 0x4e, 0xf0, 0x81, 0x23, 0x45, 0x67, 0x89, 0xab, 0xcd,
        0xef,
    ])
}

#[test]
fn answer_validates_round_trip() {
    let auth = Authenticator::new("secret");
    let challenge = UuidBytes::new_random();
    let tag = auth.answer(&challenge);
    assert!(auth.validate(&challenge, &tag));
    assert!(!auth.validate(&challenge, b"wrong answer"));
}

#[test]
fn wrong_secret_never_validates() {
    let auth = Authenticator::new("s3cret");
    let other = Authenticator::new("different");
    let challenge = UuidBytes::new_random();
    let foreign_tag = other.answer(&challenge);
    assert!(!auth.validate(&challenge, &foreign_tag));
}

#[test]
fn answer_matches_independent_computation() {
    // The tag must be hex(HMAC_SHA256(SHA256(secret), nonce)), computed here
    // with the crates directly.
    let auth = Authenticator::new("s3cret");
    let challenge = nonce();
    let tag = auth.answer(&challenge);

    let key = sha2::Sha256::digest(b"s3cret");
    let mut mac = hmac::Hmac::<sha2::Sha256>::new_from_slice(&key).unwrap();
    mac.update(challenge.as_bytes());
    let expected = hex::encode(mac.finalize().into_bytes());

    assert_eq!(String::from_utf8(tag).unwrap(), expected);
}

#[test]
fn invalid_hex_tag_fails_without_panicking() {
    let auth = Authenticator::new("secret");
    let challenge = nonce();
    assert!(!auth.validate(&challenge, b"not hex at all!"));
    assert!(!auth.validate(&challenge, b"abc"));
    assert!(!auth.validate(&challenge, b""));
}

#[test]
fn uppercase_tag_of_right_mac_validates() {
    // Hex decoding accepts either case, as the original wire format did.
    let auth = Authenticator::new("secret");
    let challenge = nonce();
    let tag = auth.answer(&challenge);
    let upper: Vec<u8> = tag.iter().map(|b| b.to_ascii_uppercase()).collect();
    assert!(auth.validate(&challenge, &upper));
}

#[test]
fn server_handshake_check_branches() {
    let auth = Authenticator::new("shared");
    let challenge = nonce();

    let good = Some(ClientMessage::Authenticate(auth.answer(&challenge)));
    assert!(auth.server_handshake_check(&challenge, &good).is_ok());

    let bad = Some(ClientMessage::Authenticate(b"00ff".to_vec()));
    assert_eq!(
        auth.server_handshake_check(&challenge, &bad),
        Err(AuthError::InvalidSecret)
    );

    let off_script = Some(ClientMessage::Hello(1));
    assert_eq!(
        auth.server_handshake_check(&challenge, &off_script),
        Err(AuthError::MissingAuthenticate)
    );
    assert_eq!(
        auth.server_handshake_check(&challenge, &None),
        Err(AuthError::MissingAuthenticate)
    );
}

#[test]
fn auth_error_messages() {
    assert_eq!(AuthError::InvalidSecret.message(), b"invalid secret".to_vec());
    assert_eq!(
        AuthError::MissingAuthenticate.message(),
        b"server requires secret, but no secret was provided".to_vec()
    );
}

#[test]
fn challenge_reply_is_the_answer() {
    let auth = Authenticator::new("shared");
    let challenge = nonce();
    match auth.challenge_reply(&challenge) {
        ClientMessage::Authenticate(tag) => assert_eq!(tag, auth.answer(&challenge)),
        other => panic!("expected an Authenticate frame, got {:?}", other),
    }
}
