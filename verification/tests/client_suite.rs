//! The client control state machine: secret classification, the opening
//! frames, the handshake, and the dispatch loop.

use bore_core::auth::Authenticator;
use bore_core::client::{
    after_answer_step, client_opening, dispatch_server_frame, first_response_step, is_managed_key,
    ClientFailure, HandshakeStep, ListenAction,
};
use bore_core::ids::UuidBytes;
use bore_core::instances::{instance_response, TunnelInstance, TunnelStatus};
use bore_core::manage::{find_instance, Credentials, Instance};
use bore_core::msg::{ClientMessage, ServerMessage};

#[test]
fn managed_keys_are_recognised_by_prefix_only() {
    assert!(is_managed_key(b"sk_live_123"));
    assert!(is_managed_key(b"tk_token"));
    assert!(!is_managed_key(b"pk_other"));
    assert!(!is_managed_key(b"sk"));
    assert!(!is_managed_key(b""));
    // A 64-character hex secret is a legacy shared secret, not a managed
    // key: prefix alone decides.
    let hex64 = b"9f8e7d6c5b4a39281706f5e4d3c2b1a09f8e7d6c5b4a39281706f5e4d3c2b1a0";
    assert_eq!(hex64.len(), 64);
    assert!(!is_managed_key(hex64));
}

#[test]
fn managed_opening_sends_authenticate_then_hello() {
    let opening = client_opening(Some(b"sk_abc"), 0);
    assert!(opening.auth.is_none());
    assert_eq!(opening.frames.len(), 2);
    assert!(matches!(&opening.frames[0], ClientMessage::Authenticate(k) if k == &b"sk_abc".to_vec()));
    assert!(matches!(opening.frames[1], ClientMessage::Hello(0)));
}

#[test]
fn legacy_opening_sends_hello_and_keeps_the_authenticator() {
    let opening = client_opening(Some(b"test_secret_123"), 7000);
    assert_eq!(opening.frames.len(), 1);
    assert!(matches!(opening.frames[0], ClientMessage::Hello(7000)));
    let auth = opening.auth.expect("legacy mode keeps an authenticator");
    // The kept authenticator answers exactly like one built from the secret.
    let challenge = UuidBytes::new_random();
    let reference = Authenticator::new("test_secret_123");
    assert_eq!(auth.answer(&challenge), reference.answer(&challenge));
}

#[test]
fn open_opening_sends_hello_alone() {
    let opening = client_opening(None, 8080);
    assert_eq!(opening.frames.len(), 1);
    assert!(matches!(opening.frames[0], ClientMessage::Hello(8080)));
    assert!(opening.auth.is_none());
}

#[test]
fn legacy_hmac_handshake_succeeds_end_to_end() {
    // Server side with secret "s3cret", client side with the same secret:
    // Hello, Challenge(n), Authenticate(hex(HMAC)), Hello(P).
    let server_auth = Authenticator::new("s3cret");
    let opening = client_opening(Some(b"s3cret"), 0);
    let client_auth = opening.auth.expect("legacy secret keeps an authenticator");

    let challenge = UuidBytes::new_random();
    let server_msg = ServerMessage::Challenge(UuidBytes::from_bytes(challenge.as_bytes().clone()));

    let reply = match first_response_step(Some(server_msg), &Some(client_auth)) {
        HandshakeStep::Answer(m) => m,
        _ => panic!("a challenge with a secret in hand must be answered"),
    };
    assert!(server_auth
        .server_handshake_check(&challenge, &Some(reply))
        .is_ok());

    // The server then assigns a port and the client records it.
    match after_answer_step(Some(ServerMessage::Hello(41000))) {
        HandshakeStep::Established(p) => assert_eq!(p, 41000),
        _ => panic!("Hello after authentication establishes the tunnel"),
    }
}

#[test]
fn wrong_secret_handshake_fails() {
    let server_auth = Authenticator::new("s3cret");
    let opening = client_opening(Some(b"wrong-secret"), 0);
    let client_auth = opening.auth.unwrap();
    let challenge = UuidBytes::new_random();
    let server_msg = ServerMessage::Challenge(UuidBytes::from_bytes(challenge.as_bytes().clone()));
    let reply = match first_response_step(Some(server_msg), &Some(client_auth)) {
        HandshakeStep::Answer(m) => m,
        _ => panic!("a challenge with a secret in hand must be answered"),
    };
    assert!(server_auth
        .server_handshake_check(&challenge, &Some(reply))
        .is_err());
}

#[test]
fn challenge_without_secret_fails() {
    let challenge = ServerMessage::Challenge(UuidBytes::new_random());
    match first_response_step(Some(challenge), &None) {
        HandshakeStep::Failed(ClientFailure::AuthRequired) => {}
        _ => panic!("a challenge without a secret must fail the handshake"),
    }
}

#[test]
fn first_response_outcomes() {
    match first_response_step(Some(ServerMessage::Hello(40001)), &None) {
        HandshakeStep::Established(p) => assert_eq!(p, 40001),
        _ => panic!("Hello establishes at once"),
    }
    match first_response_step(Some(ServerMessage::Error(b"nope".to_vec())), &None) {
        HandshakeStep::Failed(ClientFailure::ServerError(m)) => assert_eq!(m, b"nope".to_vec()),
        _ => panic!("a server error is surfaced"),
    }
    assert!(matches!(
        first_response_step(Some(ServerMessage::Heartbeat), &None),
        HandshakeStep::Failed(ClientFailure::UnexpectedMessage)
    ));
    assert!(matches!(
        first_response_step(None, &None),
        HandshakeStep::Failed(ClientFailure::Eof)
    ));
}

#[test]
fn after_answer_outcomes() {
    assert!(matches!(
        after_answer_step(Some(ServerMessage::Challenge(UuidBytes::new_random()))),
        HandshakeStep::Failed(ClientFailure::UnexpectedMessage)
    ));
    match after_answer_step(Some(ServerMessage::Error(b"server error".to_vec()))) {
        HandshakeStep::Failed(ClientFailure::ServerError(m)) => {
            assert_eq!(m, b"server error".to_vec())
        }
        _ => panic!("a server error is surfaced"),
    }
    assert!(matches!(
        after_answer_step(None),
        HandshakeStep::Failed(ClientFailure::Eof)
    ));
}

#[test]
fn dispatch_loop_actions() {
    let id = UuidBytes::new_random();
    match dispatch_server_frame(Some(ServerMessage::Connection(UuidBytes::from_bytes(
        id.as_bytes().clone(),
    )))) {
        ListenAction::OpenAccept(ClientMessage::Accept(aid)) => assert!(aid.same(&id)),
        _ => panic!("a Connection frame opens an accept"),
    }
    assert!(matches!(
        dispatch_server_frame(Some(ServerMessage::Heartbeat)),
        ListenAction::Ignore
    ));
    assert!(matches!(
        dispatch_server_frame(Some(ServerMessage::Hello(1))),
        ListenAction::Ignore
    ));
    assert!(matches!(
        dispatch_server_frame(Some(ServerMessage::Challenge(UuidBytes::new_random()))),
        ListenAction::Ignore
    ));
    match dispatch_server_frame(Some(ServerMessage::Error(b"gone".to_vec()))) {
        ListenAction::NoteError(m) => assert_eq!(m, b"gone".to_vec()),
        _ => panic!("a server error is noted"),
    }
    assert!(matches!(dispatch_server_frame(None), ListenAction::Stop));
}

#[test]
fn management_data_model() {
    let creds = Credentials::new(
        "https://api.example.net".to_string(),
        "token-1".to_string(),
        "u1".to_string(),
    );
    assert_eq!(creds.auth_token, "token-1");

    let inst = |id: &str, name: &str| Instance {
        id: id.to_string(),
        name: name.to_string(),
        local_port: 3000,
        server_region: "us-east".to_string(),
        status: "offline".to_string(),
        public_url: None,
    };
    let list = vec![inst("a1", "web"), inst("b2", "db"), inst("c3", "web")];
    assert_eq!(find_instance(&list, &"b2".to_string()), Some(1));
    assert_eq!(find_instance(&list, &"web".to_string()), Some(0));
    assert_eq!(find_instance(&list, &"missing".to_string()), None);
}

#[test]
fn instance_status_labels() {
    assert_eq!(TunnelStatus::Inactive.label(), "inactive");
    assert_eq!(TunnelStatus::Starting.label(), "starting");
    assert_eq!(TunnelStatus::Active.label(), "active");
    assert_eq!(TunnelStatus::Error.label(), "error");

    let t = TunnelInstance {
        id: "i1".to_string(),
        name: "demo".to_string(),
        local_port: 8080,
        region: "eu".to_string(),
        server_address: "tunnel.example.net".to_string(),
        public_url: None,
        remote_port: Some(41002),
        status: TunnelStatus::Active,
        error_message: None,
    };
    let r = instance_response(&t);
    assert_eq!(r.status, "active");
    assert_eq!(r.remote_port, Some(41002));
    assert_eq!(r.id, "i1");
}
