//! The server control state machine: first-frame dispatch, oracle
//! decisions, admission against the cap, port planning, and the rendezvous
//! table.

use bore_core::admission::UserTunnels;
use bore_core::ids::UuidBytes;
use bore_core::msg::{ClientMessage, ServerMessage};
use bore_core::oracle::{
    disabled_validation, failed_status_validation, retry_delay_ms, validation_decision,
    ValidateKeyResponse, ValidationDecision, DEFAULT_MAX_TUNNELS, LEGACY_MAX_TUNNELS,
    RETRY_ATTEMPTS,
};
use bore_core::ports::{
    bind_error_message, find_available_port, pick_probe_port, plan_port_request,
    port_not_in_range_message, port_search_failed_message, BindErrorKind, PortPlan,
    PORT_PROBE_ATTEMPTS,
};
use bore_core::rendezvous::Rendezvous;
use bore_core::server::{
    admit_or_deny, auth_required_message, expect_hello, first_frame_action,
    method_not_supported_message, register_public_conn, release_tunnel, FirstFrameAction,
};

fn oracle_answer(
    valid: bool,
    user_id: Option<&str>,
    max: Option<u32>,
    usage_allowed: bool,
    message: Option<&str>,
) -> ValidateKeyResponse {
    ValidateKeyResponse {
        valid,
        user_id: user_id.map(|s| s.as_bytes().to_vec()),
        email: None,
        plan_type: None,
        max_concurrent_tunnels: max,
        max_bandwidth_gb: None,
        usage_allowed,
        message: message.map(|s| s.as_bytes().to_vec()),
        instance_id: None,
    }
}

#[test]
fn accept_is_dispatched_before_authentication() {
    // An Accept frame is served whatever the authentication configuration.
    for &(oracle, legacy) in &[(false, false), (false, true), (true, false), (true, true)] {
        let id = UuidBytes::new_random();
        let first = Some(ClientMessage::Accept(UuidBytes::from_bytes(id.as_bytes().clone())));
        match first_frame_action(first, oracle, legacy) {
            FirstFrameAction::ServeAccept(got) => assert!(got.same(&id)),
            other => panic!("expected ServeAccept, got a different dispatch: {:?}", discriminant(&other)),
        }
    }
}

fn discriminant(a: &FirstFrameAction) -> &'static str {
    match a {
        FirstFrameAction::ServeAccept(_) => "ServeAccept",
        FirstFrameAction::RejectLegacyBypass => "RejectLegacyBypass",
        FirstFrameAction::ValidateKey(_) => "ValidateKey",
        FirstFrameAction::RejectUnauthenticatedHello => "RejectUnauthenticatedHello",
        FirstFrameAction::LegacyHandshake(_) => "LegacyHandshake",
        FirstFrameAction::LegacyOpen(_) => "LegacyOpen",
        FirstFrameAction::ProtocolError => "ProtocolError",
    }
}

#[test]
fn auth_bypass_is_rejected_in_legacy_mode() {
    // A managed-key frame offered to a legacy-only server must be refused:
    // with the oracle disabled it would otherwise validate trivially.
    let first = Some(ClientMessage::Authenticate(b"anything".to_vec()));
    match first_frame_action(first, false, true) {
        FirstFrameAction::RejectLegacyBypass => {}
        other => panic!("expected RejectLegacyBypass, got {}", discriminant(&other)),
    }
    let text = String::from_utf8(method_not_supported_message()).unwrap();
    assert!(
        text.contains("not supported") || text.contains("shared secret"),
        "Expected rejection message, got: {}",
        text
    );
}

#[test]
fn first_frame_dispatch_matrix() {
    let key = || Some(ClientMessage::Authenticate(b"sk_k".to_vec()));
    let hello = || Some(ClientMessage::Hello(7000));

    assert!(matches!(first_frame_action(key(), true, false), FirstFrameAction::ValidateKey(k) if k == b"sk_k".to_vec()));
    assert!(matches!(first_frame_action(key(), true, true), FirstFrameAction::ValidateKey(_)));
    assert!(matches!(first_frame_action(key(), false, false), FirstFrameAction::ValidateKey(_)));

    assert!(matches!(
        first_frame_action(hello(), true, false),
        FirstFrameAction::RejectUnauthenticatedHello
    ));
    assert!(matches!(
        first_frame_action(hello(), true, true),
        FirstFrameAction::LegacyHandshake(7000)
    ));
    assert!(matches!(
        first_frame_action(hello(), false, true),
        FirstFrameAction::LegacyHandshake(7000)
    ));
    assert!(matches!(
        first_frame_action(hello(), false, false),
        FirstFrameAction::LegacyOpen(7000)
    ));
    assert!(matches!(first_frame_action(None, true, false), FirstFrameAction::ProtocolError));
    let text = String::from_utf8(auth_required_message()).unwrap();
    assert!(text.contains("Authentication required"));
}

#[test]
fn managed_key_happy_path_decision() {
    // Oracle answers {valid:true, user_id:"u1", max_concurrent_tunnels:2,
    // usage_allowed:true}: the connection is admitted under u1 with cap 2.
    let v = oracle_answer(true, Some("u1"), Some(2), true, None);
    match validation_decision(v) {
        ValidationDecision::Admit { user_id, max_tunnels, instance_id } => {
            assert_eq!(user_id, b"u1".to_vec());
            assert_eq!(max_tunnels, 2);
            assert!(instance_id.is_none());
        }
        ValidationDecision::Deny(m) => panic!("unexpected denial: {:?}", String::from_utf8(m)),
    }
}

#[test]
fn oracle_denials() {
    match validation_decision(oracle_answer(false, None, None, false, None)) {
        ValidationDecision::Deny(m) => assert_eq!(m, b"Invalid API key".to_vec()),
        _ => panic!("an invalid key must be denied"),
    }
    match validation_decision(oracle_answer(false, None, None, false, Some("no such key"))) {
        ValidationDecision::Deny(m) => assert_eq!(m, b"no such key".to_vec()),
        _ => panic!("an invalid key must be denied"),
    }
    match validation_decision(oracle_answer(true, Some("u1"), None, false, None)) {
        ValidationDecision::Deny(m) => {
            let text = String::from_utf8(m).unwrap();
            assert!(text.contains("Subscription expired"));
        }
        _ => panic!("denied usage must be denied"),
    }
    // valid:true without a user id must deny, never crash.
    match validation_decision(oracle_answer(true, None, Some(5), true, None)) {
        ValidationDecision::Deny(m) => {
            let text = String::from_utf8(m).unwrap();
            assert!(text.contains("invalid data"));
        }
        _ => panic!("an identity-less grant must be denied"),
    }
}

#[test]
fn oracle_default_cap_is_five() {
    let v = oracle_answer(true, Some("u2"), None, true, None);
    match validation_decision(v) {
        ValidationDecision::Admit { max_tunnels, .. } => {
            assert_eq!(max_tunnels, DEFAULT_MAX_TUNNELS);
            assert_eq!(max_tunnels, 5);
        }
        _ => panic!("a valid grant must admit"),
    }
}

#[test]
fn disabled_oracle_allows_as_local_user() {
    let v = disabled_validation();
    assert!(v.valid && v.usage_allowed);
    assert_eq!(v.user_id.as_deref(), Some(b"local-user".as_slice()));
    assert_eq!(v.max_concurrent_tunnels, Some(999));
    match validation_decision(v) {
        ValidationDecision::Admit { user_id, max_tunnels, .. } => {
            assert_eq!(user_id, b"local-user".to_vec());
            assert_eq!(max_tunnels, 999);
        }
        _ => panic!("the disabled oracle always admits"),
    }
}

#[test]
fn failed_status_gives_backend_error_message() {
    let v = failed_status_validation(503);
    assert!(!v.valid && !v.usage_allowed);
    assert_eq!(v.message.as_deref(), Some(b"Backend error: 503".as_slice()));
}

#[test]
fn retry_schedule_is_linear() {
    assert_eq!(RETRY_ATTEMPTS, 3);
    assert_eq!(retry_delay_ms(0), 300);
    assert_eq!(retry_delay_ms(1), 600);
    assert_eq!(retry_delay_ms(2), 900);
}

#[test]
fn expect_hello_accepts_only_hello() {
    assert_eq!(expect_hello(&Some(ClientMessage::Hello(443))), Ok(443));
    let err = expect_hello(&Some(ClientMessage::Authenticate(b"x".to_vec()))).unwrap_err();
    assert_eq!(err, b"Protocol error".to_vec());
    let err = expect_hello(&None).unwrap_err();
    assert_eq!(err, b"Protocol error".to_vec());
}

#[test]
fn admission_enforces_the_cap() {
    // With the same cap k, exactly min(n, k) of n admissions succeed.
    let mut tunnels = UserTunnels::new();
    let cap = 2u32;
    let mut admitted = 0;
    for _ in 0..5 {
        if admit_or_deny(&mut tunnels, b"u1", cap).is_none() {
            admitted += 1;
        }
    }
    assert_eq!(admitted, 2);
    let denial = admit_or_deny(&mut tunnels, b"u1", cap).unwrap();
    let text = String::from_utf8(denial).unwrap();
    assert!(text.contains("Maximum concurrent tunnels"));
    assert_eq!(
        text,
        "Maximum concurrent tunnels (2) reached. Please disconnect an existing tunnel or upgrade your plan."
    );
}

#[test]
fn admission_cap_zero_denies_first_attempt() {
    let mut tunnels = UserTunnels::new();
    assert!(admit_or_deny(&mut tunnels, b"anyone", 0).is_some());
}

#[test]
fn admission_is_per_user() {
    let mut tunnels = UserTunnels::new();
    assert!(admit_or_deny(&mut tunnels, b"u1", 1).is_none());
    assert!(admit_or_deny(&mut tunnels, b"u2", 1).is_none());
    assert!(admit_or_deny(&mut tunnels, b"u1", 1).is_some());
}

#[test]
fn release_rolls_the_counter_back() {
    // A released admission frees a slot; releasing an unknown user is a
    // no-op; the entry disappears at zero and can be re-admitted.
    let mut tunnels = UserTunnels::new();
    assert!(admit_or_deny(&mut tunnels, b"u1", 2).is_none());
    assert!(admit_or_deny(&mut tunnels, b"u1", 2).is_none());
    assert!(admit_or_deny(&mut tunnels, b"u1", 2).is_some());
    release_tunnel(&mut tunnels, b"u1");
    assert!(admit_or_deny(&mut tunnels, b"u1", 2).is_none());
    release_tunnel(&mut tunnels, b"stranger");
    release_tunnel(&mut tunnels, b"u1");
    release_tunnel(&mut tunnels, b"u1");
    release_tunnel(&mut tunnels, b"u1");
    assert!(admit_or_deny(&mut tunnels, b"u1", 1).is_none());
}

#[test]
fn legacy_identity_constants() {
    assert_eq!(bore_core::oracle::legacy_user_id(), b"legacy-user".to_vec());
    assert_eq!(LEGACY_MAX_TUNNELS, 999);
}

#[test]
fn port_plan_validates_the_range() {
    assert!(matches!(plan_port_request(0, 2000, 3000), PortPlan::Probe));
    assert!(matches!(plan_port_request(2500, 2000, 3000), PortPlan::BindOne(2500)));
    assert!(matches!(plan_port_request(2000, 2000, 3000), PortPlan::BindOne(2000)));
    assert!(matches!(plan_port_request(3000, 2000, 3000), PortPlan::BindOne(3000)));
    assert!(matches!(plan_port_request(1999, 2000, 3000), PortPlan::OutOfRange));
    assert!(matches!(plan_port_request(3001, 2000, 3000), PortPlan::OutOfRange));
    assert_eq!(
        port_not_in_range_message(),
        b"client port number not in allowed range".to_vec()
    );
}

#[test]
fn probe_of_singleton_range_hits_the_port() {
    // With a range of size 1, the first probe already names the only port.
    for _ in 0..10 {
        assert_eq!(pick_probe_port(4567, 4567), 4567);
    }
    assert_eq!(PORT_PROBE_ATTEMPTS, 150);
    assert_eq!(
        port_search_failed_message(),
        b"failed to find an available port".to_vec()
    );
}

#[test]
fn probe_stays_in_range() {
    for _ in 0..100 {
        let p = pick_probe_port(10000, 10010);
        assert!((10000..=10010).contains(&p));
    }
}

#[test]
fn bind_error_messages_map_os_errors() {
    assert_eq!(bind_error_message(BindErrorKind::AddrInUse), b"port already in use".to_vec());
    assert_eq!(bind_error_message(BindErrorKind::PermissionDenied), b"permission denied".to_vec());
    assert_eq!(bind_error_message(BindErrorKind::Other), b"failed to bind to port".to_vec());
}

#[test]
fn find_available_port_takes_first_free() {
    let taken = vec![8081u16, 8082];
    assert_eq!(find_available_port(8081, &taken), Some(8083));
    assert_eq!(find_available_port(8084, &taken), Some(8084));
    let all: Vec<u16> = (65530..65535).collect();
    assert_eq!(find_available_port(65530, &all), None);
}

#[test]
fn parked_stream_is_consumed_at_most_once() {
    // The Connection(id) frame is built only after the handle is parked;
    // a claim takes the stream and a second claim of the same id finds
    // nothing, whether the first was the accept path or the janitor.
    let mut conns = Rendezvous::new();
    let (id, note) = register_public_conn(&mut conns, 41);
    match note {
        ServerMessage::Connection(nid) => assert!(nid.same(&id)),
        other => panic!("expected a Connection frame, got {:?}", other),
    }
    assert_eq!(conns.len(), 1);
    assert_eq!(conns.claim(&id), Some(41));
    assert_eq!(conns.len(), 0);
    assert_eq!(conns.claim(&id), None);
}

#[test]
fn janitor_reclaims_a_stale_stream() {
    let mut conns = Rendezvous::new();
    let (id1, _) = register_public_conn(&mut conns, 1);
    let (id2, _) = register_public_conn(&mut conns, 2);
    assert_eq!(conns.len(), 2);
    // The janitor fires for the first stream: it is removed and logged.
    assert!(conns.claim(&id1).is_some());
    // The second is accepted normally and the table drains to empty.
    assert_eq!(conns.claim(&id2), Some(2));
    assert_eq!(conns.len(), 0);
    // A late accept for the reclaimed stream finds nothing.
    assert_eq!(conns.claim(&id1), None);
}
