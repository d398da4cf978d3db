//! The timeout constants and the ordering that keeps the client waiting
//! longer than any backend validation.

use std::time::Duration;

use bore_core::timeouts::{BACKEND_HTTP_TIMEOUT_SECS, NETWORK_TIMEOUT_SECS};

fn network_timeout() -> Duration {
    Duration::from_secs(NETWORK_TIMEOUT_SECS)
}

fn backend_http_timeout() -> Duration {
    Duration::from_secs(BACKEND_HTTP_TIMEOUT_SECS)
}

#[test]
fn test_timeout_relationship() {
    assert!(
        network_timeout() > backend_http_timeout(),
        "NETWORK_TIMEOUT ({:?}) must be greater than BACKEND_HTTP_TIMEOUT ({:?})",
        network_timeout(),
        backend_http_timeout()
    );

    let recommended_min = backend_http_timeout() * 2;
    assert!(
        network_timeout() >= recommended_min,
        "NETWORK_TIMEOUT ({:?}) should be at least 2x BACKEND_HTTP_TIMEOUT ({:?}) for safety margin",
        network_timeout(),
        recommended_min
    );
}

#[test]
fn test_timeout_sanity() {
    assert!(
        backend_http_timeout().as_secs() >= 3,
        "BACKEND_HTTP_TIMEOUT should be at least 3s for network reliability"
    );

    assert!(
        network_timeout().as_secs() <= 30,
        "NETWORK_TIMEOUT should not exceed 30s for good UX"
    );
}

#[test]
fn test_client_timeout_exceeds_backend_timeout() {
    assert!(
        network_timeout() > backend_http_timeout(),
        "Client NETWORK_TIMEOUT ({:?}) must exceed server BACKEND_HTTP_TIMEOUT ({:?}) \
        to prevent authentication failures when backend is slow",
        network_timeout(),
        backend_http_timeout()
    );
}

#[test]
fn test_sufficient_timeout_margin() {
    let recommended_min = backend_http_timeout() * 2;

    assert!(
        network_timeout() >= recommended_min,
        "Client NETWORK_TIMEOUT ({:?}) should be at least 2x BACKEND_HTTP_TIMEOUT ({:?}) \
        for comfortable safety margin. Current margin: {:?}",
        network_timeout(),
        backend_http_timeout(),
        network_timeout().saturating_sub(backend_http_timeout())
    );
}

#[test]
fn test_timeout_values_are_reasonable() {
    assert!(
        backend_http_timeout().as_secs() >= 3,
        "BACKEND_HTTP_TIMEOUT should be at least 3s, got {:?}",
        backend_http_timeout()
    );

    assert!(
        network_timeout().as_secs() <= 30,
        "NETWORK_TIMEOUT should not exceed 30s for good UX, got {:?}",
        network_timeout()
    );
}

#[test]
fn test_timeout_relationship_documented() {
    println!("Timeout Configuration:");
    println!("  Backend HTTP Timeout:  {:?}", backend_http_timeout());
    println!("  Client Network Timeout: {:?}", network_timeout());
    println!(
        "  Safety Margin:         {:?}",
        network_timeout().saturating_sub(backend_http_timeout())
    );
    println!(
        "  Margin Ratio:          {:.1}x",
        network_timeout().as_secs_f64() / backend_http_timeout().as_secs_f64()
    );

    assert_eq!(
        backend_http_timeout().as_secs(),
        5,
        "Backend timeout changed - update documentation!"
    );
    assert_eq!(
        network_timeout().as_secs(),
        10,
        "Client timeout changed - update documentation!"
    );
}
