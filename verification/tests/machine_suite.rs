use survey_redirect::certs::{CredAction, CredEvent, CredPhase, CredProvider, TlsConfig};
use survey_redirect::server::{
    is_connection_error, AcceptErrorKind, Acceptor, AcceptorAction, AcceptorEvent, AcceptorPhase,
};

#[test]
fn shutdown_drains_and_stops() {
    let mut a = Acceptor::new(1);
    assert!(matches!(a.step(&AcceptorEvent::Incoming), AcceptorAction::ServeConn(1)));
    assert_eq!(a.outstanding, 1);
    a.step(&AcceptorEvent::ShutdownSignal);
    assert_eq!(a.phase, AcceptorPhase::Draining);
    // no new connections are accepted afterward
    assert!(matches!(a.step(&AcceptorEvent::Incoming), AcceptorAction::RefuseConn));
    assert_eq!(a.outstanding, 1);
    // a second signal while draining has no further effect
    a.step(&AcceptorEvent::ShutdownSignal);
    assert_eq!(a.phase, AcceptorPhase::Draining);
    // the existing connection completes, then the server reports stopped
    a.step(&AcceptorEvent::ConnClosed);
    assert_eq!(a.outstanding, 0);
    assert_eq!(a.phase, AcceptorPhase::Stopped);
}

#[test]
fn drain_timeout_bounds_the_wait() {
    let mut a = Acceptor::new(1);
    a.step(&AcceptorEvent::Incoming);
    a.step(&AcceptorEvent::ShutdownSignal);
    a.step(&AcceptorEvent::DrainTimeout);
    assert_eq!(a.phase, AcceptorPhase::Stopped);
    assert_eq!(a.outstanding, 1);
    // the straggler may still finish afterwards
    a.step(&AcceptorEvent::ConnClosed);
    assert_eq!(a.outstanding, 0);
}

#[test]
fn accept_errors_are_classified() {
    assert!(is_connection_error(&AcceptErrorKind::ConnectionRefused));
    assert!(is_connection_error(&AcceptErrorKind::ConnectionAborted));
    assert!(is_connection_error(&AcceptErrorKind::ConnectionReset));
    assert!(!is_connection_error(&AcceptErrorKind::ResourceExhausted));
    assert!(!is_connection_error(&AcceptErrorKind::Other));
    let mut a = Acceptor::new(1);
    assert!(matches!(
        a.step(&AcceptorEvent::AcceptFailed(AcceptErrorKind::ConnectionReset)),
        AcceptorAction::ContinueNow
    ));
    assert!(matches!(
        a.step(&AcceptorEvent::AcceptFailed(AcceptErrorKind::ResourceExhausted)),
        AcceptorAction::PauseAccept
    ));
    assert_eq!(a.phase, AcceptorPhase::Listening);
}

#[test]
fn certificate_rotation_is_seamless() {
    let mut provider = CredProvider::new();
    let mut a = Acceptor::new(provider.published);
    // a long-lived connection accepted under the old certificate
    assert!(matches!(a.step(&AcceptorEvent::Incoming), AcceptorAction::ServeConn(1)));
    // the cert and key files are replaced
    assert!(matches!(
        provider.step(&CredEvent::ChangeDetected),
        CredAction::StartQuiesceTimer
    ));
    // a burst of filesystem events coalesces
    assert!(matches!(provider.step(&CredEvent::ChangeDetected), CredAction::Ignore));
    assert!(matches!(provider.step(&CredEvent::QuiesceElapsed), CredAction::AttemptReload));
    // a failed reload is retried, never fatal
    assert!(matches!(provider.step(&CredEvent::ReloadFailed), CredAction::RetryReload));
    assert_eq!(provider.phase, CredPhase::Reloading);
    assert_eq!(provider.published, 1);
    // success publishes the new context
    let action = provider.step(&CredEvent::ReloadSucceeded);
    assert!(matches!(action, CredAction::Publish(2)));
    assert_eq!(provider.phase, CredPhase::Watching);
    // the update is applied in place: the old connection is untouched
    a.step(&AcceptorEvent::TlsUpdate(provider.published));
    assert_eq!(a.outstanding, 1);
    assert_eq!(a.phase, AcceptorPhase::Listening);
    // a connection accepted after rotation uses the new certificate
    assert!(matches!(a.step(&AcceptorEvent::Incoming), AcceptorAction::ServeConn(2)));
    // while the one accepted before completes successfully under the old one
    a.step(&AcceptorEvent::ConnClosed);
    assert_eq!(a.outstanding, 1);
}

#[test]
fn provider_waits_in_watching() {
    let mut p = CredProvider::new();
    assert!(matches!(p.step(&CredEvent::QuiesceElapsed), CredAction::Ignore));
    assert!(matches!(p.step(&CredEvent::ReloadSucceeded), CredAction::Ignore));
    assert_eq!(p.published, 1);
    let cfg = TlsConfig { key: "k.pem".to_string(), cert: "c.pem".to_string() };
    assert_eq!(cfg.key, "k.pem");
}
