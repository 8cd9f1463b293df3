use http_server::session::SessionManager;
use std::time::Duration;

#[test]
fn new_session_is_known_but_not_authenticated() {
    let mut m = SessionManager::new(Duration::from_secs(60));
    let id = m.create_session();
    assert_eq!(id.len(), 36);
    assert_eq!(id.matches('-').count(), 4);
    assert!(!m.is_authenticated(&id));
}

#[test]
fn authenticate_then_authenticated() {
    let mut m = SessionManager::new(Duration::from_secs(60));
    let id = m.create_session();
    m.authenticate(&id);
    assert!(m.is_authenticated(&id));
    m.authenticate(&id);
    assert!(m.is_authenticated(&id));
}

#[test]
fn authenticate_unknown_session_does_nothing() {
    let mut m = SessionManager::new(Duration::from_secs(60));
    m.authenticate("no-such-session");
    assert!(!m.is_authenticated("no-such-session"));
}

#[test]
fn authenticate_touches_only_its_session() {
    let mut m = SessionManager::new(Duration::from_secs(60));
    let a = m.create_session();
    let b = m.create_session();
    assert_ne!(a, b);
    m.authenticate(&a);
    assert!(m.is_authenticated(&a));
    assert!(!m.is_authenticated(&b));
}
