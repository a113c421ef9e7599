use chat_relay::registry::{RegistryError, SessionInfo, SessionRegistry};

#[test]
fn new_registry_is_empty() {
    let registry = SessionRegistry::new();
    assert_eq!(registry.len(), 0);
    assert!(!registry.contains(b"a"));
    assert_eq!(registry.get(b"a"), None);
    assert!(!registry.is_cancelled(b"a"));
}

#[test]
fn register_enters_a_session() {
    let mut registry = SessionRegistry::new();
    assert_eq!(registry.register(b"a", 7), Ok(()));
    assert_eq!(registry.len(), 1);
    assert!(registry.contains(b"a"));
    assert_eq!(registry.get(b"a"), Some(SessionInfo { cancelled: false, started_at: 7 }));
    assert!(!registry.is_cancelled(b"a"));
}

#[test]
fn register_rejects_a_live_id_and_keeps_the_live_session() {
    let mut registry = SessionRegistry::new();
    assert_eq!(registry.register(b"a", 7), Ok(()));
    assert!(registry.cancel(b"a"));
    assert_eq!(registry.register(b"a", 9), Err(RegistryError::AlreadyLive));
    assert_eq!(registry.len(), 1);
    assert_eq!(registry.get(b"a"), Some(SessionInfo { cancelled: true, started_at: 7 }));
}

#[test]
fn register_accepts_an_id_again_after_its_removal() {
    let mut registry = SessionRegistry::new();
    assert_eq!(registry.register(b"a", 1), Ok(()));
    assert!(registry.remove(b"a"));
    assert_eq!(registry.register(b"a", 2), Ok(()));
    assert_eq!(registry.get(b"a"), Some(SessionInfo { cancelled: false, started_at: 2 }));
}

#[test]
fn cancel_of_an_unknown_id_does_nothing() {
    let mut registry = SessionRegistry::new();
    assert!(!registry.cancel(b"ghost"));
    assert_eq!(registry.len(), 0);
    assert_eq!(registry.register(b"a", 3), Ok(()));
    assert!(!registry.cancel(b"ghost"));
    assert_eq!(registry.len(), 1);
    assert_eq!(registry.get(b"a"), Some(SessionInfo { cancelled: false, started_at: 3 }));
    assert!(!registry.contains(b"ghost"));
}

#[test]
fn cancel_sets_the_flag_of_one_session_only() {
    let mut registry = SessionRegistry::new();
    assert_eq!(registry.register(b"a", 1), Ok(()));
    assert_eq!(registry.register(b"b", 2), Ok(()));
    assert_eq!(registry.register(b"c", 3), Ok(()));
    assert!(registry.cancel(b"b"));
    assert!(!registry.is_cancelled(b"a"));
    assert!(registry.is_cancelled(b"b"));
    assert!(!registry.is_cancelled(b"c"));
    assert_eq!(registry.get(b"b"), Some(SessionInfo { cancelled: true, started_at: 2 }));
    assert!(registry.cancel(b"b"));
    assert!(registry.is_cancelled(b"b"));
    assert_eq!(registry.len(), 3);
}

#[test]
fn remove_is_idempotent() {
    let mut registry = SessionRegistry::new();
    assert_eq!(registry.register(b"a", 1), Ok(()));
    assert_eq!(registry.register(b"b", 2), Ok(()));
    assert!(registry.remove(b"a"));
    assert!(!registry.remove(b"a"));
    assert_eq!(registry.len(), 1);
    assert!(!registry.contains(b"a"));
    assert_eq!(registry.get(b"b"), Some(SessionInfo { cancelled: false, started_at: 2 }));
}

#[test]
fn ids_are_told_apart_byte_by_byte() {
    let mut registry = SessionRegistry::new();
    assert_eq!(registry.register(b"", 1), Ok(()));
    assert_eq!(registry.register(b"a", 2), Ok(()));
    assert_eq!(registry.register(b"ab", 3), Ok(()));
    assert_eq!(registry.register(b"A", 4), Ok(()));
    assert_eq!(registry.len(), 4);
    assert_eq!(registry.get(b"a").map(|i| i.started_at), Some(2));
    assert_eq!(registry.get(b"").map(|i| i.started_at), Some(1));
    assert!(registry.remove(b"a"));
    assert_eq!(registry.get(b"ab").map(|i| i.started_at), Some(3));
    assert_eq!(registry.get(b"A").map(|i| i.started_at), Some(4));
}
