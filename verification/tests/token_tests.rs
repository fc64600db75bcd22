use autowhitelist::tokens::{EmailServer, TokenError};

#[test]
fn token_validates_exactly_once() {
    let mut store = EmailServer::new();
    let token = store.fresh_token().unwrap();
    store
        .send_token("user@example.com".to_string(), token.clone(), 0, Ok(()))
        .unwrap();
    assert!(store.validate_token(token.clone()).is_ok());
    assert!(matches!(
        store.validate_token(token),
        Err(TokenError::NotFound)
    ));
}

#[test]
fn token_lifecycle_scenario() {
    let mut store = EmailServer::new();

    // Issue T at t = 0, validate at t = 30 s: success; again at t = 31 s:
    // NotFound.  Validation reads no clock, so the 30 s mark is exercised by
    // sweeping at t = 30 first, which must keep the young token.
    let t = store.fresh_token().unwrap();
    store
        .send_token("user@example.com".to_string(), t.clone(), 0, Ok(()))
        .unwrap();
    store.sweep(30);
    assert!(store.validate_token(t.clone()).is_ok());
    assert!(matches!(
        store.validate_token(t),
        Err(TokenError::NotFound)
    ));

    // Issue T2 at t = 0, never validate; the sweep at t = 3601 s evicts it.
    let t2 = store.fresh_token().unwrap();
    store
        .send_token("user@example.com".to_string(), t2.clone(), 0, Ok(()))
        .unwrap();
    store.sweep(3601);
    assert!(matches!(
        store.validate_token(t2),
        Err(TokenError::NotFound)
    ));
}

#[test]
fn sweep_keeps_tokens_inside_the_window() {
    let mut store = EmailServer::new();
    let young = store.fresh_token().unwrap();
    store
        .send_token("a@example.com".to_string(), young.clone(), 1000, Ok(()))
        .unwrap();
    let old = store.fresh_token().unwrap();
    store
        .send_token("b@example.com".to_string(), old.clone(), 0, Ok(()))
        .unwrap();
    // At t = 3599 s both survive: ages 2599 s and 3599 s, both under 3600 s.
    store.sweep(3599);
    // At t = 3600 s only the younger one survives.
    store.sweep(3600);
    assert!(matches!(
        store.validate_token(old),
        Err(TokenError::NotFound)
    ));
    assert!(store.validate_token(young).is_ok());
}

#[test]
fn failed_send_records_no_token() {
    let mut store = EmailServer::new();
    let token = store.fresh_token().unwrap();
    let r = store.send_token(
        "user@example.com".to_string(),
        token.clone(),
        0,
        Err("relay refused".to_string()),
    );
    match r {
        Err(TokenError::Transport(msg)) => assert_eq!(msg, "relay refused"),
        other => panic!("expected a transport error, got {:?}", other),
    }
    assert!(matches!(
        store.validate_token(token),
        Err(TokenError::NotFound)
    ));
}

#[test]
fn validating_an_unknown_token_fails() {
    let mut store = EmailServer::new();
    assert!(matches!(
        store.validate_token("never-issued".to_string()),
        Err(TokenError::NotFound)
    ));
}

#[test]
fn fresh_tokens_differ_from_stored_ones() {
    let mut store = EmailServer::new();
    let mut issued = Vec::new();
    for _ in 0..8 {
        let t = store.fresh_token().unwrap();
        store
            .send_token("user@example.com".to_string(), t.clone(), 0, Ok(()))
            .unwrap();
        issued.push(t);
    }
    for i in 0..issued.len() {
        for j in 0..i {
            assert_ne!(issued[i], issued[j]);
        }
    }
}
