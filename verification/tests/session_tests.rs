use autowhitelist::session::{VerifyError, WsServer};
use tokio::sync::mpsc::error::TryRecvError;
use tokio::sync::mpsc::unbounded_channel;

#[test]
fn connect_returns_distinct_ids_while_registered() {
    let mut server = WsServer::new();
    let mut ids = Vec::new();
    for _ in 0..64 {
        let (tx, _rx) = unbounded_channel::<String>();
        ids.push(server.connect(tx));
    }
    for i in 0..ids.len() {
        for j in 0..i {
            assert_ne!(ids[i], ids[j]);
        }
    }
    assert_eq!(server.visitor_total(), 64);
}

#[test]
fn disconnect_is_idempotent() {
    let mut server = WsServer::new();
    let (tx, _rx) = unbounded_channel::<String>();
    let id = server.connect(tx);
    assert!(server.is_connected(id));
    server.disconnect(id);
    assert!(!server.is_connected(id));
    server.disconnect(id);
    assert!(!server.is_connected(id));
    // Disconnecting an identifier that was never registered is a no-op too.
    server.disconnect(id.wrapping_add(1));
    assert_eq!(server.visitor_total(), 1);
}

#[test]
fn verify_binds_key_and_deliver_reaches_channel() {
    let mut server = WsServer::new();
    let (tx, mut rx) = unbounded_channel::<String>();
    let id = server.connect(tx);
    let r = server.verify("K1".to_string(), id, Ok(Some("alice".to_string())));
    assert_eq!(r.unwrap(), "alice");
    assert_eq!(server.bound_connection(&"K1".to_string()), Some(id));
    let delivered = server.add_player("K1".to_string(), "p1".to_string());
    assert!(delivered);
    assert_eq!(rx.try_recv().unwrap(), "p1");
    assert!(matches!(rx.try_recv(), Err(TryRecvError::Empty)));
    assert!(server.pending_for(&"K1".to_string()).is_none());
}

#[test]
fn verify_unknown_key_returns_not_found_and_adds_no_entry() {
    let mut server = WsServer::new();
    let (tx, _rx) = unbounded_channel::<String>();
    let id = server.connect(tx);
    let r = server.verify("nope".to_string(), id, Ok(None));
    assert!(matches!(r, Err(VerifyError::NotFound)));
    assert_eq!(server.bound_connection(&"nope".to_string()), None);
}

#[test]
fn verify_store_failure_is_passed_on_unchanged() {
    let mut server = WsServer::new();
    let (tx, _rx) = unbounded_channel::<String>();
    let id = server.connect(tx);
    let r = server.verify("K1".to_string(), id, Err("disk on fire".to_string()));
    match r {
        Err(VerifyError::Store(msg)) => assert_eq!(msg, "disk on fire"),
        other => panic!("expected a store error, got {:?}", other),
    }
    assert_eq!(server.bound_connection(&"K1".to_string()), None);
}

#[test]
fn deliver_without_binding_queues_in_order() {
    let mut server = WsServer::new();
    assert!(!server.add_player("K1".to_string(), "p1".to_string()));
    assert!(!server.add_player("K1".to_string(), "p2".to_string()));
    let queued = server.pending_for(&"K1".to_string()).unwrap();
    assert_eq!(queued.len(), 2);
    assert_eq!(queued[0], "p1");
    assert_eq!(queued[1], "p2");
}

#[test]
fn deliver_to_stale_binding_queues() {
    let mut server = WsServer::new();
    let (tx, _rx) = unbounded_channel::<String>();
    let id = server.connect(tx);
    server
        .verify("K1".to_string(), id, Ok(Some("alice".to_string())))
        .unwrap();
    server.disconnect(id);
    assert!(!server.add_player("K1".to_string(), "p2".to_string()));
    let queued = server.pending_for(&"K1".to_string()).unwrap();
    assert_eq!(queued.as_slice(), ["p2".to_string()]);
}

#[test]
fn deliver_to_closed_channel_queues() {
    let mut server = WsServer::new();
    let (tx, rx) = unbounded_channel::<String>();
    let id = server.connect(tx);
    server
        .verify("K1".to_string(), id, Ok(Some("alice".to_string())))
        .unwrap();
    drop(rx);
    assert!(!server.add_player("K1".to_string(), "p1".to_string()));
    assert!(server.pending_for(&"K1".to_string()).is_some());
}

#[test]
fn tick_delivers_backlog_in_order_after_verify() {
    let mut server = WsServer::new();
    assert!(!server.add_player("K1".to_string(), "p1".to_string()));
    assert!(!server.add_player("K1".to_string(), "p2".to_string()));
    assert!(!server.add_player("K1".to_string(), "p3".to_string()));

    // Nothing resolves yet: a pass leaves the backlog untouched.
    server.process_pending_messages();
    assert_eq!(server.pending_for(&"K1".to_string()).unwrap().len(), 3);

    let (tx, mut rx) = unbounded_channel::<String>();
    let id = server.connect(tx);
    server
        .verify("K1".to_string(), id, Ok(Some("alice".to_string())))
        .unwrap();
    server.process_pending_messages();
    assert_eq!(rx.try_recv().unwrap(), "p1");
    assert_eq!(rx.try_recv().unwrap(), "p2");
    assert_eq!(rx.try_recv().unwrap(), "p3");
    assert!(matches!(rx.try_recv(), Err(TryRecvError::Empty)));
    assert!(server.pending_for(&"K1".to_string()).is_none());
}

#[test]
fn tick_keeps_backlog_when_channel_is_closed() {
    let mut server = WsServer::new();
    let (tx, rx) = unbounded_channel::<String>();
    let id = server.connect(tx);
    server
        .verify("K1".to_string(), id, Ok(Some("alice".to_string())))
        .unwrap();
    drop(rx);
    assert!(!server.add_player("K1".to_string(), "p1".to_string()));
    assert!(!server.add_player("K1".to_string(), "p2".to_string()));
    server.process_pending_messages();
    let queued = server.pending_for(&"K1".to_string()).unwrap();
    assert_eq!(queued.as_slice(), ["p1".to_string(), "p2".to_string()]);
}

#[test]
fn reconnect_scenario_redelivers_only_undelivered_payloads() {
    let mut server = WsServer::new();

    // Connect A and bind K1 to it.
    let (tx_a, mut rx_a) = unbounded_channel::<String>();
    let conn_a = server.connect(tx_a);
    server
        .verify("K1".to_string(), conn_a, Ok(Some("alice".to_string())))
        .unwrap();

    // p1 goes straight out while A's channel is open.
    assert!(server.add_player("K1".to_string(), "p1".to_string()));
    assert_eq!(rx_a.try_recv().unwrap(), "p1");

    // A drops; p2 is queued.
    server.disconnect(conn_a);
    drop(rx_a);
    assert!(!server.add_player("K1".to_string(), "p2".to_string()));

    // Reconnect as B and re-verify K1.
    let (tx_b, mut rx_b) = unbounded_channel::<String>();
    let conn_b = server.connect(tx_b);
    server
        .verify("K1".to_string(), conn_b, Ok(Some("alice".to_string())))
        .unwrap();

    server.process_pending_messages();
    assert_eq!(rx_b.try_recv().unwrap(), "p2");
    assert!(matches!(rx_b.try_recv(), Err(TryRecvError::Empty)));
    assert!(server.pending_for(&"K1".to_string()).is_none());
}

#[test]
fn last_verification_wins() {
    let mut server = WsServer::new();
    let (tx_a, mut rx_a) = unbounded_channel::<String>();
    let (tx_b, mut rx_b) = unbounded_channel::<String>();
    let conn_a = server.connect(tx_a);
    let conn_b = server.connect(tx_b);
    server
        .verify("K1".to_string(), conn_a, Ok(Some("alice".to_string())))
        .unwrap();
    server
        .verify("K1".to_string(), conn_b, Ok(Some("alice".to_string())))
        .unwrap();
    assert_eq!(server.bound_connection(&"K1".to_string()), Some(conn_b));
    assert!(server.add_player("K1".to_string(), "p1".to_string()));
    assert!(matches!(rx_a.try_recv(), Err(TryRecvError::Empty)));
    assert_eq!(rx_b.try_recv().unwrap(), "p1");
}
