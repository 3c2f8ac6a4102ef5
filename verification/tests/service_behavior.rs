use lanshare::codec::encode_message;
use lanshare::message::{DiscoveryMessage, MessageType};
use lanshare::registry::UpsertOutcome;
use lanshare::service::{DatagramOutcome, DiscoveryService, SendError, ServiceError};
use lanshare::IpAddress;

fn started_service(timeout_secs: u64) -> DiscoveryService {
    let mut service = DiscoveryService::new(timeout_secs);
    service.start(7878).expect("first start must succeed");
    service
}

fn presence_from(peer_id: &str, port: u16) -> String {
    let msg = DiscoveryMessage {
        message_type: MessageType::PeerDiscovery,
        peer_id: peer_id.to_string(),
        port,
        hostname: None,
        timestamp: 1,
        text: None,
    };
    encode_message(&msg)
}

#[test]
fn test_discovery_service_creation() {
    let service = DiscoveryService::new(30);

    // The service starts without an identity.
    assert!(service.peer_id().is_none());

    // The registry is accessible and empty.
    let registry = service.registry();
    assert_eq!(registry.peer_count(), 0);
}

#[test]
fn test_start_generates_identity_once() {
    let mut service = DiscoveryService::new(30);
    assert!(service.start(7878).is_ok());
    let id = service.peer_id().expect("identity after start");
    assert_eq!(id.len(), 36);
    assert_eq!(service.start(7878), Err(ServiceError::AlreadyStarted));
    assert_eq!(service.peer_id().unwrap(), id);
}

#[test]
fn test_stop_forgets_identity() {
    let mut service = started_service(30);
    service.stop();
    assert!(service.peer_id().is_none());
}

#[test]
fn test_presence_payload_needs_identity() {
    let service = DiscoveryService::new(30);
    assert_eq!(
        service.build_presence_payload(None, 5),
        Err(ServiceError::NotStarted)
    );
    let started = started_service(30);
    let payload = started.build_presence_payload(None, 5).expect("payload after start");
    let own = started.peer_id().unwrap();
    assert!(payload.contains("\"message_type\":\"PeerDiscovery\""));
    assert!(payload.contains(&own));
}

#[test]
fn test_listener_upserts_presence() {
    let mut service = started_service(30);
    let payload = presence_from("peer-a", 4100);
    let outcome = service.handle_listener_message(&payload, IpAddress::V4(192, 168, 1, 7), 10);
    assert_eq!(
        outcome,
        DatagramOutcome::PeerSeen { outcome: UpsertOutcome::New }
    );
    let peers = service.current_peers();
    assert_eq!(peers.len(), 1);
    assert_eq!(peers[0].id, "peer-a");
    assert_eq!(peers[0].ip, IpAddress::V4(192, 168, 1, 7));
    assert_eq!(peers[0].port, 4100);
    assert_eq!(peers[0].last_seen, 10);
}

#[test]
fn test_self_suppression() {
    // A message carrying our own identity never mutates the registry and
    // never reaches the text sink.
    let mut service = started_service(30);
    let own = service.peer_id().unwrap();

    let own_presence = presence_from(&own, 4100);
    let outcome = service.handle_listener_message(&own_presence, IpAddress::V4(127, 0, 0, 1), 10);
    assert_eq!(outcome, DatagramOutcome::OwnMessage);
    assert_eq!(service.peer_count(), 0);

    let own_text = encode_message(&DiscoveryMessage {
        message_type: MessageType::TextMessage,
        peer_id: own,
        port: 7878,
        hostname: None,
        timestamp: 10,
        text: Some("talking to myself".to_string()),
    });
    let outcome = service.handle_listener_message(&own_text, IpAddress::V4(127, 0, 0, 1), 10);
    assert_eq!(outcome, DatagramOutcome::OwnMessage);
    assert_eq!(service.peer_count(), 0);
}

#[test]
fn test_listener_drops_garbage() {
    let mut service = started_service(30);
    let outcome = service.handle_listener_message("????", IpAddress::V4(10, 0, 0, 9), 10);
    assert_eq!(outcome, DatagramOutcome::Invalid);
    assert_eq!(service.peer_count(), 0);
}

#[test]
fn test_listener_delivers_text() {
    let mut service = started_service(30);
    let wire = encode_message(&DiscoveryMessage {
        message_type: MessageType::TextMessage,
        peer_id: "peer-b".to_string(),
        port: 7878,
        hostname: None,
        timestamp: 3,
        text: Some("hello".to_string()),
    });
    let outcome = service.handle_listener_message(&wire, IpAddress::V4(10, 0, 0, 2), 10);
    assert_eq!(
        outcome,
        DatagramOutcome::TextReceived { sender: "peer-b".to_string(), text: "hello".to_string() }
    );
    // Text traffic does not create registry entries.
    assert_eq!(service.peer_count(), 0);
}

#[test]
fn test_listener_text_without_payload_is_noop() {
    let mut service = started_service(30);
    let wire = encode_message(&DiscoveryMessage {
        message_type: MessageType::TextMessage,
        peer_id: "peer-b".to_string(),
        port: 7878,
        hostname: None,
        timestamp: 3,
        text: None,
    });
    let outcome = service.handle_listener_message(&wire, IpAddress::V4(10, 0, 0, 2), 10);
    assert_eq!(outcome, DatagramOutcome::EmptyText);
    assert_eq!(service.peer_count(), 0);
}

#[test]
fn test_presence_port_change_updates_once() {
    // Two presence messages from one identity with different ports: the
    // registry reflects only the second port, and exactly one of the two
    // reports an update.
    let mut service = started_service(30);
    let src = IpAddress::V4(192, 168, 1, 7);
    let first = service.handle_listener_message(&presence_from("peer-a", 4100), src, 10);
    let second = service.handle_listener_message(&presence_from("peer-a", 4200), src, 11);
    assert_eq!(first, DatagramOutcome::PeerSeen { outcome: UpsertOutcome::New });
    assert_eq!(second, DatagramOutcome::PeerSeen { outcome: UpsertOutcome::Updated });
    let third = service.handle_listener_message(&presence_from("peer-a", 4200), src, 12);
    assert_eq!(third, DatagramOutcome::PeerSeen { outcome: UpsertOutcome::Unchanged });
    let peers = service.current_peers();
    assert_eq!(peers.len(), 1);
    assert_eq!(peers[0].port, 4200);
}

#[test]
fn test_send_to_all_on_empty_registry_is_success() {
    // "No one online yet" is not a failure for a broadcast send.
    let service = started_service(30);
    let plan = service
        .send_text_to_all_peers("anyone there?", 20)
        .expect("broadcast to nobody succeeds");
    assert_eq!(plan.destinations.len(), 0);
}

#[test]
fn test_send_to_unknown_peer_is_not_found() {
    let service = started_service(30);
    let err = service.send_text_to_peer("unknown-id", "hello", 20).unwrap_err();
    assert_eq!(err, SendError::PeerNotFound);
    assert_eq!(err.message(), "peer not found");
}

#[test]
fn test_send_oversized_text_is_rejected() {
    // 6001 characters exceed the 6000-character ceiling; the error names
    // the limit, and no plan (hence no datagram) is produced.
    let service = started_service(30);
    let text: String = "x".repeat(6001);
    let err = service.send_text_to_all_peers(&text, 20).unwrap_err();
    assert_eq!(err, SendError::TextTooLarge { length: 6001 });
    assert_eq!(err.message(), "text too large (6001 chars), limit 6000");
    let err = service.send_text_to_peer("peer-a", &text, 20).unwrap_err();
    assert_eq!(err, SendError::TextTooLarge { length: 6001 });
}

#[test]
fn test_send_before_start_is_an_error() {
    let service = DiscoveryService::new(30);
    let err = service.send_text_to_all_peers("hi", 20).unwrap_err();
    assert_eq!(err, SendError::NotStarted);
    assert_eq!(err.message(), "service not started");
}

#[test]
fn test_send_text_targets_advertised_port() {
    let mut service = started_service(30);
    let src = IpAddress::V4(192, 168, 1, 7);
    service.handle_listener_message(&presence_from("peer-a", 9999), src, 10);
    let plan = service.send_text_to_peer("peer-a", "hello", 20).expect("known peer");
    assert_eq!(plan.destinations.len(), 1);
    assert_eq!(plan.destinations[0].ip, src);
    assert_eq!(plan.destinations[0].port, 9999);
    assert!(plan.payload.contains("\"text\":\"hello\""));
}

#[test]
fn test_send_to_all_targets_every_peer() {
    let mut service = started_service(30);
    service.handle_listener_message(&presence_from("peer-a", 1000), IpAddress::V4(10, 0, 0, 1), 10);
    service.handle_listener_message(&presence_from("peer-b", 2000), IpAddress::V4(10, 0, 0, 2), 10);
    let plan = service.send_text_to_all_peers("hello", 20).expect("broadcast");
    assert_eq!(plan.destinations.len(), 2);
    assert_eq!(plan.destinations[0].port, 1000);
    assert_eq!(plan.destinations[1].port, 2000);
}

#[test]
fn test_sweep_stale_through_service() {
    let mut service = started_service(1);
    service.handle_listener_message(&presence_from("peer-a", 1000), IpAddress::V4(10, 0, 0, 1), 10);
    // Two seconds later the entry is beyond the one-second timeout.
    let removed = service.sweep_stale(12);
    assert_eq!(removed, 1);
    assert_eq!(service.peer_count(), 0);
}
