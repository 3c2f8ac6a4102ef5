use lanshare::clock::now_seconds;
use lanshare::peer::Peer;
use lanshare::registry::{PeerRegistry, UpsertOutcome};
use lanshare::IpAddress;

#[test]
fn test_peer_registry() {
    let mut registry = PeerRegistry::new(30);

    let peer = Peer::new(
        "test-id".to_string(),
        IpAddress::V4(192, 168, 1, 100),
        8080,
        Some("test-host".to_string()),
        now_seconds(),
    );

    registry.add_peer(peer.clone());
    assert_eq!(registry.peer_count(), 1);

    let peers = registry.get_peers();
    assert_eq!(peers.len(), 1);
    assert_eq!(peers[0].id, "test-id");

    registry.remove_peer("test-id");
    assert_eq!(registry.peer_count(), 0);
}

#[test]
fn test_peer_stale_detection() {
    let mut registry = PeerRegistry::new(1);
    let now = now_seconds();

    let mut peer = Peer::new(
        "test-id".to_string(),
        IpAddress::V4(192, 168, 1, 100),
        8080,
        None,
        now,
    );

    // Set last_seen two seconds into the past.
    peer.last_seen = now - 2;

    registry.add_peer(peer);
    assert_eq!(registry.peer_count(), 1);

    let removed = registry.cleanup_stale_peers(now);
    assert_eq!(removed, 1);
    assert_eq!(registry.peer_count(), 0);
}

#[test]
fn test_upsert_last_write_wins() {
    let mut registry = PeerRegistry::new(30);
    let first = Peer::new(
        "node".to_string(),
        IpAddress::V4(10, 0, 0, 1),
        4000,
        Some("old-name".to_string()),
        100,
    );
    let second = Peer::new(
        "node".to_string(),
        IpAddress::V4(10, 0, 0, 2),
        4001,
        Some("new-name".to_string()),
        200,
    );
    assert_eq!(registry.add_peer(first), UpsertOutcome::New);
    assert_eq!(registry.add_peer(second), UpsertOutcome::Updated);
    assert_eq!(registry.peer_count(), 1);
    let peers = registry.get_peers();
    assert_eq!(peers[0].ip, IpAddress::V4(10, 0, 0, 2));
    assert_eq!(peers[0].port, 4001);
    assert_eq!(peers[0].last_seen, 200);
    assert_eq!(peers[0].hostname, Some("new-name".to_string()));
}

#[test]
fn test_upsert_idempotent_no_update_event() {
    let mut registry = PeerRegistry::new(30);
    let peer = Peer::new("node".to_string(), IpAddress::V4(10, 0, 0, 1), 4000, None, 100);
    assert_eq!(registry.add_peer(peer.clone()), UpsertOutcome::New);
    assert_eq!(registry.add_peer(peer.clone()), UpsertOutcome::Unchanged);
    assert_eq!(registry.add_peer(peer), UpsertOutcome::Unchanged);
    assert_eq!(registry.peer_count(), 1);
}

#[test]
fn test_sweep_boundary_exclusive() {
    // An entry exactly `timeout` old is retained: the boundary is
    // exclusive. An entry one second older is removed.
    let mut registry = PeerRegistry::new(10);
    let now: u64 = 1000;
    let on_boundary = Peer::new("edge".to_string(), IpAddress::V4(10, 0, 0, 1), 1, None, 990);
    let over_boundary = Peer::new("gone".to_string(), IpAddress::V4(10, 0, 0, 2), 2, None, 989);
    registry.add_peer(on_boundary);
    registry.add_peer(over_boundary);
    let removed = registry.cleanup_stale_peers(now);
    assert_eq!(removed, 1);
    let peers = registry.get_peers();
    assert_eq!(peers.len(), 1);
    assert_eq!(peers[0].id, "edge");
}

#[test]
fn test_sweep_scenario_two_seconds_past() {
    // Registry with a one second timeout; a peer last seen two seconds
    // in the past is swept at once.
    let mut registry = PeerRegistry::new(1);
    let now: u64 = 50;
    let peer = Peer::new("p".to_string(), IpAddress::V4(10, 0, 0, 1), 1, None, 48);
    registry.add_peer(peer);
    let removed = registry.cleanup_stale_peers(now);
    assert_eq!(removed, 1);
    assert_eq!(registry.peer_count(), 0);
}

#[test]
fn test_sweep_keeps_future_entries() {
    let mut registry = PeerRegistry::new(5);
    let peer = Peer::new("ahead".to_string(), IpAddress::V4(10, 0, 0, 1), 1, None, 100);
    registry.add_peer(peer);
    // The clock reads earlier than last_seen: not stale.
    let removed = registry.cleanup_stale_peers(10);
    assert_eq!(removed, 0);
    assert_eq!(registry.peer_count(), 1);
}

#[test]
fn test_remove_peer_reports_absence() {
    let mut registry = PeerRegistry::new(30);
    assert!(!registry.remove_peer("nobody"));
    let peer = Peer::new("here".to_string(), IpAddress::V4(10, 0, 0, 1), 1, None, 1);
    registry.add_peer(peer);
    assert!(registry.remove_peer("here"));
    assert!(!registry.remove_peer("here"));
}

#[test]
fn test_get_peer_copies_entry() {
    let mut registry = PeerRegistry::new(30);
    let peer = Peer::new(
        "here".to_string(),
        IpAddress::V4(10, 0, 0, 7),
        777,
        Some("h".to_string()),
        42,
    );
    registry.add_peer(peer);
    let got = registry.get_peer("here").expect("peer should be present");
    assert_eq!(got.ip, IpAddress::V4(10, 0, 0, 7));
    assert_eq!(got.port, 777);
    assert_eq!(got.last_seen, 42);
    assert!(registry.get_peer("absent").is_none());
}
