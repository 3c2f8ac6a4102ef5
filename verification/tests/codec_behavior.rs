use lanshare::codec::{decode_message, encode_message, u64_to_string};
use lanshare::message::{DiscoveryMessage, MessageType};

fn presence(peer_id: &str, port: u16, hostname: Option<&str>, timestamp: u64) -> DiscoveryMessage {
    DiscoveryMessage {
        message_type: MessageType::PeerDiscovery,
        peer_id: peer_id.to_string(),
        port,
        hostname: hostname.map(|h| h.to_string()),
        timestamp,
        text: None,
    }
}

#[test]
fn test_encode_presence_exact() {
    let msg = presence("abc", 7878, None, 5);
    let wire = encode_message(&msg);
    assert_eq!(
        wire,
        "{\"message_type\":\"PeerDiscovery\",\"peer_id\":\"abc\",\"port\":7878,\"hostname\":null,\"timestamp\":5,\"text\":null}"
    );
}

#[test]
fn test_encode_text_exact() {
    let msg = DiscoveryMessage {
        message_type: MessageType::TextMessage,
        peer_id: "id-1".to_string(),
        port: 7878,
        hostname: Some("box".to_string()),
        timestamp: 1700000000,
        text: Some("hi there".to_string()),
    };
    let wire = encode_message(&msg);
    assert_eq!(
        wire,
        "{\"message_type\":\"TextMessage\",\"peer_id\":\"id-1\",\"port\":7878,\"hostname\":\"box\",\"timestamp\":1700000000,\"text\":\"hi there\"}"
    );
}

#[test]
fn test_round_trip_presence_no_text() {
    let msg = presence("node-77", 8080, Some("host-a"), 123456789);
    let wire = encode_message(&msg);
    let back = decode_message(&wire).expect("canonical form must decode");
    assert_eq!(back.message_type, MessageType::PeerDiscovery);
    assert_eq!(back.peer_id, "node-77");
    assert_eq!(back.port, 8080);
    assert_eq!(back.hostname, Some("host-a".to_string()));
    assert_eq!(back.timestamp, 123456789);
    assert_eq!(back.text, None);
}

#[test]
fn test_round_trip_text_message() {
    let msg = DiscoveryMessage {
        message_type: MessageType::TextMessage,
        peer_id: "sender".to_string(),
        port: 7878,
        hostname: None,
        timestamp: 42,
        text: Some("hello over the lan".to_string()),
    };
    let wire = encode_message(&msg);
    let back = decode_message(&wire).expect("canonical form must decode");
    assert_eq!(back.message_type, MessageType::TextMessage);
    assert_eq!(back.peer_id, "sender");
    assert_eq!(back.port, 7878);
    assert_eq!(back.hostname, None);
    assert_eq!(back.timestamp, 42);
    assert_eq!(back.text, Some("hello over the lan".to_string()));
}

#[test]
fn test_round_trip_escaped_characters() {
    let msg = DiscoveryMessage {
        message_type: MessageType::TextMessage,
        peer_id: "q\"uo\\te".to_string(),
        port: 1,
        hostname: Some("\\\\server\\share".to_string()),
        timestamp: 0,
        text: Some("she said \"hi\"".to_string()),
    };
    let wire = encode_message(&msg);
    let back = decode_message(&wire).expect("escapes must decode");
    assert_eq!(back.peer_id, "q\"uo\\te");
    assert_eq!(back.hostname, Some("\\\\server\\share".to_string()));
    assert_eq!(back.text, Some("she said \"hi\"".to_string()));
}

#[test]
fn test_round_trip_unicode_text() {
    let msg = DiscoveryMessage {
        message_type: MessageType::TextMessage,
        peer_id: "Ünïcode-péer".to_string(),
        port: 65535,
        hostname: None,
        timestamp: u64::MAX,
        text: Some("héllo — ♥".to_string()),
    };
    let wire = encode_message(&msg);
    let back = decode_message(&wire).expect("unicode must decode");
    assert_eq!(back.peer_id, "Ünïcode-péer");
    assert_eq!(back.port, 65535);
    assert_eq!(back.timestamp, u64::MAX);
    assert_eq!(back.text, Some("héllo — ♥".to_string()));
}

#[test]
fn test_decode_rejects_garbage() {
    assert!(decode_message("").is_none());
    assert!(decode_message("not json at all").is_none());
    assert!(decode_message("{\"message_type\":\"Other\",\"peer_id\":\"x\"}").is_none());
    assert!(decode_message("{\"message_type\":\"PeerDiscovery\"").is_none());
}

#[test]
fn test_decode_rejects_trailing_noise() {
    let msg = presence("abc", 7878, None, 5);
    let mut wire = encode_message(&msg);
    wire.push('x');
    assert!(decode_message(&wire).is_none());
}

#[test]
fn test_decode_rejects_port_out_of_range() {
    let wire = "{\"message_type\":\"PeerDiscovery\",\"peer_id\":\"abc\",\"port\":65536,\"hostname\":null,\"timestamp\":5,\"text\":null}";
    assert!(decode_message(wire).is_none());
}

#[test]
fn test_u64_to_string_exact() {
    assert_eq!(u64_to_string(0), "0");
    assert_eq!(u64_to_string(7), "7");
    assert_eq!(u64_to_string(7878), "7878");
    assert_eq!(u64_to_string(u64::MAX), "18446744073709551615");
}
