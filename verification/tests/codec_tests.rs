use ghostdrive::error::StreamError;
use ghostdrive::ticket::ShareTicket;
use ghostdrive::types::{decode_meta_bytes, encode_meta_bytes, FileMetadata, MediaHash};

fn sample_ticket() -> ShareTicket {
    ShareTicket {
        node_id: "node-abc123".to_string(),
        relay_url: "https://relay.example.com/".to_string(),
        hash: MediaHash("0011aabb".to_string()),
        name: "video.mp4".to_string(),
        created_at: 1700000000,
    }
}

#[test]
fn ticket_round_trip() {
    let ticket = sample_ticket();
    let wire = ticket.encode();
    let back = ShareTicket::decode(&wire).expect("decode");
    assert_eq!(back, ticket);
}

#[test]
fn ticket_round_trip_awkward_name() {
    let mut ticket = sample_ticket();
    ticket.name = "we\"ird\\na\tme \u{1F600} ünïcode.mp4".to_string();
    ticket.created_at = u64::MAX;
    let wire = ticket.encode();
    let back = ShareTicket::decode(&wire).expect("decode");
    assert_eq!(back, ticket);
}

#[test]
fn ticket_decode_rejects_bad_base64() {
    let err = ShareTicket::decode("!!!not base64!!!").unwrap_err();
    assert!(matches!(err, StreamError::InvalidHash(_)));
}

#[test]
fn ticket_decode_rejects_bad_payload() {
    let garbage = base64::Engine::encode(&base64::prelude::BASE64_STANDARD, b"not a ticket");
    let err = ShareTicket::decode(&garbage).unwrap_err();
    assert!(matches!(err, StreamError::InvalidHash(_)));
}

#[test]
fn ticket_wire_is_base64_of_json() {
    let ticket = sample_ticket();
    let wire = ticket.encode();
    let bytes = base64::Engine::decode(&base64::prelude::BASE64_STANDARD, &wire)
        .expect("wire form is base64");
    let value: serde_json::Value = serde_json::from_slice(&bytes).expect("payload is JSON");
    assert_eq!(value["node_id"].as_str().unwrap(), "node-abc123");
    assert_eq!(value["relay_url"].as_str().unwrap(), "https://relay.example.com/");
    assert_eq!(value["hash"].as_str().unwrap(), "0011aabb");
    assert_eq!(value["name"].as_str().unwrap(), "video.mp4");
    assert_eq!(value["created_at"].as_u64().unwrap(), 1700000000);
}

#[test]
fn meta_record_round_trip() {
    let meta = FileMetadata {
        path: "/media/ünïcode päth.mp4".to_string(),
        hash: MediaHash("ff00".to_string()),
        size: u64::MAX,
        mime_type: "video/mp4".to_string(),
        created_at: 0,
    };
    let bytes = encode_meta_bytes(&meta);
    let back = decode_meta_bytes(&bytes).expect("decode");
    assert_eq!(back, meta);
}

#[test]
fn meta_record_rejects_malformed_bytes() {
    assert!(decode_meta_bytes(&b"garbage".to_vec()).is_none());
    assert!(decode_meta_bytes(&Vec::new()).is_none());
    let meta = FileMetadata {
        path: "/a".to_string(),
        hash: MediaHash("b".to_string()),
        size: 1,
        mime_type: "c".to_string(),
        created_at: 2,
    };
    let mut bytes = encode_meta_bytes(&meta);
    bytes.push(0x21);
    assert!(decode_meta_bytes(&bytes).is_none());
}
