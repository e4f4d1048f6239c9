use ghostdrive::daemon::{build_folder_share, display_name, share_ticket_string};
use ghostdrive::error::StreamError;
use ghostdrive::node::{collection_manifest, create_collection, encode_secret_key, node_id_of_key,
    parse_secret_key, NodeProfile};
use ghostdrive::ticket::ShareTicket;
use ghostdrive::types::MediaHash;

fn sample_key() -> Vec<u8> {
    (0u8..32).collect()
}

#[test]
fn identity_round_trip() {
    let key = sample_key();
    let stored = encode_secret_key(&key);
    let back = parse_secret_key(&stored).expect("parse stored key");
    assert_eq!(back, key);

    let with_newline = format!("{}\n", stored);
    let trimmed = parse_secret_key(&with_newline).expect("parse with newline");
    assert_eq!(trimmed, key);

    assert_eq!(node_id_of_key(&key), node_id_of_key(&back));
}

#[test]
fn test_persistent_identity_rejects_bad_keys() {
    assert!(matches!(parse_secret_key("zz"), Err(StreamError::Io(_))));
    assert!(matches!(parse_secret_key("00ff"), Err(StreamError::Io(_))));
    assert!(matches!(parse_secret_key(""), Err(StreamError::Io(_))));
}

#[test]
fn collection_manifest_is_member_digests() {
    let hashes: Vec<MediaHash> = (0..3)
        .map(|i| MediaHash(blake3::hash(&[i as u8]).to_hex().to_string()))
        .collect();
    let manifest = collection_manifest(&hashes).expect("manifest");
    assert_eq!(manifest.len(), 3 * 32);
    for (i, h) in hashes.iter().enumerate() {
        let digest = blake3::hash(&[i as u8]);
        assert_eq!(&manifest[i * 32..(i + 1) * 32], digest.as_bytes());
        assert_eq!(h.0.len(), 64);
    }
}

#[test]
fn collection_hash_is_deterministic() {
    let hashes: Vec<MediaHash> = (0..3)
        .map(|i| MediaHash(blake3::hash(&[i as u8]).to_hex().to_string()))
        .collect();
    let first = create_collection(&hashes).expect("first");
    let second = create_collection(&hashes).expect("second");
    assert_eq!(first, second);

    let manifest = collection_manifest(&hashes).expect("manifest");
    assert_eq!(first.0, blake3::hash(&manifest).to_hex().to_string());
}

#[test]
fn collection_rejects_malformed_hashes() {
    let hashes = vec![MediaHash("not a digest".to_string())];
    assert!(matches!(
        create_collection(&hashes),
        Err(StreamError::InvalidHash(_))
    ));
    let short = vec![MediaHash("00ff".to_string())];
    assert!(matches!(
        create_collection(&short),
        Err(StreamError::InvalidHash(_))
    ));
}

#[test]
fn generated_ticket_captures_profile() {
    let profile = NodeProfile {
        node_id: "node-1".to_string(),
        relay_url: "None".to_string(),
    };
    let ticket = profile.generate_ticket(MediaHash("cafe".to_string()), "clip.mp4".to_string());
    assert_eq!(ticket.node_id, "node-1");
    assert_eq!(ticket.relay_url, "None");
    assert_eq!(ticket.hash.0, "cafe");
    assert_eq!(ticket.name, "clip.mp4");
}

#[test]
fn share_ticket_string_decodes_to_the_share() {
    let profile = NodeProfile {
        node_id: "node-1".to_string(),
        relay_url: "https://relay/".to_string(),
    };
    let wire = share_ticket_string(&profile, MediaHash("beef".to_string()), "dir".to_string());
    let back = ShareTicket::decode(&wire).expect("decode share ticket");
    assert_eq!(back.node_id, "node-1");
    assert_eq!(back.relay_url, "https://relay/");
    assert_eq!(back.hash.0, "beef");
    assert_eq!(back.name, "dir");
}

#[test]
fn folder_share_requires_files() {
    let empty: Vec<MediaHash> = Vec::new();
    assert!(matches!(build_folder_share(&empty), Err(StreamError::Io(_))));
    let hashes = vec![MediaHash(blake3::hash(b"x").to_hex().to_string())];
    assert!(build_folder_share(&hashes).is_ok());
}

#[test]
fn display_name_takes_last_component() {
    assert_eq!(display_name("/media/films/clip.mp4", "unknown"), "clip.mp4");
    assert_eq!(display_name("clip.mp4", "unknown"), "clip.mp4");
    assert_eq!(display_name("/media/films/", "collection"), "collection");
    assert_eq!(display_name("", "unknown"), "unknown");
}
