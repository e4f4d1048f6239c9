use ghostdrive::index::FileIndex;
use ghostdrive::types::{FileMetadata, MediaHash};

fn temp_db(name: &str) -> String {
    let nanos = std::time::SystemTime::now()
        .duration_since(std::time::UNIX_EPOCH)
        .unwrap()
        .as_nanos();
    format!("/tmp/ghostdrive_{}_{}.redb", name, nanos)
}

fn sample_meta() -> FileMetadata {
    FileMetadata {
        path: "/test/video.mp4".to_string(),
        hash: MediaHash("abc123456".to_string()),
        size: 1024,
        mime_type: "video/mp4".to_string(),
        created_at: 1234567890,
    }
}

#[test]
fn test_crud_operations() {
    let db_path = temp_db("db_crud_test");
    let mut index = FileIndex::open(&db_path).expect("open index");
    let meta = sample_meta();

    index.upsert_file(&meta).expect("upsert");

    let by_path = index.get_by_path("/test/video.mp4").expect("get_by_path");
    assert!(by_path.is_some());
    let got = by_path.unwrap();
    assert_eq!(got, meta);

    let by_hash = index
        .get_by_hash(&MediaHash("abc123456".to_string()))
        .expect("get_by_hash");
    assert_eq!(by_hash.unwrap(), meta);

    let all = index.list_all().expect("list_all");
    assert_eq!(all.len(), 1);

    index.remove_file("/test/video.mp4").expect("remove");
    assert!(index.get_by_path("/test/video.mp4").expect("get after remove").is_none());
    assert!(index
        .get_by_hash(&MediaHash("abc123456".to_string()))
        .expect("get_by_hash after remove")
        .is_none());

    index.compact().expect("compact");
}

#[test]
fn test_db_creation() {
    let db_path = temp_db("db_test");
    let first = FileIndex::open(&db_path);
    assert!(first.is_ok());
    drop(first);
    let again = FileIndex::open(&db_path);
    assert!(again.is_ok());
}

#[test]
fn list_all_returns_every_record() {
    let db_path = temp_db("db_list_test");
    let mut index = FileIndex::open(&db_path).expect("open index");
    for i in 0..3u64 {
        let meta = FileMetadata {
            path: format!("/media/file{}.bin", i),
            hash: MediaHash(format!("hash{}", i)),
            size: i,
            mime_type: "application/octet-stream".to_string(),
            created_at: 100 + i,
        };
        index.upsert_file(&meta).expect("upsert");
    }
    let all = index.list_all().expect("list_all");
    assert_eq!(all.len(), 3);
    let mut paths: Vec<String> = all.iter().map(|m| m.path.clone()).collect();
    paths.sort();
    assert_eq!(paths, vec![
        "/media/file0.bin".to_string(),
        "/media/file1.bin".to_string(),
        "/media/file2.bin".to_string(),
    ]);
}

#[test]
fn upsert_overwrites_prior_record() {
    let db_path = temp_db("db_overwrite_test");
    let mut index = FileIndex::open(&db_path).expect("open index");
    let mut meta = sample_meta();
    index.upsert_file(&meta).expect("first upsert");
    meta.size = 2048;
    meta.hash = MediaHash("def789".to_string());
    index.upsert_file(&meta).expect("second upsert");
    let got = index.get_by_path("/test/video.mp4").expect("get").unwrap();
    assert_eq!(got.size, 2048);
    assert_eq!(got.hash.0, "def789");
    let by_new_hash = index
        .get_by_hash(&MediaHash("def789".to_string()))
        .expect("get_by_hash")
        .unwrap();
    assert_eq!(by_new_hash.path, "/test/video.mp4");
}

#[test]
fn compact_keeps_contents() {
    let db_path = temp_db("db_compact_test");
    let mut index = FileIndex::open(&db_path).expect("open index");
    let meta = sample_meta();
    index.upsert_file(&meta).expect("upsert");
    index.compact().expect("compact");
    assert!(index.get_by_path("/test/video.mp4").expect("get").is_some());
}
