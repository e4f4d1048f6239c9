use ghostdrive::index::FileIndex;
use ghostdrive::watcher::{handle_event, process_file_content, should_ignore, DebounceQueue,
    WatchEventKind, DEBOUNCE_MS};

fn temp_db(name: &str) -> String {
    let nanos = std::time::SystemTime::now()
        .duration_since(std::time::UNIX_EPOCH)
        .unwrap()
        .as_nanos();
    format!("/tmp/ghostdrive_{}_{}.redb", name, nanos)
}

#[test]
fn burst_of_events_processes_once() {
    let mut queue = DebounceQueue::new();
    let path = "/watched/video.mp4".to_string();
    queue.schedule(&path, 0);
    queue.schedule(&path, 100);
    queue.schedule(&path, 200);
    assert_eq!(queue.deadline_of(&path), Some(200 + DEBOUNCE_MS));

    let early = queue.take_due(200 + DEBOUNCE_MS - 1);
    assert!(early.is_empty());
    assert_eq!(queue.deadline_of(&path), Some(200 + DEBOUNCE_MS));

    let due = queue.take_due(200 + DEBOUNCE_MS);
    assert_eq!(due.len(), 1);
    assert_eq!(due[0], path);
    assert_eq!(queue.deadline_of(&path), None);

    let again = queue.take_due(10_000);
    assert!(again.is_empty());
}

#[test]
fn flush_dispatches_only_elapsed_paths() {
    let mut queue = DebounceQueue::new();
    let early = "/watched/a.bin".to_string();
    let late = "/watched/b.bin".to_string();
    queue.schedule(&early, 0);
    queue.schedule(&late, 400);
    let due = queue.take_due(DEBOUNCE_MS);
    assert_eq!(due, vec![early.clone()]);
    assert_eq!(queue.deadline_of(&late), Some(400 + DEBOUNCE_MS));
}

#[test]
fn delete_cancels_pending_and_clears_index() {
    let db_path = temp_db("watch_delete_test");
    let mut index = FileIndex::open(&db_path).expect("open index");
    let mut queue = DebounceQueue::new();
    let path = "/watched/video.mp4".to_string();

    let content = b"dummy video content".to_vec();
    process_file_content(&mut index, &path, &content, 42).expect("process");
    assert!(index.get_by_path(&path).expect("get").is_some());

    queue.schedule(&path, 1000);
    assert!(queue.deadline_of(&path).is_some());

    handle_event(&mut queue, &mut index, &WatchEventKind::Removed, &path, 1100)
        .expect("handle removal");
    assert_eq!(queue.deadline_of(&path), None);
    assert!(index.get_by_path(&path).expect("get after removal").is_none());
}

#[test]
fn hidden_files_are_ignored_entirely() {
    assert!(should_ignore("/watched/.hidden"));
    assert!(should_ignore(".bashrc"));
    assert!(!should_ignore("/watched/visible.mp4"));
    assert!(!should_ignore("/watched/.config/visible.mp4"));
    assert!(!should_ignore("/watched/dir/"));

    let db_path = temp_db("watch_ignore_test");
    let mut index = FileIndex::open(&db_path).expect("open index");
    let mut queue = DebounceQueue::new();
    let hidden = "/watched/.partial".to_string();
    handle_event(&mut queue, &mut index, &WatchEventKind::Created, &hidden, 0)
        .expect("handle hidden");
    assert_eq!(queue.deadline_of(&hidden), None);
}

#[test]
fn create_event_schedules_and_leaves_index_alone() {
    let db_path = temp_db("watch_create_test");
    let mut index = FileIndex::open(&db_path).expect("open index");
    let mut queue = DebounceQueue::new();
    let path = "/watched/new.mp4".to_string();
    handle_event(&mut queue, &mut index, &WatchEventKind::Created, &path, 7)
        .expect("handle create");
    assert_eq!(queue.deadline_of(&path), Some(7 + DEBOUNCE_MS));
    assert!(index.get_by_path(&path).expect("get").is_none());
}

#[test]
fn processing_writes_hash_size_and_mime() {
    let db_path = temp_db("watch_process_test");
    let mut index = FileIndex::open(&db_path).expect("open index");
    let path = "/watched/video.mp4".to_string();
    let content = b"18 bytes of video!".to_vec();
    assert_eq!(content.len(), 18);

    let hash = process_file_content(&mut index, &path, &content, 1234).expect("process");
    let expected = blake3::hash(&content).to_hex().to_string();
    assert_eq!(hash.0, expected);

    let meta = index.get_by_path(&path).expect("get").expect("indexed");
    assert_eq!(meta.size, 18);
    assert_eq!(meta.mime_type, "video/mp4");
    assert_eq!(meta.hash.0, expected);
    assert_eq!(meta.created_at, 1234);
}

#[test]
fn identical_content_hashes_identically() {
    let db_path = temp_db("watch_rehash_test");
    let mut index = FileIndex::open(&db_path).expect("open index");
    let path = "/watched/video.mp4".to_string();
    let content = b"Hello World Media".to_vec();
    let first = process_file_content(&mut index, &path, &content, 1).expect("first");
    let second = process_file_content(&mut index, &path, &content, 2).expect("second");
    assert_eq!(first, second);
}
