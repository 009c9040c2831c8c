use veles::uncommit;
use veles::Finalize;
use veles::Object;
use veles::ObjectStore;
use veles::VelesError;

/// The 40-character id the store derives, computed independently with
/// `ring` and `hex`.
fn expected_id(content: &[u8]) -> String {
    let digest = ring::digest::digest(&ring::digest::SHA256, content);
    hex::encode(digest.as_ref())[..40].to_string()
}

#[test]
fn id_is_truncated_hex_sha256() {
    let mut store = ObjectStore::new();
    let id = store.put_object(b"hello world");
    assert_eq!(id, expected_id(b"hello world"));
    assert_eq!(id.len(), 40);
}

#[test]
fn idempotent_object_writes() {
    let mut store = ObjectStore::new();
    let first = store.put_object(b"same bytes");
    assert_eq!(store.object_count(), 1);
    let second = store.put_object(b"same bytes");
    assert_eq!(first, second);
    assert_eq!(store.object_count(), 1);
}

#[test]
fn distinct_content_gets_distinct_ids() {
    let mut store = ObjectStore::new();
    let a = store.put_object(b"content one");
    let b = store.put_object(b"content two");
    assert_ne!(a, b);
    assert_eq!(store.object_count(), 2);
}

#[test]
fn object_roundtrips_through_compression() {
    let mut store = ObjectStore::new();
    let content: Vec<u8> = (0u32..4096).map(|i| (i % 251) as u8).collect();
    let id = store.put_object(&content);
    let back = store.get_object(&id).unwrap();
    assert_eq!(back, content);
}

#[test]
fn empty_object_roundtrips() {
    let mut store = ObjectStore::new();
    let id = store.put_object(b"");
    assert_eq!(id, expected_id(b""));
    assert_eq!(store.get_object(&id).unwrap(), Vec::<u8>::new());
}

#[test]
fn missing_object_is_not_found() {
    let store = ObjectStore::new();
    let absent = "0123456789abcdef0123456789abcdef01234567";
    assert_eq!(store.get_object(absent).unwrap_err(), VelesError::NotFound);
    assert_eq!(uncommit(&store, absent).unwrap_err(), VelesError::NotFound);
}

#[test]
fn uncommit_reads_back_content() {
    let mut store = ObjectStore::new();
    let id = store.put_object(b"some tracked text\n");
    assert_eq!(uncommit(&store, &id).unwrap(), b"some tracked text\n");
}

#[test]
fn writer_accumulates_then_finalizes() {
    let mut store = ObjectStore::new();
    let mut writer = Object::new().unwrap();
    writer.write_all(b"split ");
    writer.write_all(b"content");
    let id = writer.finalize(&mut store).unwrap();
    assert_eq!(id, expected_id(b"split content"));
    assert_eq!(store.get_object(&id).unwrap(), b"split content");
}

#[test]
fn path_parts_split_two_then_thirtyeight() {
    let id = "0123456789abcdef0123456789abcdef01234567";
    let (dir, file) = veles::objects::object_path_parts(id);
    assert_eq!(dir, "01");
    assert_eq!(file, "23456789abcdef0123456789abcdef01234567");
}
