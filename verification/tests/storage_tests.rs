use veles::VelesError;
use veles::VelesStore;

/// Builds the on-disk bytes of one row exactly as the store lays them
/// out: checksum, header, key, value, all integers big-endian.
fn make_record(ts: u32, key: &[u8], value: &[u8]) -> Vec<u8> {
    let mut data = Vec::new();
    data.extend_from_slice(&ts.to_be_bytes());
    data.extend_from_slice(&(key.len() as u32).to_be_bytes());
    data.extend_from_slice(&(value.len() as u32).to_be_bytes());
    data.extend_from_slice(&[0, 1, 0, 1]);
    data.extend_from_slice(key);
    data.extend_from_slice(value);
    let crc = crc32fast::hash(&data);
    let mut rec = Vec::new();
    rec.extend_from_slice(&crc.to_be_bytes());
    rec.extend_from_slice(&data);
    rec
}

#[test]
fn put_then_get_same_session() {
    let mut store = VelesStore::new(Vec::new()).unwrap();
    store.put("alpha", "one", 11).unwrap();
    assert_eq!(store.get("alpha").unwrap(), "one");
}

#[test]
fn record_layout_exact() {
    let mut store = VelesStore::new(Vec::new()).unwrap();
    store.put("k", "v", 7).unwrap();
    let expected = make_record(7, b"k", b"v");
    assert_eq!(store.log_bytes().clone(), expected);
}

#[test]
fn roundtrip_after_reopen() {
    let mut store = VelesStore::new(Vec::new()).unwrap();
    store.put("alpha", "one", 1).unwrap();
    store.put("beta", "two", 2).unwrap();
    let log = store.log_bytes().clone();
    let reopened = VelesStore::new(log).unwrap();
    assert_eq!(reopened.get("alpha").unwrap(), "one");
    assert_eq!(reopened.get("beta").unwrap(), "two");
}

#[test]
fn last_write_wins() {
    let mut store = VelesStore::new(Vec::new()).unwrap();
    store.put("key", "first", 1).unwrap();
    store.put("key", "second", 2).unwrap();
    assert_eq!(store.get("key").unwrap(), "second");
    let reopened = VelesStore::new(store.log_bytes().clone()).unwrap();
    assert_eq!(reopened.get("key").unwrap(), "second");
}

#[test]
fn get_missing_key_is_not_found() {
    let store = VelesStore::new(Vec::new()).unwrap();
    assert_eq!(store.get("nope").unwrap_err(), VelesError::NotFound);
}

#[test]
fn unicode_keys_and_values() {
    let mut store = VelesStore::new(Vec::new()).unwrap();
    store.put("sch\u{f6}n", "h\u{e9}h\u{e9}", 5).unwrap();
    let reopened = VelesStore::new(store.log_bytes().clone()).unwrap();
    assert_eq!(reopened.get("sch\u{f6}n").unwrap(), "h\u{e9}h\u{e9}");
}

#[test]
fn flipping_any_byte_is_detected() {
    let mut store = VelesStore::new(Vec::new()).unwrap();
    store.put("key", "value", 42).unwrap();
    store.put("other", "thing", 43).unwrap();
    let good = store.log_bytes().clone();
    assert!(VelesStore::new(good.clone()).is_ok());
    for i in 0..good.len() {
        for flip in [0x01u8, 0x80u8] {
            let mut bad = good.clone();
            bad[i] ^= flip;
            let result = VelesStore::new(bad);
            assert_eq!(
                result.err().unwrap(),
                VelesError::CorruptedData,
                "flip at byte {} went undetected",
                i
            );
        }
    }
}

#[test]
fn truncated_log_is_corrupt() {
    let mut store = VelesStore::new(Vec::new()).unwrap();
    store.put("key", "value", 42).unwrap();
    let good = store.log_bytes().clone();
    for cut in 1..good.len() {
        let shorter = good[..cut].to_vec();
        assert_eq!(
            VelesStore::new(shorter).err().unwrap(),
            VelesError::CorruptedData
        );
    }
}

#[test]
fn invalid_utf8_key_is_serialization_error() {
    let rec = make_record(1, &[0xff, 0xfe], b"value");
    assert_eq!(
        VelesStore::new(rec).err().unwrap(),
        VelesError::SerializationError
    );
}

#[test]
fn invalid_utf8_value_is_serialization_error() {
    let rec = make_record(1, b"key", &[0xc0, 0x00]);
    assert_eq!(
        VelesStore::new(rec).err().unwrap(),
        VelesError::SerializationError
    );
}

#[test]
fn corruption_beats_bad_text_when_the_log_is_broken() {
    // A non-text row followed by a structurally broken tail: the open
    // reports corruption, since the log as a whole does not parse.
    let mut log = make_record(1, &[0xff, 0xfe], b"value");
    log.extend_from_slice(&[1, 2, 3]);
    assert_eq!(
        VelesStore::new(log).err().unwrap(),
        VelesError::CorruptedData
    );
}

#[test]
fn bad_text_in_a_sound_log_is_serialization_error() {
    // A non-text row followed by a sound row: every checksum holds, so
    // the failure is the text, not corruption.
    let mut log = make_record(1, &[0xff, 0xfe], b"value");
    log.extend_from_slice(&make_record(2, b"key", b"value"));
    assert_eq!(
        VelesStore::new(log).err().unwrap(),
        VelesError::SerializationError
    );
}

#[test]
fn compact_preserves_reads_and_never_grows() {
    let mut store = VelesStore::new(Vec::new()).unwrap();
    store.put("a", "1", 1).unwrap();
    store.put("b", "2", 2).unwrap();
    store.put("a", "3", 3).unwrap();
    store.put("c", "4", 4).unwrap();
    store.put("b", "5", 5).unwrap();
    let before_len = store.log_bytes().len();
    let before: Vec<(&str, String)> = vec![
        ("a", store.get("a").unwrap()),
        ("b", store.get("b").unwrap()),
        ("c", store.get("c").unwrap()),
    ];
    store.compact(99).unwrap();
    assert!(store.log_bytes().len() <= before_len);
    for (key, value) in &before {
        assert_eq!(&store.get(key).unwrap(), value);
    }
    let reopened = VelesStore::new(store.log_bytes().clone()).unwrap();
    for (key, value) in &before {
        assert_eq!(&reopened.get(key).unwrap(), value);
    }
}

#[test]
fn scenario_two_keys_reopen_compact_reopen() {
    let mut store = VelesStore::new(Vec::new()).unwrap();
    store.put("a", "1", 10).unwrap();
    store.put("b", "2", 11).unwrap();
    let mut reopened = VelesStore::new(store.log_bytes().clone()).unwrap();
    assert_eq!(reopened.get("a").unwrap(), "1");
    assert_eq!(reopened.get("b").unwrap(), "2");
    reopened.compact(12).unwrap();
    let again = VelesStore::new(reopened.log_bytes().clone()).unwrap();
    assert_eq!(again.get("a").unwrap(), "1");
    assert_eq!(again.get("b").unwrap(), "2");
}

#[test]
fn empty_log_opens_empty() {
    let store = VelesStore::new(Vec::new()).unwrap();
    assert_eq!(store.log_bytes().len(), 0);
    assert_eq!(store.get("anything").unwrap_err(), VelesError::NotFound);
}
