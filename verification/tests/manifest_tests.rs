use veles::manifest;
use veles::ManifestEntry;
use veles::ObjectStore;

fn file(path: &[&str], content: &[u8]) -> ManifestEntry {
    ManifestEntry {
        path: path.iter().map(|s| s.to_string()).collect(),
        is_dir: false,
        content: content.to_vec(),
    }
}

fn dir(path: &[&str]) -> ManifestEntry {
    ManifestEntry {
        path: path.iter().map(|s| s.to_string()).collect(),
        is_dir: true,
        content: Vec::new(),
    }
}

fn digest40(data: &[u8]) -> String {
    let digest = ring::digest::digest(&ring::digest::SHA256, data);
    hex::encode(digest.as_ref())[..40].to_string()
}

#[test]
fn single_file_root() {
    let entries = vec![file(&["a.txt"], b"hello")];
    let mut store = ObjectStore::new();
    let root = manifest(&entries, &mut store).unwrap();
    let blob = digest40(b"hello");
    let expected = digest40(format!("{} a.txt\n", blob).as_bytes());
    assert_eq!(root, expected);
}

#[test]
fn nested_tree_root_matches_hand_computation() {
    let entries = vec![
        file(&["a.txt"], b"hello"),
        dir(&["sub"]),
        file(&["sub", "b.txt"], b"world"),
    ];
    let mut store = ObjectStore::new();
    let root = manifest(&entries, &mut store).unwrap();

    let blob_a = digest40(b"hello");
    let blob_b = digest40(b"world");
    let sub_hash = digest40(format!("{} b.txt\n", blob_b).as_bytes());
    let expected = digest40(format!("{} a.txt\n{} sub\n", blob_a, sub_hash).as_bytes());
    assert_eq!(root, expected);

    // The file blobs themselves went into the object store.
    assert_eq!(store.get_object(&blob_a).unwrap(), b"hello");
    assert_eq!(store.get_object(&blob_b).unwrap(), b"world");
}

#[test]
fn root_hash_is_stable_across_runs() {
    let make = || {
        vec![
            dir(&["docs"]),
            file(&["docs", "x.md"], b"# x"),
            file(&["readme"], b"top"),
        ]
    };
    let mut store1 = ObjectStore::new();
    let mut store2 = ObjectStore::new();
    let root1 = manifest(&make(), &mut store1).unwrap();
    let root2 = manifest(&make(), &mut store2).unwrap();
    assert_eq!(root1, root2);
}

#[test]
fn attachment_order_changes_the_root() {
    // Children are hashed in attachment order, not sorted, so listing
    // the two files the other way round gives a different root.
    let mut store1 = ObjectStore::new();
    let mut store2 = ObjectStore::new();
    let one = manifest(
        &vec![file(&["a"], b"1"), file(&["b"], b"2")],
        &mut store1,
    )
    .unwrap();
    let other = manifest(
        &vec![file(&["b"], b"2"), file(&["a"], b"1")],
        &mut store2,
    )
    .unwrap();
    assert_ne!(one, other);
}

#[test]
fn identical_files_are_stored_once() {
    let entries = vec![file(&["a"], b"same"), file(&["b"], b"same")];
    let mut store = ObjectStore::new();
    manifest(&entries, &mut store).unwrap();
    assert_eq!(store.object_count(), 1);
}

#[test]
fn placeholder_parent_is_created() {
    // A file whose directory was never listed still hangs off a
    // placeholder node for that directory.
    let entries = vec![file(&["ghost", "f.txt"], b"data")];
    let mut store = ObjectStore::new();
    let root = manifest(&entries, &mut store).unwrap();
    assert_eq!(root.len(), 40);
}
