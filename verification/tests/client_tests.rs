use veles::IndexState;
use veles::VelesClient;
use veles::VelesConfig;
use veles::VelesError;
use veles::VelesIndex;
use veles::VelesRepo;

fn some_config() -> VelesConfig {
    VelesConfig::default()
}

#[test]
fn client_requires_initialized_store() {
    match VelesClient::new(false, some_config()) {
        Ok(_) => panic!("client opened without an initialized store"),
        Err(e) => assert_eq!(e, VelesError::NotInitialized),
    }
    assert!(VelesClient::new(true, some_config()).is_ok());
}

#[test]
fn config_updates_username() {
    let mut client = VelesClient::new(true, some_config()).unwrap();
    let shown = client.config(Some("ada".to_string()));
    assert_eq!(shown.user.name.as_deref(), Some("ada"));
    let unchanged = client.config(None);
    assert_eq!(unchanged.user.name.as_deref(), Some("ada"));
}

#[test]
fn refresh_adds_unknown_paths_once() {
    let mut index = VelesIndex::new(100);
    index.refresh("src/a.rs".to_string(), 1, 2);
    index.refresh("src/b.rs".to_string(), 3, 4);
    index.refresh("src/a.rs".to_string(), 9, 9);
    assert_eq!(index.entries.len(), 2);
    assert_eq!(index.entries[0].path, "src/a.rs");
    assert_eq!(index.entries[0].created, 1);
    assert_eq!(index.entries[0].state, IndexState::Untracked);
}

#[test]
fn add_marks_entry_and_checks_existence() {
    let client = VelesClient::new(true, some_config()).unwrap();
    let mut index = VelesIndex::new(100);
    index.refresh("a".to_string(), 1, 1);
    index.refresh("b".to_string(), 2, 2);

    let missing = client.add(&mut index, false, &"a".to_string());
    assert_eq!(missing.unwrap_err(), VelesError::NotFound);
    assert_eq!(index.entries[0].state, IndexState::Untracked);

    client.add(&mut index, true, &"a".to_string()).unwrap();
    assert_eq!(index.entries[0].state, IndexState::Added);
    assert_eq!(index.entries[1].state, IndexState::Untracked);
}

#[test]
fn reset_clears_added_states() {
    let client = VelesClient::new(true, some_config()).unwrap();
    let mut index = VelesIndex::new(100);
    index.refresh("a".to_string(), 1, 1);
    index.refresh("b".to_string(), 2, 2);
    client.add(&mut index, true, &"b".to_string()).unwrap();
    assert_eq!(index.added_paths(), vec!["b".to_string()]);
    index.reset();
    assert_eq!(index.entries[1].state, IndexState::Untracked);
    assert!(index.added_paths().is_empty());
}

#[test]
fn changes_lists_known_paths_in_walk_order() {
    let client = VelesClient::new(true, some_config()).unwrap();
    let mut index = VelesIndex::new(100);
    index.refresh("a".to_string(), 1, 1);
    index.refresh("b".to_string(), 2, 2);
    client.add(&mut index, true, &"b".to_string()).unwrap();

    let walked = vec!["b".to_string(), "unknown".to_string(), "a".to_string()];
    let listing = client.changes(&index, &walked);
    assert_eq!(listing.len(), 2);
    assert_eq!(listing[0].path, "b");
    assert_eq!(listing[0].state, IndexState::Added);
    assert_eq!(listing[1].path, "a");
    assert_eq!(listing[1].state, IndexState::Untracked);
}

#[test]
fn probe_classifies_walked_files() {
    let mut index = VelesIndex::new(100);
    index.refresh("a".to_string(), 1, 7);
    assert_eq!(index.probe(&"a".to_string(), 7), veles::FileProbe::Unchanged);
    assert_eq!(index.probe(&"a".to_string(), 8), veles::FileProbe::Modified);
    assert_eq!(index.probe(&"b".to_string(), 7), veles::FileProbe::New);
}

#[test]
fn sync_and_changesets_pass_through() {
    let client = VelesClient::new(true, some_config()).unwrap();
    client.sync().unwrap();
    let repo = VelesRepo::new().unwrap();
    assert!(client.changesets(&repo).unwrap().is_empty());
}
