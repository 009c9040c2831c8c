use veles::uncommit;
use veles::Changeset;
use veles::FileChange;
use veles::ObjectStore;
use veles::Task;
use veles::VelesDAO;
use veles::VelesError;
use veles::VelesRepo;

fn change(path: &str, hash: &str) -> FileChange {
    FileChange {
        path: path.to_string(),
        hash: hash.to_string(),
    }
}

fn tree_object_id(text: &str) -> String {
    let digest = ring::digest::digest(&ring::digest::SHA256, text.as_bytes());
    hex::encode(digest.as_ref())[..40].to_string()
}

#[test]
fn insert_task_is_idempotent_by_name() {
    let mut dao = VelesDAO::new().unwrap();
    dao.insert_task("main").unwrap();
    dao.insert_task("main").unwrap();
    dao.insert_task("feature").unwrap();
    let main = dao.get_task("main").unwrap();
    let feature = dao.get_task("feature").unwrap();
    assert_eq!(main.task_id, 1);
    assert_eq!(feature.task_id, 2);
}

#[test]
fn get_missing_task_is_not_found() {
    let dao = VelesDAO::new().unwrap();
    assert_eq!(dao.get_task("ghost").unwrap_err(), VelesError::NotFound);
}

#[test]
fn insert_changeset_rejects_missing_task() {
    let mut dao = VelesDAO::new().unwrap();
    let row = Changeset {
        changeset_id: -1,
        previous_changeset: 0,
        task_id: 7,
        user: "me".to_string(),
        description: "d".to_string(),
        tree_hash: "h".to_string(),
    };
    assert_eq!(dao.insert_changeset(&row).unwrap_err(), VelesError::DBError);
}

#[test]
fn latest_changeset_none_then_greatest() {
    let mut dao = VelesDAO::new().unwrap();
    dao.insert_task("main").unwrap();
    let task = dao.get_task("main").unwrap();
    assert!(dao.get_latest_changeset(task.task_id).unwrap().is_none());
    for n in 1..4 {
        let row = Changeset {
            changeset_id: -1,
            previous_changeset: n - 1,
            task_id: task.task_id,
            user: "me".to_string(),
            description: format!("change {}", n),
            tree_hash: "t".to_string(),
        };
        let id = dao.insert_changeset(&row).unwrap();
        assert_eq!(id, n as i64);
    }
    let latest = dao.get_latest_changeset(task.task_id).unwrap().unwrap();
    assert_eq!(latest.changeset_id, 3);
    assert_eq!(latest.description, "change 3");
}

#[test]
fn changesets_listing_in_insertion_order() {
    let mut dao = VelesDAO::new().unwrap();
    dao.insert_task("main").unwrap();
    for n in 1..3 {
        let row = Changeset {
            changeset_id: -1,
            previous_changeset: 0,
            task_id: 1,
            user: format!("user{}", n),
            description: format!("desc{}", n),
            tree_hash: "t".to_string(),
        };
        dao.insert_changeset(&row).unwrap();
    }
    let listing = dao.get_changesets().unwrap();
    assert_eq!(listing.len(), 2);
    assert_eq!(listing[0].id, 1);
    assert_eq!(listing[0].user, "user1");
    assert_eq!(listing[1].description, "desc2");
}

#[test]
fn with_rows_accepts_exactly_valid_ledgers() {
    let task = |id: i32, name: &str| Task {
        task_id: id,
        name: name.to_string(),
    };
    let row = |id: i32, tid: i32| Changeset {
        changeset_id: id,
        previous_changeset: 0,
        task_id: tid,
        user: "u".to_string(),
        description: "d".to_string(),
        tree_hash: "t".to_string(),
    };

    // A valid ledger rebuilds.
    let dao = VelesDAO::with_rows(vec![task(1, "main"), task(2, "side")], vec![row(1, 1)]);
    assert!(dao.is_ok());

    // A task id out of line is rejected.
    assert_eq!(
        VelesDAO::with_rows(vec![task(2, "main")], vec![]).err().unwrap(),
        VelesError::DBError
    );
    // A repeated task name is rejected.
    assert_eq!(
        VelesDAO::with_rows(vec![task(1, "main"), task(2, "main")], vec![])
            .err()
            .unwrap(),
        VelesError::DBError
    );
    // A changeset id out of line is rejected.
    assert_eq!(
        VelesDAO::with_rows(vec![task(1, "main")], vec![row(2, 1)])
            .err()
            .unwrap(),
        VelesError::DBError
    );
    // A changeset referencing a missing task is rejected.
    assert_eq!(
        VelesDAO::with_rows(vec![task(1, "main")], vec![row(1, 9)])
            .err()
            .unwrap(),
        VelesError::DBError
    );
}

#[test]
fn open_keeps_the_stored_tasks() {
    let tasks = vec![
        Task {
            task_id: 1,
            name: "main".to_string(),
        },
        Task {
            task_id: 2,
            name: "side".to_string(),
        },
    ];
    let dao = VelesDAO::with_rows(tasks, vec![]).unwrap();
    let mut repo = veles::VelesRepo::open(dao).unwrap();
    // "side" is still there: creating it again changes nothing, and a
    // submit still lands on main with id 1.
    repo.create_task("side").unwrap();
    let mut store = ObjectStore::new();
    let id = repo.submit(&mut store, "u", "d", &vec![]).unwrap();
    assert_eq!(id, 1);
}

#[test]
fn repo_guarantees_main_task() {
    let mut repo = VelesRepo::new().unwrap();
    assert!(repo.latest_changeset().unwrap().is_none());
    repo.create_task("side").unwrap();
    repo.create_task("side").unwrap();
    assert!(repo.changesets().unwrap().is_empty());
}

#[test]
fn submit_chains_changesets() {
    let mut repo = VelesRepo::new().unwrap();
    let mut store = ObjectStore::new();
    let h1 = "aaaaaaaaaaaaaaaaaaaaaaaaaaaaaaaaaaaaaaaa";
    let h2 = "bbbbbbbbbbbbbbbbbbbbbbbbbbbbbbbbbbbbbbbb";

    let id1 = repo
        .submit(&mut store, "ada", "first", &vec![change("a.txt", h1)])
        .unwrap();
    assert_eq!(id1, 1);
    let first = repo.latest_changeset().unwrap().unwrap();
    assert_eq!(first.changeset_id, 1);
    assert_eq!(first.previous_changeset, 0);
    let tree1 = format!("{} a.txt\n", h1);
    assert_eq!(first.tree_hash, tree_object_id(&tree1));
    assert_eq!(uncommit(&store, &first.tree_hash).unwrap(), tree1.as_bytes());

    let id2 = repo
        .submit(&mut store, "ada", "second", &vec![change("b.txt", h2)])
        .unwrap();
    assert_eq!(id2, 2);
    let second = repo.latest_changeset().unwrap().unwrap();
    assert_eq!(second.changeset_id, 2);
    assert_eq!(second.previous_changeset, first.changeset_id);
    // The merged tree keeps every file of the first submit that the
    // second did not overwrite.
    let tree2 = format!("{} a.txt\n{} b.txt\n", h1, h2);
    assert_eq!(second.tree_hash, tree_object_id(&tree2));
    assert_eq!(
        uncommit(&store, &second.tree_hash).unwrap(),
        tree2.as_bytes()
    );
}

#[test]
fn submit_overwrites_per_path() {
    let mut repo = VelesRepo::new().unwrap();
    let mut store = ObjectStore::new();
    let h1 = "aaaaaaaaaaaaaaaaaaaaaaaaaaaaaaaaaaaaaaaa";
    let h2 = "bbbbbbbbbbbbbbbbbbbbbbbbbbbbbbbbbbbbbbbb";
    let h3 = "cccccccccccccccccccccccccccccccccccccccc";
    repo.submit(
        &mut store,
        "ada",
        "base",
        &vec![change("a.txt", h1), change("b.txt", h2)],
    )
    .unwrap();
    repo.submit(&mut store, "ada", "update", &vec![change("a.txt", h3)])
        .unwrap();
    let latest = repo.latest_changeset().unwrap().unwrap();
    let merged = format!("{} a.txt\n{} b.txt\n", h3, h2);
    assert_eq!(uncommit(&store, &latest.tree_hash).unwrap(), merged.as_bytes());
}

#[test]
fn submit_records_owner_and_description() {
    let mut repo = VelesRepo::new().unwrap();
    let mut store = ObjectStore::new();
    repo.submit(&mut store, "grace", "message", &vec![]).unwrap();
    let listing = repo.changesets().unwrap();
    assert_eq!(listing.len(), 1);
    assert_eq!(listing[0].user, "grace");
    assert_eq!(listing[0].description, "message");
}
