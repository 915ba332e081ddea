use snip::store::{Store, StoreError};

fn fresh_store() -> Store {
    Store::open_in_memory().expect("in-memory store should open")
}

fn commands_of_list(store: &Store) -> Vec<String> {
    store
        .list()
        .expect("list should succeed")
        .into_iter()
        .map(|s| s.command)
        .collect()
}

#[test]
fn save_same_command_twice_keeps_one_row() {
    let mut store = fresh_store();
    store.save("git status").expect("save should succeed");
    store.save("git status").expect("save should succeed");
    let listed = store.list().expect("list should succeed");
    assert_eq!(listed.len(), 1);
    assert_eq!(listed[0].command, "git status");
}

#[test]
fn list_orders_most_recent_first() {
    let mut store = fresh_store();
    store.save("first").expect("save should succeed");
    store.save("second").expect("save should succeed");
    store.save("third").expect("save should succeed");
    let commands = commands_of_list(&store);
    assert_eq!(commands, vec!["third", "second", "first"]);
}

#[test]
fn ids_grow_with_insertion_order() {
    let mut store = fresh_store();
    store.save("a").expect("save should succeed");
    store.save("b").expect("save should succeed");
    let listed = store.list().expect("list should succeed");
    assert_eq!(listed.len(), 2);
    assert_eq!(listed[0].command, "b");
    assert!(listed[0].id > listed[1].id);
}

#[test]
fn search_is_case_insensitive() {
    let mut store = fresh_store();
    store.save("git status").expect("save should succeed");
    store.save("ls -la").expect("save should succeed");
    let found = store.search("GIT").expect("search should succeed");
    assert_eq!(found.len(), 1);
    assert_eq!(found[0].command, "git status");
    let found_upper_store = store.search("Ls").expect("search should succeed");
    assert_eq!(found_upper_store.len(), 1);
    assert_eq!(found_upper_store[0].command, "ls -la");
}

#[test]
fn search_empty_query_matches_everything() {
    let mut store = fresh_store();
    store.save("one").expect("save should succeed");
    store.save("two").expect("save should succeed");
    let found = store.search("").expect("search should succeed");
    assert_eq!(found.len(), 2);
}

#[test]
fn search_keeps_listing_order() {
    let mut store = fresh_store();
    store.save("git status").expect("save should succeed");
    store.save("ls -la").expect("save should succeed");
    store.save("git log").expect("save should succeed");
    let found = store.search("git").expect("search should succeed");
    let commands: Vec<String> = found.into_iter().map(|s| s.command).collect();
    assert_eq!(commands, vec!["git log", "git status"]);
}

#[test]
fn delete_missing_id_fails_and_changes_nothing() {
    let mut store = fresh_store();
    store.save("keep me").expect("save should succeed");
    store.save("keep me too").expect("save should succeed");
    let before = commands_of_list(&store);
    match store.delete(99_999) {
        Err(StoreError::NotFound(id)) => assert_eq!(id, 99_999),
        _ => panic!("deleting a missing id must fail with NotFound"),
    }
    let after = commands_of_list(&store);
    assert_eq!(before, after);
}

#[test]
fn delete_removes_exactly_that_row() {
    let mut store = fresh_store();
    store.save("stay").expect("save should succeed");
    store.save("go").expect("save should succeed");
    let listed = store.list().expect("list should succeed");
    let go_id = listed
        .iter()
        .find(|s| s.command == "go")
        .expect("row should exist")
        .id;
    store.delete(go_id).expect("delete should succeed");
    let commands = commands_of_list(&store);
    assert_eq!(commands, vec!["stay"]);
    match store.delete(go_id) {
        Err(StoreError::NotFound(_)) => {}
        _ => panic!("the row is gone, so a second delete must fail with NotFound"),
    }
}

#[test]
fn accept_schema_decides_by_the_declared_text() {
    let store = fresh_store();
    match Store::accept_schema(store, "CREATE TABLE snippets (command TEXT)".to_string()) {
        Err(StoreError::IncompatibleSchema) => {}
        _ => panic!("a foreign declaration must be refused"),
    }
    let store = fresh_store();
    let canonical = "CREATE TABLE snippets (id INTEGER PRIMARY KEY AUTOINCREMENT, \
                     command TEXT NOT NULL UNIQUE, created_at TEXT DEFAULT (datetime('now')))";
    assert!(Store::accept_schema(store, canonical.to_string()).is_ok());
}

#[test]
fn reopening_own_database_file_succeeds() {
    let path = "/tmp/snip_reopen_test.db";
    {
        let mut store = Store::open(path).expect("first open should succeed");
        store.save("persisted").expect("save should succeed");
    }
    let store = Store::open(path).expect("reopening the same file should succeed");
    let listed = store.list().expect("list should succeed");
    assert!(listed.iter().any(|s| s.command == "persisted"));
}

#[test]
fn open_refuses_foreign_snippets_table() {
    let path = "/tmp/snip_foreign_test.db";
    let conn = rusqlite::Connection::open(path).expect("raw open should succeed");
    conn.execute_batch(
        "DROP TABLE IF EXISTS snippets;
         CREATE TABLE snippets (id INTEGER PRIMARY KEY, command TEXT, created_at TEXT);",
    )
    .expect("creating the foreign table should succeed");
    drop(conn);
    match Store::open(path) {
        Err(StoreError::IncompatibleSchema) => {}
        Ok(_) => panic!("a snippets table without the UNIQUE constraint must be refused"),
        Err(e) => panic!("unexpected error kind: {e:?}"),
    }
}

#[test]
fn open_in_unreachable_directory_fails_with_storage_init() {
    match Store::open("/nonexistent-snip-dir/snip.db") {
        Err(StoreError::StorageInit(_)) => {}
        Ok(_) => panic!("opening inside a missing directory must fail"),
        Err(_) => panic!("the failure must be StorageInit"),
    }
}
