//! Tests of the change store, the index and the orchestrator.

use divvee::changes::{resolve_author, ChangeStore, Identity};
use divvee::cli::ListCmd;
use divvee::config::{default_team, Config};
use divvee::error::Error;
use divvee::filter::{FilterArgs, StatusFilter};
use divvee::system::System;
use divvee::task::Task;

fn alice() -> Identity {
    Identity {
        display_name: String::from("Alice"),
        email: String::from("alice@example.com"),
        public_key: String::from("KEY-ALICE"),
        secret_key: Some(String::from("SECRET-ALICE")),
    }
}

fn bob() -> Identity {
    Identity {
        display_name: String::from("Bob"),
        email: String::from("bob@example.com"),
        public_key: String::from("KEY-BOB"),
        secret_key: None,
    }
}

#[test]
fn record_is_idempotent() {
    let mut store = ChangeStore::new();
    store.write_file("a.md", String::from("hello"));
    store.track("a.md").unwrap();
    let first = store.record("msg", "KEY", 1_000).unwrap();
    assert!(first.is_some());
    assert_eq!(store.log.len(), 1);
    // a second record with no intervening file change commits nothing
    let second = store.record("msg", "KEY", 2_000).unwrap();
    assert!(second.is_none());
    assert_eq!(store.log.len(), 1);
    let hashes = store.changes_for_path("a.md").unwrap();
    assert_eq!(hashes.len(), 1);
}

#[test]
fn record_requires_a_message_only_with_a_diff() {
    let mut store = ChangeStore::new();
    // empty diff: even an empty message is a harmless no-op
    assert!(store.record("", "KEY", 1).unwrap().is_none());
    store.write_file("a.md", String::from("hello"));
    store.track("a.md").unwrap();
    // a diff needs a message
    assert!(matches!(store.record("  ", "KEY", 2), Err(Error::Msg(_))));
    assert!(store.record("real message", "KEY", 3).unwrap().is_some());
}

#[test]
fn track_rejects_invalid_paths() {
    let mut store = ChangeStore::new();
    assert!(matches!(store.track("/absolute"), Err(Error::Msg(_))));
    assert!(matches!(store.track(".hidden"), Err(Error::Msg(_))));
    assert!(matches!(store.track(""), Err(Error::Msg(_))));
    store.track("ok.md").unwrap();
    store.track("ok.md").unwrap();
    assert_eq!(store.paths.len(), 1);
}

#[test]
fn first_and_last_endpoints() {
    let mut store = ChangeStore::new();
    store.write_file("doc.md", String::from("v1"));
    store.track("doc.md").unwrap();
    store.record("first", "KEY", 1).unwrap();
    // written once: equal endpoints
    let (a, b) = store.first_and_last_changes("doc.md").unwrap();
    assert_eq!(a, b);
    // written twice: ordered distinct endpoints
    store.write_file("doc.md", String::from("v2"));
    store.record("second", "KEY", 2).unwrap();
    let (a, b) = store.first_and_last_changes("doc.md").unwrap();
    assert_ne!(a, b);
    let hashes = store.changes_for_path("doc.md").unwrap();
    assert_eq!(hashes.len(), 2);
    // most recent first
    assert_eq!(hashes[0], b);
    assert_eq!(hashes[1], a);
    // a path never under version control is not found
    assert!(matches!(
        store.first_and_last_changes("other.md"),
        Err(Error::NotFound(_))
    ));
}

#[test]
fn change_info_resolves_authors() {
    let mut store = ChangeStore::new();
    store.write_file("doc.md", String::from("v1"));
    store.track("doc.md").unwrap();
    let hash = store.record("first", "KEY-ALICE", 42).unwrap().unwrap();
    let me = alice();
    let known = vec![bob()];
    let info = store.change_info(&hash, &me, &known).unwrap();
    assert_eq!(info.hash, hash);
    assert_eq!(info.message, "first");
    assert_eq!(info.timestamp_millis, 42);
    assert_eq!(info.authors, vec![String::from("alice@example.com")]);
    // a key resolved through the cache
    store.write_file("doc.md", String::from("v2"));
    let hash2 = store.record("second", "KEY-BOB", 43).unwrap().unwrap();
    let info2 = store.change_info(&hash2, &me, &known).unwrap();
    assert_eq!(info2.authors, vec![String::from("bob@example.com")]);
    // an unknown key renders as its own placeholder
    store.write_file("doc.md", String::from("v3"));
    let hash3 = store.record("third", "KEY-GHOST", 44).unwrap().unwrap();
    let info3 = store.change_info(&hash3, &me, &known).unwrap();
    assert_eq!(info3.authors, vec![String::from("KEY-GHOST")]);
    // a missing hash is not found
    assert!(matches!(
        store.change_info("no-such-hash", &me, &known),
        Err(Error::NotFound(_))
    ));
}

#[test]
fn resolve_author_prefers_current_identity() {
    let me = alice();
    let known = vec![bob()];
    let r = resolve_author(&me, &known, "KEY-ALICE").unwrap();
    assert_eq!(r.email, "alice@example.com");
    let r = resolve_author(&me, &known, "KEY-BOB").unwrap();
    assert_eq!(r.email, "bob@example.com");
    assert!(matches!(
        resolve_author(&me, &known, "KEY-GHOST"),
        Err(Error::NotFound(_))
    ));
}

#[test]
fn create_read_and_query_scenario() {
    let mut sys = System::init(alice());
    // an empty directory yields the first id
    assert_eq!(sys.next_id("eng/tasks").unwrap(), 1);
    let task = Task::new("Fix bug");
    let doc = sys.create_doc("eng/tasks/eng-1.md", &task, 1_000).unwrap();
    assert_eq!(doc.repo_path(), "eng/tasks/eng-1.md");
    // the stored file carries the front matter
    let content = sys.store.read_file("eng/tasks/eng-1.md").unwrap();
    assert!(content.starts_with("---\ntitle: Fix bug\n"));
    // reading it back attaches the id and keeps the fields
    let read = sys.read_doc("eng/tasks/eng-1.md").unwrap();
    assert_eq!(read.id.clone().unwrap(), "eng-1");
    assert_eq!(read.title, "Fix bug");
    assert_eq!(read.description, None);
    // the id is taken, so the next one moves on
    assert_eq!(sys.next_id("eng/tasks").unwrap(), 2);
    // the index answers the team query with exactly that record
    let mut f = FilterArgs::new();
    f.team = Some(String::from("eng"));
    assert_eq!(f.to_where_clause(), "id LIKE 'eng-%'");
    let rows = sys.query(&f).unwrap();
    assert_eq!(rows.len(), 1);
    assert_eq!(rows[0].id, "eng-1");
    assert_eq!(rows[0].title, "Fix bug");
    // update: status set, title untouched
    let mut edited = read;
    edited.status = Some(String::from("Done"));
    sys.update_doc("eng/tasks/eng-1.md", &edited, 2_000).unwrap();
    let read2 = sys.read_doc("eng/tasks/eng-1.md").unwrap();
    assert_eq!(read2.title, "Fix bug");
    assert_eq!(read2.status.clone().unwrap(), "Done");
    // history now reports a distinct update
    let md = sys.read_doc_with_meta("eng/tasks/eng-1.md").unwrap();
    assert!(md.updated.is_some());
    assert_ne!(md.created.hash, md.updated.as_ref().unwrap().hash);
    assert_eq!(md.created.authors, vec![String::from("alice@example.com")]);
    assert_eq!(md.doc.status.clone().unwrap(), "Done");
}

#[test]
fn created_equals_updated_after_one_write() {
    let mut sys = System::init(alice());
    let task = Task::new("once");
    sys.create_doc("eng/tasks/eng-1.md", &task, 1_000).unwrap();
    let md = sys.read_doc_with_meta("eng/tasks/eng-1.md").unwrap();
    assert!(md.updated.is_none());
}

#[test]
fn create_fails_on_existing_update_on_missing() {
    let mut sys = System::init(alice());
    let task = Task::new("hello");
    sys.create_doc("eng/tasks/eng-1.md", &task, 1_000).unwrap();
    assert!(matches!(
        sys.create_doc("eng/tasks/eng-1.md", &task, 2_000),
        Err(Error::AlreadyExists(_))
    ));
    assert!(matches!(
        sys.update_doc("eng/tasks/eng-9.md", &task, 3_000),
        Err(Error::NotFound(_))
    ));
    assert!(matches!(
        sys.read_doc("eng/tasks/eng-9.md"),
        Err(Error::NotFound(_))
    ));
}

#[test]
fn query_matching_nothing_is_empty_not_an_error() {
    let mut sys = System::init(alice());
    let task = Task::new("hello");
    sys.create_doc("eng/tasks/eng-1.md", &task, 1_000).unwrap();
    let mut f = FilterArgs::new();
    f.team = Some(String::from("ops"));
    let rows = sys.query(&f).unwrap();
    assert!(rows.is_empty());
    // a status filter no row satisfies
    let mut f2 = FilterArgs::new();
    f2.status = Some(StatusFilter::Closed);
    assert!(sys.query(&f2).unwrap().is_empty());
}

#[test]
fn reindex_repairs_out_of_band_edits() {
    let mut sys = System::init(alice());
    let task = Task::new("original");
    sys.create_doc("eng/tasks/eng-1.md", &task, 1_000).unwrap();
    // an out-of-band edit leaves the index stale
    sys.store.write_file(
        "eng/tasks/eng-1.md",
        String::from("---\ntitle: edited\n\n---\n\n"),
    );
    let mut f = FilterArgs::new();
    f.team = Some(String::from("eng"));
    assert_eq!(sys.query(&f).unwrap()[0].title, "original");
    // reindex repairs the drift
    sys.reindex("eng/tasks/eng-1.md").unwrap();
    assert_eq!(sys.query(&f).unwrap()[0].title, "edited");
}

#[test]
fn index_rows_are_replaced_whole() {
    let mut sys = System::init(alice());
    let mut task = Task::new("with assignee");
    task.assignee = Some(String::from("alice@example.com"));
    sys.create_doc("eng/tasks/eng-1.md", &task, 1_000).unwrap();
    let mut f = FilterArgs::new();
    f.assignee = Some(String::from("alice@example.com"));
    assert_eq!(sys.query(&f).unwrap().len(), 1);
    // the update drops the assignee; the row is overwritten, not merged
    let mut edited = sys.read_doc("eng/tasks/eng-1.md").unwrap();
    edited.assignee = None;
    sys.update_doc("eng/tasks/eng-1.md", &edited, 2_000).unwrap();
    assert!(sys.query(&f).unwrap().is_empty());
}

#[test]
fn read_dir_lists_direct_children_only() {
    let mut sys = System::init(alice());
    sys.create_doc("eng/tasks/eng-1.md", &Task::new("a"), 1_000).unwrap();
    sys.create_doc("eng/tasks/eng-2.md", &Task::new("b"), 2_000).unwrap();
    sys.create_doc("eng/tasks/sub/eng-3.md", &Task::new("c"), 3_000).unwrap();
    sys.create_doc("ops/tasks/ops-1.md", &Task::new("d"), 4_000).unwrap();
    let docs = sys.read_dir("eng/tasks").unwrap();
    let paths: Vec<&str> = docs.iter().map(|d| d.repo_path()).collect();
    assert_eq!(paths, vec!["eng/tasks/eng-1.md", "eng/tasks/eng-2.md"]);
}

#[test]
fn next_id_scans_matching_names() {
    let mut sys = System::init(alice());
    sys.store
        .write_file("eng/tasks/eng-3.md", String::from("x"));
    sys.store
        .write_file("eng/tasks/eng-7.md", String::from("x"));
    sys.store
        .write_file("eng/tasks/readme.txt", String::from("x"));
    sys.store.write_file("eng/tasks/notes", String::from("x"));
    assert_eq!(sys.next_id("eng/tasks").unwrap(), 8);
}

#[test]
fn default_listing_filters_open_tasks_of_the_identity() {
    let me = alice();
    let cmd = ListCmd::mine(&me);
    assert_eq!(cmd.filters.assignee.clone().unwrap(), "alice@example.com");
    assert!(matches!(cmd.filters.status, Some(StatusFilter::Open)));
    assert!(cmd.filters.team.is_none());
    assert_eq!(
        cmd.filters.to_where_clause(),
        "assignee = 'alice@example.com' AND (status IS null OR status = 'Todo' OR status = 'In Progress')"
    );
}

#[test]
fn default_team_comes_from_the_configuration() {
    let empty = Config::empty();
    assert!(matches!(default_team(&empty), Err(Error::Msg(_))));
    let mut cfg = Config::empty();
    cfg.defaults.team = Some(String::from("eng"));
    assert_eq!(default_team(&cfg).unwrap(), "eng");
    assert!(cfg.defaults().team.is_some());
}
