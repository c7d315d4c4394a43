//! Tests of the document codec, id handling and filters.

use divvee::error::Error;
use divvee::filter::{FilterArgs, Status, StatusFilter};
use divvee::ids::{file_stem, id_num_of, next_id_from_names, team_and_id};
use divvee::task::Task;

#[test]
fn test_new_task() {
    let mut doc = Task::new("hello");
    assert_eq!(doc.to_doc_string().trim(), "---\ntitle: hello\n\n---");
    doc.description = Some("description".to_string());
    assert_eq!(
        doc.to_doc_string().trim(),
        "---\ntitle: hello\n\n---\n\ndescription"
    );
}

#[test]
fn test_task_parse() {
    let task = Task::parse_doc("---\ntitle: hello\n---", None).unwrap();
    assert_eq!(task.title, "hello");
    let task = Task::parse_doc("---\ntitle: hello\n---\n\ndescription", None).unwrap();
    assert_eq!(task.description.unwrap(), "description");
}

#[test]
fn serialize_full_task() {
    let mut t = Task::new("Fix bug");
    t.status = Some(String::from("Done"));
    t.assignee = Some(String::from("alice"));
    t.labels = vec![String::from("urgent"), String::from("backend")];
    t.props = vec![
        (String::from("estimate"), String::from("3d")),
        (String::from("sprint"), String::from("12")),
    ];
    t.description = Some(String::from("First line.\nSecond line."));
    let s = t.to_doc_string();
    assert_eq!(
        s,
        "---\ntitle: Fix bug\nstatus: Done\nassignee: alice\nlabels:\n- urgent\n- backend\nprops:\n  estimate: 3d\n  sprint: 12\n\n---\n\nFirst line.\nSecond line."
    );
}

#[test]
fn round_trip_full_task() {
    let mut t = Task::new("Fix bug");
    t.status = Some(String::from("Done"));
    t.assignee = Some(String::from("alice"));
    t.labels = vec![String::from("urgent"), String::from("backend")];
    t.props = vec![
        (String::from("estimate"), String::from("3d")),
        (String::from("sprint"), String::from("12")),
    ];
    t.description = Some(String::from("First line.\nSecond line."));
    let s = t.to_doc_string();
    let back = Task::parse_doc(&s, Some("eng/tasks/eng-9.md")).unwrap();
    assert_eq!(back.id.clone().unwrap(), "eng-9");
    assert_eq!(back.title, t.title);
    assert_eq!(back.status, t.status);
    assert_eq!(back.assignee, t.assignee);
    assert_eq!(back.labels, t.labels);
    assert_eq!(back.props, t.props);
    assert_eq!(back.description, t.description);
}

#[test]
fn round_trip_minimal_task() {
    let t = Task::new("only a title");
    let back = Task::parse_doc(&t.to_doc_string(), Some("a/b-2.md")).unwrap();
    assert_eq!(back.id.clone().unwrap(), "b-2");
    assert_eq!(back.title, "only a title");
    assert_eq!(back.status, None);
    assert_eq!(back.assignee, None);
    assert!(back.labels.is_empty());
    assert!(back.props.is_empty());
    assert_eq!(back.description, None);
}

#[test]
fn parse_rejects_malformed_front_matter() {
    // no opening delimiter
    let r = Task::parse_doc("title: hello", None);
    assert!(matches!(r, Err(Error::DeserError(_))));
    // no closing delimiter
    let r = Task::parse_doc("---\ntitle: hello", None);
    assert!(matches!(r, Err(Error::DeserError(_))));
    // missing title
    let r = Task::parse_doc("---\nstatus: Done\n---", None);
    assert!(matches!(r, Err(Error::DeserError(_))));
    // stray list item outside a block
    let r = Task::parse_doc("---\ntitle: x\n- stray\n---", None);
    assert!(matches!(r, Err(Error::DeserError(_))));
    // duplicate scalar key
    let r = Task::parse_doc("---\ntitle: x\ntitle: y\n---", None);
    assert!(matches!(r, Err(Error::DeserError(_))));
}

#[test]
fn parse_ignores_unknown_keys_and_takes_id_from_path() {
    let s = "---\ntitle: hello\nid: forged\ncolor: red\n---";
    let t = Task::parse_doc(s, Some("eng/eng-4.md")).unwrap();
    assert_eq!(t.id.clone().unwrap(), "eng-4");
    let t2 = Task::parse_doc(s, None).unwrap();
    assert_eq!(t2.id, None);
}

#[test]
fn body_overrides_front_matter_description() {
    let s = "---\ntitle: x\ndescription: from header\n---\n\nfrom body";
    let t = Task::parse_doc(s, None).unwrap();
    assert_eq!(t.description.unwrap(), "from body");
    let s2 = "---\ntitle: x\ndescription: from header\n---\n\n";
    let t2 = Task::parse_doc(s2, None).unwrap();
    assert_eq!(t2.description.unwrap(), "from header");
}

#[test]
fn body_whitespace_is_trimmed() {
    let s = "---\ntitle: x\n---\n\n\n   hello body   \n\n";
    let t = Task::parse_doc(s, None).unwrap();
    assert_eq!(t.description.unwrap(), "hello body");
    // an all-whitespace body is an absent description
    let s2 = "---\ntitle: x\n---\n \n\t\n";
    let t2 = Task::parse_doc(s2, None).unwrap();
    assert_eq!(t2.description, None);
}

#[test]
fn parse_label_and_prop_blocks() {
    let s = "---\ntitle: x\nlabels:\n- a\n- b\nprops:\n  k: v\n---";
    let t = Task::parse_doc(s, None).unwrap();
    assert_eq!(t.labels, vec![String::from("a"), String::from("b")]);
    assert_eq!(t.props, vec![(String::from("k"), String::from("v"))]);
    // a duplicate property key is rejected
    let dup = "---\ntitle: x\nprops:\n  k: v\n  k: w\n---";
    assert!(matches!(Task::parse_doc(dup, None), Err(Error::DeserError(_))));
    // an empty label is rejected
    let empty_label = "---\ntitle: x\nlabels:\n- \n---";
    assert!(matches!(
        Task::parse_doc(empty_label, None),
        Err(Error::DeserError(_))
    ));
    // an indented entry outside a property block is rejected
    let stray = "---\ntitle: x\n  k: v\n---";
    assert!(matches!(Task::parse_doc(stray, None), Err(Error::DeserError(_))));
}

#[test]
fn values_keep_their_inner_punctuation() {
    let mut t = Task::new("a: b: c");
    t.assignee = Some(String::from("x - y"));
    let back = Task::parse_doc(&t.to_doc_string(), None).unwrap();
    assert_eq!(back.title, "a: b: c");
    assert_eq!(back.assignee.unwrap(), "x - y");
}

#[test]
fn next_id_basics() {
    // an empty directory yields 1
    let names: Vec<String> = Vec::new();
    assert_eq!(next_id_from_names(&names).unwrap(), 1);
    // the largest numeric id plus one
    let names = vec![
        String::from("eng-3.md"),
        String::from("eng-7.md"),
        String::from("readme.txt"),
        String::from("notes"),
        String::from("eng-x.md"),
    ];
    assert_eq!(next_id_from_names(&names).unwrap(), 8);
}

#[test]
fn next_id_overflow_is_an_error() {
    let names = vec![String::from("eng-4294967295.md")];
    assert!(matches!(next_id_from_names(&names), Err(Error::Msg(_))));
}

#[test]
fn id_num_of_name_shapes() {
    assert_eq!(id_num_of("eng-3.md"), Some(3));
    assert_eq!(id_num_of("eng-12-extra.md"), Some(12));
    assert_eq!(id_num_of("readme.md"), None);
    assert_eq!(id_num_of("eng-.md"), None);
    assert_eq!(id_num_of("eng-4294967296.md"), None);
}

#[test]
fn file_stem_shapes() {
    assert_eq!(file_stem("eng/tasks/eng-1.md").unwrap(), "eng-1");
    assert_eq!(file_stem("eng-1.md").unwrap(), "eng-1");
    assert_eq!(file_stem("a.b.c").unwrap(), "a.b");
    assert_eq!(file_stem(".hidden").unwrap(), ".hidden");
    assert_eq!(file_stem("dir/"), None);
}

#[test]
fn team_and_id_splits_on_first_dash() {
    let (team, id) = team_and_id("eng-12").unwrap();
    assert_eq!(team, "eng");
    assert_eq!(id, "eng-12");
    let (team, id) = team_and_id("plain").unwrap();
    assert_eq!(team, "plain");
    assert_eq!(id, "plain");
}

#[test]
fn status_parse_and_render() {
    assert!(matches!(Status::from_str("Todo"), Ok(Status::Todo)));
    assert!(matches!(Status::from_str("In Progress"), Ok(Status::InProgress)));
    assert!(matches!(Status::from_str("Done"), Ok(Status::Done)));
    assert!(matches!(Status::from_str("Canceled"), Ok(Status::Canceled)));
    assert!(matches!(Status::from_str("Duplicate"), Ok(Status::Duplicate)));
    assert!(matches!(Status::from_str("Unknown"), Err(Error::Msg(_))));
    assert_eq!(Status::Done.as_str(), "Done");
    assert_eq!(Status::InProgress.as_str(), "In Progress");
    assert_eq!(Status::Todo.to_sym(), '\u{25cb}');
    assert_eq!(Status::Done.to_sym(), '\u{2713}');
    assert_eq!(Status::Duplicate.to_sym(), '=');
}

#[test]
fn where_clause_shapes() {
    let empty = FilterArgs::new();
    assert_eq!(empty.to_where_clause(), "1 = 1");

    let mut team_only = FilterArgs::new();
    team_only.team = Some(String::from("eng"));
    assert_eq!(team_only.to_where_clause(), "id LIKE 'eng-%'");

    let mut all = FilterArgs::new();
    all.team = Some(String::from("eng"));
    all.assignee = Some(String::from("alice@example.com"));
    all.status = Some(StatusFilter::Open);
    assert_eq!(
        all.to_where_clause(),
        "id LIKE 'eng-%' AND assignee = 'alice@example.com' AND (status IS null OR status = 'Todo' OR status = 'In Progress')"
    );

    let mut closed = FilterArgs::new();
    closed.status = Some(StatusFilter::Closed);
    assert_eq!(
        closed.to_where_clause(),
        "(status = 'Done' OR status = 'Canceled' OR status ='Duplicate')"
    );
}
