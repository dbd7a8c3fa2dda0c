//! The record codec: saving and loading reproduces every field.

use ba::codec;
use ba::issue::{Comment, Status, Transition};
use ba::store::{Config, Store};

const T1: &str = "2024-03-01T08:00:00.000000000Z";
const T2: &str = "2024-03-01T09:00:00.000000000Z";

fn fresh_store() -> Store {
    Store::new(Config { version: 1, prefix: String::from("zz") })
}

#[test]
fn save_then_load_reproduces_every_field() {
    let mut store = fresh_store();
    let a = store
        .create_issue("quote \" slash \\ newline \n tab \t done", "spike", 0, "d\u{e9}tails", T1)
        .unwrap();
    let b = store.create_issue("plain", "epic", 4, "", T2).unwrap();
    store.apply_transition(&a, &Transition::Claim { session: "s-1".into() }, T2).unwrap();
    store.apply_transition(&b, &Transition::Close, T2).unwrap();
    store.add_edge(&a, &b, T2).unwrap();
    store.edit_label(&a, "add", "urgent", T2).unwrap();
    store.edit_label(&a, "add", "backend", T2).unwrap();
    store.add_comment(&a, "first words", "alice", T2).unwrap();
    store.add_comment(&a, "more words", "bob", T2).unwrap();

    let config_bytes = codec::encode_config(&store.config);
    let issue_bytes = codec::save_bytes(&store);
    let loaded = codec::load_store(&config_bytes, &issue_bytes).unwrap();

    assert_eq!(loaded.config.version, 1);
    assert_eq!(loaded.config.prefix, "zz");
    assert_eq!(loaded.issues.len(), store.issues.len());
    for orig in &store.issues {
        let copy = loaded.get(&orig.id).expect("issue survives the round trip");
        assert_eq!(copy.id, orig.id);
        assert_eq!(copy.title, orig.title);
        assert_eq!(copy.description, orig.description);
        assert_eq!(copy.status, orig.status);
        assert_eq!(copy.priority, orig.priority);
        assert_eq!(copy.issue_type, orig.issue_type);
        assert_eq!(copy.session_id, orig.session_id);
        assert_eq!(copy.labels, orig.labels);
        assert_eq!(copy.comments.len(), orig.comments.len());
        for (c1, c2) in copy.comments.iter().zip(orig.comments.iter()) {
            assert_eq!(c1.author, c2.author);
            assert_eq!(c1.text, c2.text);
            assert_eq!(c1.created_at, c2.created_at);
        }
        assert_eq!(copy.created_at, orig.created_at);
        assert_eq!(copy.updated_at, orig.updated_at);
        assert_eq!(copy.closed_at, orig.closed_at);
        assert_eq!(copy.blocks, orig.blocks);
        assert_eq!(copy.blocked_by, orig.blocked_by);
    }
}

#[test]
fn empty_and_absent_optionals_survive() {
    let mut store = fresh_store();
    let a = store.create_issue("nothing optional", "task", 2, "", T1).unwrap();
    let issue_bytes = codec::save_bytes(&store);
    let config_bytes = codec::encode_config(&store.config);
    let loaded = codec::load_store(&config_bytes, &issue_bytes).unwrap();
    let copy = loaded.get(&a).unwrap();
    assert_eq!(copy.session_id, None);
    assert_eq!(copy.closed_at, None);
    assert_eq!(copy.description, "");
    assert!(copy.labels.is_empty());
    assert!(copy.comments.is_empty());
}

#[test]
fn save_writes_one_sorted_line_per_issue() {
    let mut store = fresh_store();
    // Insert out of id order on purpose.
    store.issues.push(mk_bare("zz-bbb"));
    store.issues.push(mk_bare("zz-aaa"));
    let bytes = codec::save_bytes(&store);
    let text = String::from_utf8(bytes).unwrap();
    let lines: Vec<&str> = text.lines().collect();
    assert_eq!(lines.len(), 2);
    assert!(lines[0].contains("zz-aaa"));
    assert!(lines[1].contains("zz-bbb"));
    assert!(lines[0].starts_with("{\"id\":\"zz-aaa\",\"title\":"));
}

fn mk_bare(id: &str) -> ba::issue::Issue {
    ba::issue::Issue {
        id: id.to_string(),
        title: format!("issue {id}"),
        description: String::new(),
        status: Status::Open,
        priority: 2,
        issue_type: ba::issue::IssueType::Task,
        session_id: None,
        labels: Vec::new(),
        comments: Vec::new(),
        created_at: T1.to_string(),
        updated_at: T1.to_string(),
        closed_at: None,
        blocks: Vec::new(),
        blocked_by: Vec::new(),
    }
}

#[test]
fn comments_keep_their_order() {
    let mut store = fresh_store();
    let a = store.create_issue("ordered", "task", 2, "", T1).unwrap();
    for k in 0..5 {
        store.add_comment(&a, &format!("note {k}"), "alice", T2).unwrap();
    }
    let bytes = codec::save_bytes(&store);
    let loaded = codec::load_store(&codec::encode_config(&store.config), &bytes).unwrap();
    let copy = loaded.get(&a).unwrap();
    let texts: Vec<&str> = copy.comments.iter().map(|c: &Comment| c.text.as_str()).collect();
    assert_eq!(texts, vec!["note 0", "note 1", "note 2", "note 3", "note 4"]);
}

#[test]
fn blank_lines_are_skipped() {
    let mut store = fresh_store();
    let a = store.create_issue("kept", "task", 2, "", T1).unwrap();
    let mut bytes = Vec::new();
    bytes.extend_from_slice(b"\n  \n");
    bytes.extend_from_slice(&codec::save_bytes(&store));
    bytes.extend_from_slice(b"\n\n");
    let loaded = codec::load_store(&codec::encode_config(&store.config), &bytes).unwrap();
    assert!(loaded.get(&a).is_some());
}

#[test]
fn malformed_line_is_fatal() {
    let store = fresh_store();
    let config_bytes = codec::encode_config(&store.config);
    let r = codec::load_store(&config_bytes, b"this is not a record\n");
    assert!(matches!(r, Err(ba::errors::TrackerError::MalformedRecord { .. })));
}

#[test]
fn malformed_config_is_fatal() {
    let r = codec::load_store(b"nonsense", b"");
    assert!(matches!(r, Err(ba::errors::TrackerError::MalformedConfig)));
}

#[test]
fn later_duplicate_record_wins() {
    let first = mk_bare("zz-twin");
    let mut second = mk_bare("zz-twin");
    second.title = String::from("the later one");
    let mut bytes = codec::encode_issue(&first);
    bytes.push(b'\n');
    bytes.extend_from_slice(&codec::encode_issue(&second));
    bytes.push(b'\n');
    let config = Config { version: 1, prefix: String::from("zz") };
    let loaded = codec::load_store(&codec::encode_config(&config), &bytes).unwrap();
    assert_eq!(loaded.issues.len(), 1);
    assert_eq!(loaded.get("zz-twin").unwrap().title, "the later one");
}

#[test]
fn config_round_trip() {
    let c = Config { version: 3, prefix: String::from("a7") };
    let bytes = codec::encode_config(&c);
    assert_eq!(String::from_utf8(bytes.clone()).unwrap(), "{\"version\":3,\"prefix\":\"a7\"}");
    let (v, p) = codec::scan_config(&bytes).unwrap();
    assert_eq!(v, 3);
    assert_eq!(p, "a7");
}
