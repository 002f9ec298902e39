//! Tests for snapshots, reloading, and idle eviction.

use operational_transform::OperationSeq;
use rustpad_server::database::PersistedDocument;
use rustpad_server::rustpad::{ClientMsg, Rustpad, ServerMsg, Visibility};

fn insert_op(s: &str) -> OperationSeq {
    let mut operation = OperationSeq::default();
    operation.insert(s);
    operation
}

#[test]
fn test_persist() {
    let mut pad = Rustpad::new();
    let (id, _, _) = pad.init_connection(None);
    pad.handle_message(
        id,
        ClientMsg::Edit { revision: 0, operation: insert_op("hello") },
        &None,
    )
    .unwrap();

    // A persister pass takes the snapshot and clears the dirty flag.
    let snapshot = pad.dirty_snapshot().expect("document should be dirty");
    assert_eq!(snapshot.text, "hello");
    assert_eq!(snapshot.meta.language, "markdown");
    assert!(pad.dirty_snapshot().is_none());

    // After a restart the document is rebuilt from the snapshot: one
    // sentinel log entry reproduces the text from revision zero.
    let mut reloaded = Rustpad::load(snapshot);
    assert_eq!(reloaded.revision(), 1);
    assert_eq!(reloaded.snapshot().text, "hello");
    let (_, _, msgs) = reloaded.init_connection(None);
    match &msgs[2] {
        ServerMsg::History { start, operations } => {
            assert_eq!(*start, 0);
            assert_eq!(operations.len(), 1);
            assert_eq!(operations[0].id, u64::MAX);
            assert_eq!(operations[0].operation, insert_op("hello"));
        }
        other => panic!("should receive history operation, got {other:?}"),
    }
}

#[test]
fn test_persisted_document_defaults() {
    let doc = PersistedDocument::default();
    assert_eq!(doc.text, "");
    assert_eq!(doc.meta.language, "markdown");
    assert_eq!(doc.meta.visibility, Visibility::Public);

    let doc = PersistedDocument::new(
        "print('World Text :)')".to_string(),
        "python".to_string(),
        Visibility::Internal,
    );
    assert_eq!(doc.text, "print('World Text :)')");
    assert_eq!(doc.meta.language, "python");
    assert_eq!(doc.meta.visibility, Visibility::Internal);
}

#[test]
fn test_cleanup() {
    let mut pad = Rustpad::new();
    let (id, _, _) = pad.init_connection(None);
    pad.handle_message(
        id,
        ClientMsg::ClientInfo { name: "Alice".to_string(), hue: 42 },
        &None,
    )
    .unwrap();
    pad.handle_message(
        id,
        ClientMsg::Edit { revision: 0, operation: insert_op("hello") },
        &None,
    )
    .unwrap();

    // Occupied or dirty documents are not evicted.
    assert!(!pad.kill_if_idle());
    pad.close_connection(id);
    assert!(!pad.kill_if_idle());

    // Once persisted and empty, the document may be evicted; every
    // connection loop then observes the terminal state.
    pad.dirty_snapshot().expect("document should be dirty");
    assert!(pad.kill_if_idle());
    assert!(pad.killed());
}

#[test]
fn test_kill() {
    let mut pad = Rustpad::new();
    assert!(!pad.killed());
    pad.kill();
    assert!(pad.killed());
}
