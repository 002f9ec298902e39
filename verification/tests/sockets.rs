//! Basic tests for real-time collaboration on one document.

use operational_transform::OperationSeq;
use rustpad_server::rustpad::{ClientMsg, Rustpad, ServerMsg, Visibility};

fn insert_op(s: &str) -> OperationSeq {
    let mut operation = OperationSeq::default();
    operation.insert(s);
    operation
}

fn expect_initial(msgs: &[ServerMsg], id: u64) {
    match &msgs[0] {
        ServerMsg::Identity { id: got, info } => {
            assert_eq!(*got, id);
            assert!(info.is_none());
        }
        other => panic!("expected Identity, got {other:?}"),
    }
    match &msgs[1] {
        ServerMsg::Meta { language, visibility } => {
            assert_eq!(language, "markdown");
            assert_eq!(*visibility, Visibility::Public);
        }
        other => panic!("expected Meta, got {other:?}"),
    }
}

#[test]
fn test_single_operation() {
    let mut pad = Rustpad::new();
    assert_eq!(pad.snapshot().text, "");

    let (id, revision, msgs) = pad.init_connection(None);
    assert_eq!(id, 0);
    assert_eq!(revision, 0);
    assert_eq!(msgs.len(), 2);
    expect_initial(&msgs, 0);

    let fx = pad
        .handle_message(
            id,
            ClientMsg::Edit { revision: 0, operation: insert_op("hello") },
            &None,
        )
        .unwrap();
    assert!(fx.notify);

    let (new_revision, history) = pad.send_history(revision);
    assert_eq!(new_revision, 1);
    match history {
        ServerMsg::History { start, operations } => {
            assert_eq!(start, 0);
            assert_eq!(operations.len(), 1);
            assert_eq!(operations[0].id, 0);
            assert_eq!(operations[0].operation, insert_op("hello"));
        }
        other => panic!("should receive history operation, got {other:?}"),
    }

    assert_eq!(pad.snapshot().text, "hello");
}

#[test]
fn test_invalid_operation() {
    let mut pad = Rustpad::new();
    let (id, _, msgs) = pad.init_connection(None);
    expect_initial(&msgs, 0);

    let err = pad
        .handle_message(
            id,
            ClientMsg::Edit { revision: 1, operation: insert_op("hello") },
            &None,
        )
        .unwrap_err();
    assert_eq!(err, rustpad_server::rustpad::EngineError::RevisionTooNew);
    assert_eq!(pad.snapshot().text, "");
}

#[test]
fn test_concurrent_transform() {
    let mut pad = Rustpad::new();

    // Connect the first client.
    let (id, mut revision, msgs) = pad.init_connection(None);
    assert_eq!(id, 0);
    expect_initial(&msgs, 0);

    // Insert the first operation.
    pad.handle_message(
        id,
        ClientMsg::Edit { revision: 0, operation: insert_op("hello") },
        &None,
    )
    .unwrap();
    let (r, _) = pad.send_history(revision);
    revision = r;
    assert_eq!(revision, 1);

    // Insert the second operation.
    let mut operation = OperationSeq::default();
    operation.retain(2);
    operation.delete(1);
    operation.insert("n");
    operation.retain(2);
    pad.handle_message(id, ClientMsg::Edit { revision: 1, operation }, &None).unwrap();
    let (r, _) = pad.send_history(revision);
    revision = r;
    assert_eq!(revision, 2);
    assert_eq!(pad.snapshot().text, "henlo");

    // Connect the second client; it submits an edit against revision 0
    // before consuming any history.
    let (id2, revision2, msgs2) = pad.init_connection(None);
    assert_eq!(id2, 1);
    expect_initial(&msgs2, 1);
    match &msgs2[2] {
        ServerMsg::History { start, operations } => {
            assert_eq!(*start, 0);
            assert_eq!(operations.len(), 2);
        }
        other => panic!("expected History, got {other:?}"),
    }
    assert_eq!(revision2, 2);

    pad.handle_message(
        id2,
        ClientMsg::Edit { revision: 0, operation: insert_op("~rust~") },
        &None,
    )
    .unwrap();

    // Both clients observe the same transformed broadcast.
    let mut expected = OperationSeq::default();
    expected.insert("~rust~");
    expected.retain(5);
    for seen in [revision, revision2] {
        let (r, history) = pad.send_history(seen);
        assert_eq!(r, 3);
        match history {
            ServerMsg::History { start, operations } => {
                assert_eq!(start, 2);
                assert_eq!(operations.len(), 1);
                assert_eq!(operations[0].id, 1);
                assert_eq!(operations[0].operation, expected);
            }
            other => panic!("expected History, got {other:?}"),
        }
    }

    assert_eq!(pad.snapshot().text, "~rust~henlo");
}

#[test]
fn test_set_meta() {
    let mut pad = Rustpad::new();
    let (id, _, msgs) = pad.init_connection(None);
    expect_initial(&msgs, 0);

    let fx = pad
        .handle_message(
            id,
            ClientMsg::SetMeta { language: Some("javascript".to_string()), visibility: None },
            &None,
        )
        .unwrap();
    assert!(!fx.notify);
    match &fx.broadcasts[0] {
        ServerMsg::Meta { language, visibility } => {
            assert_eq!(language, "javascript");
            assert_eq!(*visibility, Visibility::Public);
        }
        other => panic!("expected Meta, got {other:?}"),
    }

    // A new connection replays the updated metadata.
    let (id2, _, msgs2) = pad.init_connection(None);
    assert_eq!(id2, 1);
    match &msgs2[1] {
        ServerMsg::Meta { language, visibility } => {
            assert_eq!(language, "javascript");
            assert_eq!(*visibility, Visibility::Public);
        }
        other => panic!("expected Meta, got {other:?}"),
    }

    let fx = pad
        .handle_message(
            id2,
            ClientMsg::SetMeta { language: Some("python".to_string()), visibility: None },
            &None,
        )
        .unwrap();
    match &fx.broadcasts[0] {
        ServerMsg::Meta { language, .. } => assert_eq!(language, "python"),
        other => panic!("expected Meta, got {other:?}"),
    }
    assert_eq!(pad.snapshot().meta.language, "python");
    assert_eq!(pad.snapshot().text, "");
}

#[test]
fn test_set_meta_stricter_visibility_notifies() {
    let mut pad = Rustpad::new();
    let (id, _, _) = pad.init_connection(None);

    // Tightening visibility must wake waiting connection loops.
    let fx = pad
        .handle_message(
            id,
            ClientMsg::SetMeta { language: None, visibility: Some(Visibility::Private) },
            &None,
        )
        .unwrap();
    assert!(fx.notify);
    assert_eq!(pad.visibility(), Visibility::Private);
    assert!(pad.is_limited());

    // Relaxing it does not.
    let fx = pad
        .handle_message(
            id,
            ClientMsg::SetMeta { language: None, visibility: Some(Visibility::Public) },
            &None,
        )
        .unwrap();
    assert!(!fx.notify);
    assert!(!pad.is_limited());
}
