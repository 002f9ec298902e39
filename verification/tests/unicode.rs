//! Tests for Unicode support and correct cursor transformation.

use operational_transform::OperationSeq;
use rustpad_server::rustpad::{ClientMsg, CursorData, Rustpad, ServerMsg};

fn insert_op(s: &str) -> OperationSeq {
    let mut operation = OperationSeq::default();
    operation.insert(s);
    operation
}

#[test]
fn test_unicode_length() {
    let mut pad = Rustpad::new();
    let (id, mut revision, _) = pad.init_connection(None);

    pad.handle_message(
        id,
        ClientMsg::Edit { revision: 0, operation: insert_op("h🎉e🎉l👨‍👨‍👦‍👦lo") },
        &None,
    )
    .unwrap();
    let (r, history) = pad.send_history(revision);
    revision = r;
    match history {
        ServerMsg::History { start, operations } => {
            assert_eq!(start, 0);
            assert_eq!(operations[0].operation, insert_op("h🎉e🎉l👨‍👨‍👦‍👦lo"));
        }
        other => panic!("expected History, got {other:?}"),
    }

    // The text's length is its number of Unicode code points: 14.
    assert_eq!(pad.snapshot().text.chars().count(), 14);
    let mut operation = OperationSeq::default();
    operation.delete(14);
    pad.handle_message(id, ClientMsg::Edit { revision: 1, operation }, &None).unwrap();
    let (r, history) = pad.send_history(revision);
    assert_eq!(r, 2);
    match history {
        ServerMsg::History { start, operations } => {
            assert_eq!(start, 1);
            let mut expected = OperationSeq::default();
            expected.delete(14);
            assert_eq!(operations[0].operation, expected);
        }
        other => panic!("expected History, got {other:?}"),
    }
    assert_eq!(pad.snapshot().text, "");
}

#[test]
fn test_multiple_operations() {
    let mut pad = Rustpad::new();
    let (id, _, _) = pad.init_connection(None);

    // Emoticons and Cuneiform.
    pad.handle_message(
        id,
        ClientMsg::Edit { revision: 0, operation: insert_op("🎉😍𒀇👨‍👨‍👦‍👦") },
        &None,
    )
    .unwrap();

    let mut operation = OperationSeq::default();
    operation.insert("👯‍♂️");
    operation.retain(3);
    operation.insert("𐅣𐅤𐅥"); // Ancient Greek numbers
    operation.retain(7);
    pad.handle_message(id, ClientMsg::Edit { revision: 1, operation }, &None).unwrap();

    assert_eq!(pad.snapshot().text, "👯‍♂️🎉😍𒀇𐅣𐅤𐅥👨‍👨‍👦‍👦");

    // A concurrent edit against revision 1 is transformed over the
    // second insertion (11 code points were already in front of it).
    let mut operation = OperationSeq::default();
    operation.retain(2);
    operation.insert("hello world");
    operation.retain(8);
    pad.handle_message(id, ClientMsg::Edit { revision: 1, operation }, &None).unwrap();

    let (_, history) = pad.send_history(2);
    match history {
        ServerMsg::History { start, operations } => {
            assert_eq!(start, 2);
            let mut expected = OperationSeq::default();
            expected.retain(6);
            expected.insert("hello world");
            expected.retain(11);
            assert_eq!(operations[0].operation, expected);
        }
        other => panic!("expected History, got {other:?}"),
    }
    assert_eq!(pad.snapshot().text, "👯‍♂️🎉😍hello world𒀇𐅣𐅤𐅥👨‍👨‍👦‍👦");
}

#[test]
fn test_unicode_cursors() {
    let mut pad = Rustpad::new();
    let (id, _, _) = pad.init_connection(None);

    pad.handle_message(
        id,
        ClientMsg::Edit { revision: 0, operation: insert_op("🎉🎉🎉") },
        &None,
    )
    .unwrap();

    let data = CursorData { cursors: vec![0, 1, 2, 3], selections: vec![(0, 1), (2, 3)] };
    let fx = pad.handle_message(id, ClientMsg::CursorData(data), &None).unwrap();
    match &fx.broadcasts[0] {
        ServerMsg::UserCursor { id: got, data } => {
            assert_eq!(*got, 0);
            assert_eq!(data.cursors, vec![0, 1, 2, 3]);
            assert_eq!(data.selections, vec![(0, 1), (2, 3)]);
        }
        other => panic!("expected UserCursor, got {other:?}"),
    }

    // A second client inserts one more party popper at the front.
    let (id2, _, _) = pad.init_connection(None);
    pad.handle_message(
        id2,
        ClientMsg::Edit { revision: 0, operation: insert_op("🎉") },
        &None,
    )
    .unwrap();

    // A third observer replays the first client's transformed cursors.
    let (_, _, msgs) = pad.init_connection(None);
    let cursor_msg = msgs
        .iter()
        .find_map(|m| match m {
            ServerMsg::UserCursor { id: 0, data } => Some(data.clone()),
            _ => None,
        })
        .expect("expected a UserCursor replay");
    assert_eq!(cursor_msg.cursors, vec![1, 2, 3, 4]);
    assert_eq!(cursor_msg.selections, vec![(1, 2), (3, 4)]);
}
