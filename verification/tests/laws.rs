//! Tests of the library's stated guarantees: replaying the composed log,
//! convergence of concurrent edits, history partitioning, and the access
//! rule.

use operational_transform::OperationSeq;
use rustpad_server::ot::{merge_edits, transform_index, EditOp};
use rustpad_server::rustpad::{
    connection_step, persist_sleep_ms, ClientMsg, ConnectionStep, Role, Rustpad, ServerMsg,
    Visibility,
};

fn insert_op(s: &str) -> OperationSeq {
    let mut operation = OperationSeq::default();
    operation.insert(s);
    operation
}

#[test]
fn test_composed_log_reproduces_text() {
    let mut pad = Rustpad::new();
    let (id, _, _) = pad.init_connection(None);
    pad.handle_message(
        id,
        ClientMsg::Edit { revision: 0, operation: insert_op("hello") },
        &None,
    )
    .unwrap();
    let mut operation = OperationSeq::default();
    operation.retain(2);
    operation.delete(1);
    operation.insert("n");
    operation.retain(2);
    pad.handle_message(id, ClientMsg::Edit { revision: 1, operation }, &None).unwrap();
    pad.handle_message(
        id,
        ClientMsg::Edit { revision: 0, operation: insert_op("~rust~") },
        &None,
    )
    .unwrap();

    // Applying the composed operation log to the empty text yields the
    // exact document every client converges to.
    let composed = pad.composed_operation();
    assert_eq!(composed.base_len(), 0);
    assert_eq!(composed.apply("").unwrap(), "~rust~henlo");
    assert_eq!(pad.snapshot().text, "~rust~henlo");
}

#[test]
fn test_merge_edits_converge() {
    let text = "hello";
    let mut a = OperationSeq::default();
    a.retain(2);
    a.delete(1);
    a.insert("n");
    a.retain(2);
    let mut b = OperationSeq::default();
    b.insert("~rust~");
    b.retain(5);

    let (first, second) = merge_edits(text, &a, &b).expect("both edits fit the text");
    assert_eq!(first, second);

    // An edit of the wrong base length cannot be merged.
    assert!(merge_edits("hell", &a, &b).is_none());
}

#[test]
fn test_engine_convergence_either_order() {
    // The same two concurrent edits, arriving in either order, leave
    // both documents with the same text.
    let make = |first: &OperationSeq, second: &OperationSeq| -> String {
        let mut pad = Rustpad::new();
        let (id, _, _) = pad.init_connection(None);
        pad.handle_message(
            id,
            ClientMsg::Edit { revision: 0, operation: insert_op("hello") },
            &None,
        )
        .unwrap();
        pad.handle_message(
            id,
            ClientMsg::Edit { revision: 1, operation: first.clone() },
            &None,
        )
        .unwrap();
        pad.handle_message(
            id,
            ClientMsg::Edit { revision: 1, operation: second.clone() },
            &None,
        )
        .unwrap();
        pad.snapshot().text
    };
    let mut a = OperationSeq::default();
    a.retain(2);
    a.delete(1);
    a.insert("n");
    a.retain(2);
    let mut b = OperationSeq::default();
    b.insert("~rust~");
    b.retain(5);

    assert_eq!(make(&a, &b), make(&b, &a));
}

#[test]
fn test_history_partition() {
    let mut pad = Rustpad::new();
    let (id, _, _) = pad.init_connection(None);
    for i in 0..5u64 {
        let mut operation = OperationSeq::default();
        operation.retain(i);
        operation.insert("x");
        pad.handle_message(
            id,
            ClientMsg::Edit { revision: i as usize, operation },
            &None,
        )
        .unwrap();
    }

    // Catching up in two steps delivers each operation exactly once:
    // the slices are contiguous and add up to the whole log.
    let (mid, first) = pad.send_history(0);
    assert_eq!(mid, 5);
    let ops_of = |m: ServerMsg| match m {
        ServerMsg::History { start, operations } => (start, operations),
        other => panic!("expected History, got {other:?}"),
    };
    let (s1, o1) = ops_of(first);
    assert_eq!((s1, o1.len()), (0, 5));

    let (_, partial) = pad.send_history(3);
    let (s2, o2) = ops_of(partial);
    assert_eq!((s2, o2.len()), (3, 2));
    for (k, op) in o2.iter().enumerate() {
        assert_eq!(op.operation, o1[3 + k].operation);
    }

    // A start past the end yields an empty slice and keeps the revision.
    let (r, tail) = pad.send_history(9);
    assert_eq!(r, 9);
    let (_, o3) = ops_of(tail);
    assert!(o3.is_empty());
}

#[test]
fn test_transform_index_unicode() {
    // Positions count code points: one inserted emoji shifts every
    // cursor at or after it by exactly one.
    let ops = vec![EditOp::Insert("🎉".to_string()), EditOp::Retain(3)];
    for (pos, expect) in [(0, 1), (1, 2), (2, 3), (3, 4)] {
        assert_eq!(transform_index(&ops, pos), expect);
    }

    // A deletion pulls cursors inside it back to its left edge.
    let ops = vec![EditOp::Retain(2), EditOp::Delete(3), EditOp::Retain(2)];
    assert_eq!(transform_index(&ops, 1), 1);
    assert_eq!(transform_index(&ops, 3), 2);
    assert_eq!(transform_index(&ops, 4), 2);
    assert_eq!(transform_index(&ops, 6), 3);

    // A multi-code-point insertion shifts by its code point count.
    let ops = vec![EditOp::Insert("👨‍👨‍👦‍👦".to_string())];
    assert_eq!(transform_index(&ops, 0), 7);
}

#[test]
fn test_can_access() {
    let table = [
        (Role::Anon, Visibility::Public, true),
        (Role::Anon, Visibility::Internal, false),
        (Role::Anon, Visibility::Private, false),
        (Role::User, Visibility::Public, true),
        (Role::User, Visibility::Internal, true),
        (Role::User, Visibility::Private, false),
        (Role::Admin, Visibility::Public, true),
        (Role::Admin, Visibility::Internal, true),
        (Role::Admin, Visibility::Private, true),
    ];
    for (role, visibility, expect) in table {
        assert_eq!(role.can_access(visibility), expect);
    }
}

#[test]
fn test_visibility_order() {
    assert!(Visibility::Private.stricter_than(Visibility::Internal));
    assert!(Visibility::Private.stricter_than(Visibility::Public));
    assert!(Visibility::Internal.stricter_than(Visibility::Public));
    assert!(!Visibility::Public.stricter_than(Visibility::Internal));
    assert!(!Visibility::Internal.stricter_than(Visibility::Internal));
}

#[test]
fn test_connection_step() {
    // A killed document ends the connection at once.
    assert_eq!(connection_step(true, Visibility::Public, Role::Admin, 0, 0), ConnectionStep::Exit);
    // So does a visibility the caller's role no longer satisfies.
    assert_eq!(connection_step(false, Visibility::Private, Role::User, 3, 1), ConnectionStep::Exit);
    assert_eq!(connection_step(false, Visibility::Internal, Role::Anon, 0, 0), ConnectionStep::Exit);
    // Unseen history is sent before anything else.
    assert_eq!(
        connection_step(false, Visibility::Public, Role::Anon, 2, 1),
        ConnectionStep::SendHistory
    );
    assert_eq!(
        connection_step(false, Visibility::Private, Role::Admin, 2, 1),
        ConnectionStep::SendHistory
    );
    // Otherwise the loop waits.
    assert_eq!(connection_step(false, Visibility::Public, Role::Anon, 1, 1), ConnectionStep::Wait);
}

#[test]
fn test_persist_sleep() {
    assert_eq!(persist_sleep_ms(true, 0), 10000);
    assert_eq!(persist_sleep_ms(true, 5999), 15999);
    assert_eq!(persist_sleep_ms(false, 0), 20000);
    assert_eq!(persist_sleep_ms(false, 6000), 26000);
}
