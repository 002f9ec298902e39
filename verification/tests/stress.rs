//! Stress tests for consistency under rapid edits and size limits.

use operational_transform::OperationSeq;
use rustpad_server::rustpad::{ClientMsg, EngineError, Rustpad, ServerMsg};

#[test]
fn test_lost_wakeups() {
    let mut pad = Rustpad::new();
    let (id, mut seen1, _) = pad.init_connection(None);
    let (_, mut seen2, _) = pad.init_connection(None);

    let mut revision: u64 = 0;
    for i in 0..100u64 {
        let num_edits = i % 5 + 1;
        for _ in 0..num_edits {
            let mut operation = OperationSeq::default();
            operation.retain(revision);
            operation.insert("a");
            pad.handle_message(
                id,
                ClientMsg::Edit { revision: revision as usize, operation },
                &None,
            )
            .unwrap();
            revision += 1;
        }

        // Both clients catch up and receive every new operation once.
        let num_ops = |msg: &ServerMsg| -> usize {
            match msg {
                ServerMsg::History { operations, .. } => operations.len(),
                other => panic!("missing history, got {other:?}"),
            }
        };
        let (r1, h1) = pad.send_history(seen1);
        assert_eq!(num_ops(&h1) as u64, num_edits);
        seen1 = r1;
        let (r2, h2) = pad.send_history(seen2);
        assert_eq!(num_ops(&h2) as u64, num_edits);
        seen2 = r2;
    }

    assert_eq!(pad.snapshot().text, "a".repeat(revision as usize));
}

#[test]
fn test_large_document() {
    let mut pad = Rustpad::new();
    let (id, _, _) = pad.init_connection(None);

    let mut operation = OperationSeq::default();
    operation.insert(&"a".repeat(5000));
    pad.handle_message(id, ClientMsg::Edit { revision: 0, operation }, &None).unwrap();

    // A concurrent insert that would grow the text past 256 KiB is
    // refused and leaves the document alone.
    let mut operation = OperationSeq::default();
    operation.insert(&"a".repeat(500000));
    let err = pad
        .handle_message(id, ClientMsg::Edit { revision: 0, operation }, &None)
        .unwrap_err();
    assert_eq!(err, EngineError::TargetTooLarge);
    assert_eq!(pad.revision(), 1);
    assert_eq!(pad.snapshot().text.len(), 5000);
}
