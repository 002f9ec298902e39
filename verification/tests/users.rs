//! Tests for synchronization of user presence.

use operational_transform::OperationSeq;
use rustpad_server::rustpad::{ClientMsg, CursorData, Rustpad, ServerMsg, UserInfo};

fn insert_op(s: &str) -> OperationSeq {
    let mut operation = OperationSeq::default();
    operation.insert(s);
    operation
}

#[test]
fn test_two_users() {
    let mut pad = Rustpad::new();
    let (id, _, _) = pad.init_connection(None);

    let fx = pad
        .handle_message(
            id,
            ClientMsg::ClientInfo { name: "Alice".to_string(), hue: 42 },
            &None,
        )
        .unwrap();
    let alice = UserInfo { name: "Alice".to_string(), hue: 42, admin: false };
    match &fx.broadcasts[0] {
        ServerMsg::UserInfo { id: got, user } => {
            assert_eq!(*got, 0);
            assert_eq!(*user, alice);
        }
        other => panic!("expected UserInfo, got {other:?}"),
    }

    // The second client replays Alice's presence.
    let (id2, _, msgs2) = pad.init_connection(None);
    assert_eq!(id2, 1);
    let replayed = msgs2
        .iter()
        .find_map(|m| match m {
            ServerMsg::UserInfo { id: 0, user } => Some(user.clone()),
            _ => None,
        })
        .expect("expected Alice's presence");
    assert_eq!(replayed, alice);

    let fx = pad
        .handle_message(
            id2,
            ClientMsg::ClientInfo { name: "Bob".to_string(), hue: 96 },
            &None,
        )
        .unwrap();
    let bob = UserInfo { name: "Bob".to_string(), hue: 96, admin: false };
    match &fx.broadcasts[0] {
        ServerMsg::UserInfo { id: got, user } => {
            assert_eq!(*got, 1);
            assert_eq!(*user, bob);
        }
        other => panic!("expected UserInfo, got {other:?}"),
    }
}

#[test]
fn test_authenticated_name_overrides() {
    let mut pad = Rustpad::new();
    let authed = Some(UserInfo { name: "Alice".to_string(), hue: 7, admin: true });
    let (id, _, _) = pad.init_connection(authed.clone());

    // Whatever name and wild hue the client submits, the broadcast
    // carries the authenticated name, the admin flag, and a wrapped hue.
    let fx = pad
        .handle_message(
            id,
            ClientMsg::ClientInfo { name: "Mallory".to_string(), hue: 400 },
            &authed,
        )
        .unwrap();
    match &fx.broadcasts[0] {
        ServerMsg::UserInfo { user, .. } => {
            assert_eq!(user.name, "Alice");
            assert_eq!(user.hue, 40);
            assert!(user.admin);
        }
        other => panic!("expected UserInfo, got {other:?}"),
    }
}

#[test]
fn test_leave_rejoin() {
    let mut pad = Rustpad::new();
    let (id, _, _) = pad.init_connection(None);

    pad.handle_message(
        id,
        ClientMsg::ClientInfo { name: "Alice".to_string(), hue: 42 },
        &None,
    )
    .unwrap();

    // The connection ends; its presence is dropped and announced.
    let msg = pad.close_connection(id);
    match msg {
        ServerMsg::UserDisconnect { id: got } => assert_eq!(got, 0),
        other => panic!("expected UserDisconnect, got {other:?}"),
    }

    // A rejoining client sees no stale presence and gets a fresh id.
    let (id2, _, msgs2) = pad.init_connection(None);
    assert_eq!(id2, 1);
    assert!(!msgs2.iter().any(|m| matches!(m, ServerMsg::UserInfo { .. })));

    let fx = pad
        .handle_message(
            id2,
            ClientMsg::ClientInfo { name: "Bob".to_string(), hue: 96 },
            &None,
        )
        .unwrap();
    match &fx.broadcasts[0] {
        ServerMsg::UserInfo { id: got, user } => {
            assert_eq!(*got, 1);
            assert_eq!(user.name, "Bob");
            assert_eq!(user.hue, 96);
        }
        other => panic!("expected UserInfo, got {other:?}"),
    }
}

#[test]
fn test_cursors() {
    let mut pad = Rustpad::new();
    let (id, _, _) = pad.init_connection(None);

    let data = CursorData { cursors: vec![4, 6, 7], selections: vec![(5, 10), (3, 4)] };
    let fx = pad.handle_message(id, ClientMsg::CursorData(data), &None).unwrap();
    match &fx.broadcasts[0] {
        ServerMsg::UserCursor { id: got, data } => {
            assert_eq!(*got, 0);
            assert_eq!(data.cursors, vec![4, 6, 7]);
            assert_eq!(data.selections, vec![(5, 10), (3, 4)]);
        }
        other => panic!("expected UserCursor, got {other:?}"),
    }

    // A second client replays the first cursor and adds its own.
    let (id2, _, msgs2) = pad.init_connection(None);
    assert!(msgs2.iter().any(|m| matches!(m, ServerMsg::UserCursor { id: 0, .. })));
    let data2 = CursorData { cursors: vec![10], selections: vec![] };
    pad.handle_message(id2, ClientMsg::CursorData(data2), &None).unwrap();

    // The first client leaves; its cursor goes with it.
    pad.close_connection(id);

    // An edit moves the remaining cursor.
    pad.handle_message(
        id2,
        ClientMsg::Edit { revision: 0, operation: insert_op("a") },
        &None,
    )
    .unwrap();

    let (_, _, msgs3) = pad.init_connection(None);
    assert!(!msgs3.iter().any(|m| matches!(m, ServerMsg::UserCursor { id: 0, .. })));
    let replayed = msgs3
        .iter()
        .find_map(|m| match m {
            ServerMsg::UserCursor { id: 1, data } => Some(data.clone()),
            _ => None,
        })
        .expect("expected the second client's cursor");
    assert_eq!(replayed.cursors, vec![11]);
    assert_eq!(replayed.selections, vec![]);
}

#[test]
fn test_update_user() {
    let mut pad = Rustpad::new();
    let (id, _, _) = pad.init_connection(None);
    pad.handle_message(
        id,
        ClientMsg::ClientInfo { name: "Alice".to_string(), hue: 42 },
        &None,
    )
    .unwrap();
    let (id2, _, _) = pad.init_connection(None);
    pad.handle_message(
        id2,
        ClientMsg::ClientInfo { name: "Bob".to_string(), hue: 96 },
        &None,
    )
    .unwrap();

    // An authoritative update to Alice rewrites her entry only.
    let update = UserInfo { name: "Alice".to_string(), hue: 123, admin: true };
    let msgs = pad.update_user(&update);
    assert_eq!(msgs.len(), 1);
    match &msgs[0] {
        ServerMsg::UserInfo { id: got, user } => {
            assert_eq!(*got, 0);
            assert_eq!(user.name, "Alice");
            assert_eq!(user.hue, 123);
            assert!(user.admin);
        }
        other => panic!("expected UserInfo, got {other:?}"),
    }

    let (_, _, replay) = pad.init_connection(None);
    let bob = replay
        .iter()
        .find_map(|m| match m {
            ServerMsg::UserInfo { id: 1, user } => Some(user.clone()),
            _ => None,
        })
        .expect("expected Bob's presence");
    assert_eq!(bob.hue, 96);
    assert!(!bob.admin);
}
