//! Tests for identifiers, session tokens, and the session table.

use rustpad_server::auth::{
    redirect_url, AuthError, User, UserSessions, LOGGEDIN_EXPIRE_SEC, LOGINGIN_EXPIRE_SEC,
};
use rustpad_server::util::{Identifier, Session};

#[test]
fn test_identifier_parse() {
    let id = Identifier::parse("foobar").unwrap();
    assert_eq!(id.text(), "foobar");

    let id = Identifier::parse("A-b_c 9").unwrap();
    assert_eq!(id.text(), "A-b_c 9");

    // Parsing is injective up to the text: equal inputs give equal
    // identifiers, and the longest legal name round-trips too.
    let long = "x".repeat(64);
    let id = Identifier::parse(&long).unwrap();
    assert_eq!(id.text(), long);
    assert_eq!(Identifier::parse("foobar").unwrap(), Identifier::parse("foobar").unwrap());

    assert!(Identifier::parse("").is_err());
    assert!(Identifier::parse(&"x".repeat(65)).is_err());
    assert!(Identifier::parse("slash/slash").is_err());
    assert!(Identifier::parse("dot.dot").is_err());
    assert!(Identifier::parse("emoji🎉").is_err());
}

#[test]
fn test_valid_char() {
    assert!(Identifier::valid_char('a'));
    assert!(Identifier::valid_char('Z'));
    assert!(Identifier::valid_char('0'));
    assert!(Identifier::valid_char('-'));
    assert!(Identifier::valid_char('_'));
    assert!(Identifier::valid_char(' '));
    assert!(!Identifier::valid_char('/'));
    assert!(!Identifier::valid_char('.'));
    assert!(!Identifier::valid_char('é'));
}

#[test]
fn test_session_cookie_round_trip() {
    let session = Session::new();
    let restored = session.cookie_round_trip().expect("the encoded token reads back");
    assert_eq!(restored, session);

    let encoded = session.encoded();
    assert_eq!(encoded.len(), 86);
    assert_eq!(Session::from_cookie(&encoded), Some(session));
}

#[test]
fn test_session_cookie_values() {
    // 86 characters of URL-safe base64 decode to exactly 64 bytes; the
    // all-'A' string is the canonical encoding of 64 zero bytes.
    let cookie = "A".repeat(86);
    let session = Session::from_cookie(&cookie).expect("canonical encoding of 64 bytes");
    assert_eq!(session.encoded(), cookie);
    assert_eq!(
        session.to_cookie(),
        format!("rustpad_session={cookie}; Path=/; HttpOnly; Max-Age=172800; SameSite=Lax"),
    );

    // Wrong lengths and illegal characters are rejected.
    assert_eq!(Session::from_cookie("AAAA"), None);
    assert_eq!(Session::from_cookie(&"!".repeat(86)), None);
    assert_eq!(Session::from_cookie(""), None);
}

#[test]
fn test_sessions_login_flow() {
    let mut sessions = UserSessions::new("staff".to_string());
    let session = Session::new();

    sessions.start_login(
        session,
        "csrf".to_string(),
        "pkce".to_string(),
        "nonce".to_string(),
        Some(Identifier::parse("foobar").unwrap()),
        1000,
    );

    // The wrong state token fails and consumes the attempt.
    let mut copy = UserSessions::new("staff".to_string());
    copy.start_login(
        session,
        "csrf".to_string(),
        "pkce".to_string(),
        "nonce".to_string(),
        None,
        1000,
    );
    assert_eq!(copy.take_login(&session, "evil", 1001).unwrap_err(), AuthError::CsrfMismatch);
    assert_eq!(copy.take_login(&session, "csrf", 1001).unwrap_err(), AuthError::NoLoginState);

    // The right one hands the attempt's secrets back.
    let attempt = sessions.take_login(&session, "csrf", 1001).unwrap();
    assert_eq!(attempt.pkce_verifier, "pkce");
    assert_eq!(attempt.nonce, "nonce");
    assert_eq!(attempt.redirect.unwrap().text(), "foobar");

    // An attempt left past its expiry lapses.
    let mut late = UserSessions::new("staff".to_string());
    late.start_login(
        session,
        "csrf".to_string(),
        "pkce".to_string(),
        "nonce".to_string(),
        None,
        1000,
    );
    let too_late = 1000 + LOGINGIN_EXPIRE_SEC + 1;
    assert_eq!(late.take_login(&session, "csrf", too_late).unwrap_err(), AuthError::Expired);
}

#[test]
fn test_sessions_expiry() {
    let mut sessions = UserSessions::new("staff".to_string());
    let session = Session::new();
    let user = User { name: "Alice".to_string(), hue: 42, admin: false };
    sessions.complete_login(session, user, 1000);

    // Alive within the window, gone after it.
    let got = sessions.get_user(&session, 2000).expect("session is live");
    assert_eq!(got.name, "Alice");
    assert!(sessions.get_user(&session, 1000 + LOGGEDIN_EXPIRE_SEC + 1).is_none());
    assert!(sessions.get_user(&session, 2000).is_none());
}

#[test]
fn test_sessions_update_and_logout() {
    let mut sessions = UserSessions::new("staff".to_string());
    let session = Session::new();
    let user = User { name: "Alice".to_string(), hue: 42, admin: false };
    sessions.complete_login(session, user, 1000);

    let update = User { name: "Alice".to_string(), hue: 77, admin: true };
    sessions.update_user(&session, update, 2000);
    let got = sessions.get_user(&session, 2000).expect("session is live");
    assert_eq!(got.hue, 77);
    assert!(got.admin);

    sessions.logout(&session, 2000);
    assert!(sessions.get_user(&session, 2000).is_none());

    // A session that is still logging in yields no user.
    let other = Session::new();
    sessions.start_login(
        other,
        "csrf".to_string(),
        "pkce".to_string(),
        "nonce".to_string(),
        None,
        1000,
    );
    assert!(sessions.get_user(&other, 1001).is_none());
}

#[test]
fn test_user_from_claims() {
    let sessions = UserSessions::new("staff".to_string());
    let groups = vec!["users".to_string(), "staff".to_string()];
    let user = sessions.user_from_claims("Alice".to_string(), &groups, 42);
    assert!(user.admin);
    assert_eq!(user.name, "Alice");
    assert_eq!(user.hue, 42);

    let groups = vec!["users".to_string()];
    let user = sessions.user_from_claims("Bob".to_string(), &groups, 9);
    assert!(!user.admin);

    // A presence record carries the same fields.
    let info = user.info();
    assert_eq!(info.name, "Bob");
    assert_eq!(info.hue, 9);
    assert!(!info.admin);
}

#[test]
fn test_redirect_url() {
    assert_eq!(redirect_url(&None), "/");
    let id = Identifier::parse("foobar").unwrap();
    assert_eq!(redirect_url(&Some(id)), "/#foobar");
}
