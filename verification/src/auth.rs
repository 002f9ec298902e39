//! Authentication state: login attempts, logged-in sessions, and the
//! decisions of the login flow.
//!
//! The identity provider itself is reached over the network by the
//! process hosting this crate; everything here works on the values that
//! exchange produces, with the current time handed in.  Login attempts
//! expire fifteen minutes after they start, logged-in sessions two days
//! after login; both are enforced lazily on access and swept
//! opportunistically during login and logout.

use vstd::prelude::*;
use crate::rustpad::UserInfoView;
use crate::util::{Identifier, Session};

verus! {

/// Seconds until an unfinished login attempt expires.
pub const LOGINGIN_EXPIRE_SEC: u64 = 15 * 60;

/// Seconds until a logged-in session expires.
pub const LOGGEDIN_EXPIRE_SEC: u64 = 2 * 24 * 60 * 60;

/// An authenticated user: the name is authoritative from the identity
/// provider, the hue is client-chosen, the admin flag comes from group
/// membership.
#[derive(Debug, PartialEq, Eq)]
pub struct User {
    pub name: String,
    pub hue: u16,
    pub admin: bool,
}

impl View for User {
    type V = UserInfoView;

    open spec fn view(&self) -> UserInfoView {
        UserInfoView { name: self.name@, hue: self.hue, admin: self.admin }
    }
}

impl Clone for User {
    fn clone(&self) -> (r: Self)
        ensures
            r@ == self@,
    {
        User { name: self.name.clone(), hue: self.hue, admin: self.admin }
    }
}

impl User {
    /// The same user as a presence record.
    pub fn info(&self) -> (r: crate::rustpad::UserInfo)
        ensures
            r@ == self@,
    {
        crate::rustpad::UserInfo { name: self.name.clone(), hue: self.hue, admin: self.admin }
    }
}

/// The identity-provider configuration, read from a file at startup.
#[derive(Debug, PartialEq, Eq)]
pub struct OpenIdConfig {
    pub client_id: String,
    pub client_secret: String,
    pub issuer_url: String,
    pub host_url: String,
    pub admin_group: String,
}

/// Query parameters naming where to go after login or logout.
#[derive(Debug)]
pub struct RedirectQuery {
    pub redirect: Option<Identifier>,
}

/// What the table remembers for one session token.
#[derive(Debug)]
pub enum AuthState {
    /// A login attempt awaiting the provider's answer.  The secrets of
    /// the exchange are held as their text.
    LoggingIn {
        csrf_token: String,
        pkce_verifier: String,
        nonce: String,
        expires_at: u64,
        redirect: Option<Identifier>,
    },
    /// A completed login.
    LoggedIn { user: User, expires_at: u64 },
}

/// Mathematical model of an `AuthState`.
#[verifier::ext_equal]
pub enum AuthStateView {
    LoggingIn {
        csrf_token: Seq<char>,
        pkce_verifier: Seq<char>,
        nonce: Seq<char>,
        expires_at: u64,
        redirect: Option<Seq<char>>,
    },
    LoggedIn { user: UserInfoView, expires_at: u64 },
}

impl View for AuthState {
    type V = AuthStateView;

    open spec fn view(&self) -> AuthStateView {
        match self {
            AuthState::LoggingIn { csrf_token, pkce_verifier, nonce, expires_at, redirect } => {
                AuthStateView::LoggingIn {
                    csrf_token: csrf_token@,
                    pkce_verifier: pkce_verifier@,
                    nonce: nonce@,
                    expires_at: *expires_at,
                    redirect: match redirect {
                        Some(r) => Some(r@),
                        None => None,
                    },
                }
            }
            AuthState::LoggedIn { user, expires_at } => AuthStateView::LoggedIn {
                user: user@,
                expires_at: *expires_at,
            },
        }
    }
}

/// When a remembered state lapses.
pub open spec fn expiry_of(s: AuthStateView) -> u64 {
    match s {
        AuthStateView::LoggingIn { expires_at, .. } => expires_at,
        AuthStateView::LoggedIn { expires_at, .. } => expires_at,
    }
}

/// The model of the session table: token bytes to remembered state.
pub open spec fn sessions_view(entries: Seq<(Session, AuthState)>) -> Seq<
    (Seq<u8>, AuthStateView),
> {
    entries.map(|i: int, e: (Session, AuthState)| (e.0@, e.1@))
}

/// The state remembered for a token, if any.
pub open spec fn find_state(t: Seq<(Seq<u8>, AuthStateView)>, k: Seq<u8>) -> Option<
    AuthStateView,
>
    decreases t.len(),
{
    if t.len() == 0 {
        None
    } else if t.first().0 == k {
        Some(t.first().1)
    } else {
        find_state(t.drop_first(), k)
    }
}

/// The table with every entry under `k` dropped.
pub open spec fn drop_state(t: Seq<(Seq<u8>, AuthStateView)>, k: Seq<u8>) -> Seq<
    (Seq<u8>, AuthStateView),
>
    decreases t.len(),
{
    if t.len() == 0 {
        Seq::empty()
    } else if t.first().0 == k {
        drop_state(t.drop_first(), k)
    } else {
        seq![t.first()] + drop_state(t.drop_first(), k)
    }
}

/// The table with the state under `k` replaced, or appended when new.
pub open spec fn put_state(
    t: Seq<(Seq<u8>, AuthStateView)>,
    k: Seq<u8>,
    v: AuthStateView,
) -> Seq<(Seq<u8>, AuthStateView)>
    decreases t.len(),
{
    if t.len() == 0 {
        seq![(k, v)]
    } else if t.first().0 == k {
        seq![(k, v)] + t.drop_first()
    } else {
        seq![t.first()] + put_state(t.drop_first(), k, v)
    }
}

/// The table with only the entries that have not lapsed by `now`.
pub open spec fn swept(t: Seq<(Seq<u8>, AuthStateView)>, now: u64) -> Seq<
    (Seq<u8>, AuthStateView),
>
    decreases t.len(),
{
    if t.len() == 0 {
        Seq::empty()
    } else {
        (if expiry_of(t.first().1) > now {
            seq![t.first()]
        } else {
            Seq::<(Seq<u8>, AuthStateView)>::empty()
        }) + swept(t.drop_first(), now)
    }
}

/// What failed when completing a login.
#[derive(Clone, Copy, Debug, PartialEq, Eq, Structural)]
pub enum AuthError {
    /// Nothing is remembered for the session.
    NoLoginState,
    /// The session is already logged in.
    NotLoggingIn,
    /// The login attempt lapsed before the provider answered.
    Expired,
    /// The state token does not match the attempt's token.
    CsrfMismatch,
}

/// How finishing a login under `k` with the given state token must end.
pub open spec fn take_login_outcome(
    t: Seq<(Seq<u8>, AuthStateView)>,
    k: Seq<u8>,
    state: Seq<char>,
    now: u64,
) -> Result<(), AuthError> {
    match find_state(t, k) {
        Option::None => Err(AuthError::NoLoginState),
        Option::Some(AuthStateView::LoggedIn { .. }) => Err(AuthError::NotLoggingIn),
        Option::Some(AuthStateView::LoggingIn { csrf_token, expires_at, .. }) => {
            if expires_at < now {
                Err(AuthError::Expired)
            } else if csrf_token != state {
                Err(AuthError::CsrfMismatch)
            } else {
                Ok(())
            }
        }
    }
}

/// The secrets needed to finish a login attempt.
#[derive(Debug)]
pub struct LoginAttempt {
    pub pkce_verifier: String,
    pub nonce: String,
    pub redirect: Option<Identifier>,
}

/// The in-memory session table.  The caller serializes access to it.
#[derive(Debug)]
pub struct UserSessions {
    sessions: Vec<(Session, AuthState)>,
    admin_group: String,
}

/// Mathematical model of the session table.
#[verifier::ext_equal]
pub struct UserSessionsView {
    pub table: Seq<(Seq<u8>, AuthStateView)>,
    pub admin_group: Seq<char>,
}

impl UserSessionsView {
    /// Well-formedness: no token keys two entries.
    pub open spec fn wf(self) -> bool {
        forall|i: int, j: int|
            0 <= i < j < self.table.len() ==> (#[trigger] self.table[i]).0 != (
            #[trigger] self.table[j]).0
    }
}

impl View for UserSessions {
    type V = UserSessionsView;

    closed spec fn view(&self) -> UserSessionsView {
        UserSessionsView { table: sessions_view(self.sessions@), admin_group: self.admin_group@ }
    }
}

impl UserSessions {
    /// An empty table for a deployment whose admins sit in `admin_group`.
    pub fn new(admin_group: String) -> (r: Self)
        ensures
            r@.wf(),
            r@.table =~= Seq::<(Seq<u8>, AuthStateView)>::empty(),
            r@.admin_group == admin_group@,
    {
        let r = UserSessions { sessions: Vec::new(), admin_group };
        proof {
            assert(r@.table =~= Seq::<(Seq<u8>, AuthStateView)>::empty());
        }
        r
    }

    /// The user a provider answer names: admin exactly when one of its
    /// groups is the deployment's admin group.
    pub fn user_from_claims(&self, name: String, groups: &Vec<String>, hue: u16) -> (r: User)
        ensures
            r@.name == name@,
            r@.hue == hue,
            r@.admin <==> (exists|i: int|
                0 <= i < groups@.len() && (#[trigger] groups@[i])@ == self@.admin_group),
    {
        let mut admin = false;
        let mut i: usize = 0;
        while i < groups.len()
            invariant
                0 <= i <= groups.len(),
                self@.admin_group == self.admin_group@,
                admin <==> (exists|j: int|
                    0 <= j < i && (#[trigger] groups@[j])@ == self@.admin_group),
            decreases groups.len() - i,
        {
            if groups[i] == self.admin_group {
                admin = true;
            }
            i = i + 1;
        }
        User { name, hue, admin }
    }

    /// The user logged in under a session, enforcing expiry: a lapsed
    /// login is removed and not returned.
    pub fn get_user(&mut self, session: &Session, now: u64) -> (r: Option<User>)
        requires
            old(self)@.wf(),
        ensures
            final(self)@.wf(),
            r is Some <==> (find_state(old(self)@.table, session@) matches Some(
                AuthStateView::LoggedIn { expires_at, .. },
            ) && expires_at >= now),
            r matches Some(u) ==> (find_state(old(self)@.table, session@) matches Some(
                AuthStateView::LoggedIn { user, .. },
            ) && u@ == user),
            final(self)@ == (if find_state(old(self)@.table, session@) matches Some(
                AuthStateView::LoggedIn { expires_at, .. },
            ) && expires_at < now {
                UserSessionsView { table: drop_state(old(self)@.table, session@), ..old(self)@ }
            } else {
                old(self)@
            }),
    {
        let ghost t = self@.table;
        let mut i: usize = 0;
        proof {
            assert(t.skip(0) =~= t);
        }
        while i < self.sessions.len()
            invariant
                0 <= i <= self.sessions.len(),
                self@ == old(self)@,
                self@.wf(),
                t == self@.table,
                t.len() == self.sessions@.len(),
                forall|j: int| 0 <= j < i ==> (#[trigger] t[j]).0 != session@,
                find_state(t, session@) == find_state(t.skip(i as int), session@),
            decreases self.sessions.len() - i,
        {
            let ghost tail = t.skip(i as int);
            proof {
                assert(tail.first() == t[i as int]);
                assert(tail.drop_first() =~= t.skip(i as int + 1));
            }
            if self.sessions[i].0.same(session) {
                match &self.sessions[i].1 {
                    AuthState::LoggedIn { user, expires_at } => {
                        if *expires_at < now {
                            proof {
                                assert forall|j: int|
                                    0 <= j < t.len() && j != i as int implies (
                                #[trigger] t[j]).0 != session@ by {
                                    if j > i as int {
                                        assert(t[i as int].0 == session@);
                                    }
                                }
                                lemma_drop_state_remove(t, session@, i as int);
                            }
                            self.sessions.remove(i);
                            proof {
                                assert(self@.table =~= t.remove(i as int));
                                assert(self@ =~= (UserSessionsView {
                                    table: drop_state(t, session@),
                                    ..old(self)@
                                }));
                                assert forall|a: int, b: int|
                                    0 <= a < b < self@.table.len() implies (
                                #[trigger] self@.table[a]).0 != (#[trigger] self@.table[b]).0 by {
                                    let a0: int = if a < i as int {
                                        a
                                    } else {
                                        a + 1
                                    };
                                    let b0: int = if b < i as int {
                                        b
                                    } else {
                                        b + 1
                                    };
                                    assert(t[a0].0 != t[b0].0);
                                }
                            }
                            return None;
                        }
                        return Some(user.clone());
                    }
                    AuthState::LoggingIn { .. } => {
                        return None;
                    }
                }
            }
            i = i + 1;
        }
        proof {
            assert(t.skip(t.len() as int) =~= Seq::<(Seq<u8>, AuthStateView)>::empty());
        }
        None
    }

    /// Replace the user record of a live, unexpired login; a lapsed one
    /// is removed instead, and anything else is left alone.
    pub fn update_user(&mut self, session: &Session, user: User, now: u64)
        requires
            old(self)@.wf(),
        ensures
            final(self)@.wf(),
            final(self)@ == (match find_state(old(self)@.table, session@) {
                Some(AuthStateView::LoggedIn { expires_at, .. }) => (if expires_at < now {
                    UserSessionsView {
                        table: drop_state(old(self)@.table, session@),
                        ..old(self)@
                    }
                } else {
                    UserSessionsView {
                        table: set_logged_in(old(self)@.table, session@, user@),
                        ..old(self)@
                    }
                }),
                _ => old(self)@,
            }),
    {
        let ghost t = self@.table;
        let mut i: usize = 0;
        proof {
            assert(t.skip(0) =~= t);
            assert(t.take(0) =~= Seq::<(Seq<u8>, AuthStateView)>::empty());
            assert(set_logged_in(t, session@, user@) =~= t.take(0) + set_logged_in(
                t.skip(0),
                session@,
                user@,
            ));
        }
        while i < self.sessions.len()
            invariant
                0 <= i <= self.sessions.len(),
                self@ == old(self)@,
                self@.wf(),
                t == self@.table,
                t.len() == self.sessions@.len(),
                forall|j: int| 0 <= j < i ==> (#[trigger] t[j]).0 != session@,
                find_state(t, session@) == find_state(t.skip(i as int), session@),
                set_logged_in(t, session@, user@) =~= t.take(i as int) + set_logged_in(
                    t.skip(i as int),
                    session@,
                    user@,
                ),
            decreases self.sessions.len() - i,
        {
            let ghost tail = t.skip(i as int);
            proof {
                assert(tail.first() == t[i as int]);
                assert(tail.drop_first() =~= t.skip(i as int + 1));
            }
            if self.sessions[i].0.same(session) {
                match &self.sessions[i].1 {
                    AuthState::LoggedIn { expires_at, .. } => {
                        let expires = *expires_at;
                        if expires < now {
                            proof {
                                assert forall|j: int|
                                    0 <= j < t.len() && j != i as int implies (
                                #[trigger] t[j]).0 != session@ by {
                                    if j > i as int {
                                        assert(t[i as int].0 == session@);
                                    }
                                }
                                lemma_drop_state_remove(t, session@, i as int);
                            }
                            self.sessions.remove(i);
                            proof {
                                assert(self@.table =~= t.remove(i as int));
                                assert(self@ =~= (UserSessionsView {
                                    table: drop_state(t, session@),
                                    ..old(self)@
                                }));
                                assert forall|a: int, b: int|
                                    0 <= a < b < self@.table.len() implies (
                                #[trigger] self@.table[a]).0 != (#[trigger] self@.table[b]).0 by {
                                    let a0: int = if a < i as int {
                                        a
                                    } else {
                                        a + 1
                                    };
                                    let b0: int = if b < i as int {
                                        b
                                    } else {
                                        b + 1
                                    };
                                    assert(t[a0].0 != t[b0].0);
                                }
                            }
                            return;
                        }
                        let key = self.sessions[i].0;
                        self.sessions.set(
                            i,
                            (key, AuthState::LoggedIn { user, expires_at: expires }),
                        );
                        proof {
                            assert(set_logged_in(tail, session@, user@) =~= seq![
                                (
                                    session@,
                                    AuthStateView::LoggedIn { user: user@, expires_at: expires },
                                ),
                            ] + tail.drop_first());
                            assert(self@.table =~= t.take(i as int) + set_logged_in(
                                tail,
                                session@,
                                user@,
                            ));
                            assert(self@ =~= (UserSessionsView {
                                table: set_logged_in(t, session@, user@),
                                ..old(self)@
                            }));
                            assert forall|a: int, b: int|
                                0 <= a < b < self@.table.len() implies (
                            #[trigger] self@.table[a]).0 != (#[trigger] self@.table[b]).0 by {
                                assert(self@.table[a].0 == t[a].0);
                                assert(self@.table[b].0 == t[b].0);
                            }
                        }
                        return;
                    }
                    AuthState::LoggingIn { .. } => {
                        return;
                    }
                }
            }
            i = i + 1;
            proof {
                assert(t.take(i as int) =~= t.take(i - 1).push(t[i - 1]));
                assert(set_logged_in(t, session@, user@) =~= t.take(i as int) + set_logged_in(
                    t.skip(i as int),
                    session@,
                    user@,
                ));
            }
        }
        proof {
            assert(t.skip(t.len() as int) =~= Seq::<(Seq<u8>, AuthStateView)>::empty());
        }
    }

    /// Drop every entry that has lapsed by `now`.
    pub fn sweep(&mut self, now: u64)
        requires
            old(self)@.wf(),
        ensures
            final(self)@.wf(),
            final(self)@ == (UserSessionsView {
                table: swept(old(self)@.table, now),
                ..old(self)@
            }),
    {
        let ghost t = self@.table;
        let mut kept: Vec<(Session, AuthState)> = Vec::new();
        proof {
            assert(sessions_view(kept@) =~= Seq::<(Seq<u8>, AuthStateView)>::empty());
            assert(t.skip(0) =~= t);
        }
        let mut i: usize = 0;
        while i < self.sessions.len()
            invariant
                0 <= i <= self.sessions.len(),
                self@ == old(self)@,
                t == self@.table,
                t.len() == self.sessions@.len(),
                swept(t, now) =~= sessions_view(kept@) + swept(t.skip(i as int), now),
                forall|j: int|
                    0 <= j < kept@.len() ==> t.contains(#[trigger] sessions_view(kept@)[j]),
            decreases self.sessions.len() - i,
        {
            let ghost tail = t.skip(i as int);
            let ghost prev = kept@;
            proof {
                assert(tail.first() == t[i as int]);
                assert(tail.drop_first() =~= t.skip(i as int + 1));
            }
            let keep = match &self.sessions[i].1 {
                AuthState::LoggingIn { expires_at, .. } => *expires_at > now,
                AuthState::LoggedIn { expires_at, .. } => *expires_at > now,
            };
            if keep {
                let key = self.sessions[i].0;
                let entry = &self.sessions[i];
                kept.push((key, clone_state(&entry.1)));
                proof {
                    assert(sessions_view(kept@) =~= sessions_view(prev).push(t[i as int]));
                    assert(t.contains(t[i as int]));
                }
            }
            i = i + 1;
            proof {
                assert(swept(t, now) =~= sessions_view(kept@) + swept(
                    t.skip(i as int),
                    now,
                ));
            }
        }
        proof {
            assert(t.skip(t.len() as int) =~= Seq::<(Seq<u8>, AuthStateView)>::empty());
        }
        self.sessions = kept;
        proof {
            assert(self@ =~= (UserSessionsView { table: swept(t, now), ..old(self)@ }));
            assert forall|a: int, b: int| 0 <= a < b < self@.table.len() implies (
            #[trigger] self@.table[a]).0 != (#[trigger] self@.table[b]).0 by {
                let wa = choose|w: int| 0 <= w < t.len() && t[w] == self@.table[a];
                let wb = choose|w: int| 0 <= w < t.len() && t[w] == self@.table[b];
                lemma_swept_distinct(t, now, a, b);
            }
        }
    }

    /// Remember a fresh login attempt, sweeping lapsed entries first.
    pub fn start_login(
        &mut self,
        session: Session,
        csrf_token: String,
        pkce_verifier: String,
        nonce: String,
        redirect: Option<Identifier>,
        now: u64,
    )
        requires
            old(self)@.wf(),
            now + LOGINGIN_EXPIRE_SEC <= u64::MAX,
        ensures
            final(self)@.wf(),
            final(self)@ == (UserSessionsView {
                table: put_state(
                    swept(old(self)@.table, now),
                    session@,
                    AuthStateView::LoggingIn {
                        csrf_token: csrf_token@,
                        pkce_verifier: pkce_verifier@,
                        nonce: nonce@,
                        expires_at: (now + LOGINGIN_EXPIRE_SEC) as u64,
                        redirect: (match redirect {
                            Some(r) => Some(r@),
                            None => None,
                        }),
                    },
                ),
                ..old(self)@
            }),
    {
        self.sweep(now);
        let state = AuthState::LoggingIn {
            csrf_token,
            pkce_verifier,
            nonce,
            expires_at: now + LOGINGIN_EXPIRE_SEC,
            redirect,
        };
        self.insert_state(session, state);
    }

    /// Remember a completed login, sweeping lapsed entries first.
    pub fn complete_login(&mut self, session: Session, user: User, now: u64)
        requires
            old(self)@.wf(),
            now + LOGGEDIN_EXPIRE_SEC <= u64::MAX,
        ensures
            final(self)@.wf(),
            final(self)@ == (UserSessionsView {
                table: put_state(
                    swept(old(self)@.table, now),
                    session@,
                    AuthStateView::LoggedIn {
                        user: user@,
                        expires_at: (now + LOGGEDIN_EXPIRE_SEC) as u64,
                    },
                ),
                ..old(self)@
            }),
    {
        self.sweep(now);
        let state = AuthState::LoggedIn { user, expires_at: now + LOGGEDIN_EXPIRE_SEC };
        self.insert_state(session, state);
    }

    /// Take a login attempt out of the table and check it: the entry is
    /// removed whatever happens, and the attempt's secrets come back only
    /// if it exists, is still an attempt, has not lapsed, and carries the
    /// expected state token.
    pub fn take_login(&mut self, session: &Session, state_token: &str, now: u64) -> (r: Result<
        LoginAttempt,
        AuthError,
    >)
        requires
            old(self)@.wf(),
        ensures
            final(self)@.wf(),
            final(self)@ == (UserSessionsView {
                table: drop_state(old(self)@.table, session@),
                ..old(self)@
            }),
            r matches Err(e) ==> Err::<(), AuthError>(e) == take_login_outcome(
                old(self)@.table,
                session@,
                state_token@,
                now,
            ),
            r is Ok <==> take_login_outcome(old(self)@.table, session@, state_token@, now)
                is Ok,
            r matches Ok(a) ==> (find_state(old(self)@.table, session@) matches Some(
                AuthStateView::LoggingIn { pkce_verifier, nonce, redirect, .. },
            ) && a.pkce_verifier@ == pkce_verifier && a.nonce@ == nonce && (match a.redirect {
                Some(id) => redirect == Some(id@),
                None => redirect is None,
            })),
    {
        let ghost t = self@.table;
        let mut i: usize = 0;
        proof {
            assert(t.skip(0) =~= t);
        }
        while i < self.sessions.len()
            invariant
                0 <= i <= self.sessions.len(),
                self@ == old(self)@,
                self@.wf(),
                t == self@.table,
                t.len() == self.sessions@.len(),
                forall|j: int| 0 <= j < i ==> (#[trigger] t[j]).0 != session@,
                find_state(t, session@) == find_state(t.skip(i as int), session@),
            decreases self.sessions.len() - i,
        {
            let ghost tail = t.skip(i as int);
            proof {
                assert(tail.first() == t[i as int]);
                assert(tail.drop_first() =~= t.skip(i as int + 1));
            }
            if self.sessions[i].0.same(session) {
                proof {
                    assert forall|j: int| 0 <= j < t.len() && j != i as int implies (
                    #[trigger] t[j]).0 != session@ by {
                        if j > i as int {
                            assert(t[i as int].0 == session@);
                        }
                    }
                    lemma_drop_state_remove(t, session@, i as int);
                }
                let (_, state) = self.sessions.remove(i);
                proof {
                    assert(self@.table =~= t.remove(i as int));
                    assert(self@ =~= (UserSessionsView {
                        table: drop_state(t, session@),
                        ..old(self)@
                    }));
                    assert forall|a: int, b: int| 0 <= a < b < self@.table.len() implies (
                    #[trigger] self@.table[a]).0 != (#[trigger] self@.table[b]).0 by {
                        let a0: int = if a < i as int {
                            a
                        } else {
                            a + 1
                        };
                        let b0: int = if b < i as int {
                            b
                        } else {
                            b + 1
                        };
                        assert(t[a0].0 != t[b0].0);
                    }
                }
                match state {
                    AuthState::LoggedIn { .. } => {
                        return Err(AuthError::NotLoggingIn);
                    }
                    AuthState::LoggingIn {
                        csrf_token,
                        pkce_verifier,
                        nonce,
                        expires_at,
                        redirect,
                    } => {
                        if expires_at < now {
                            return Err(AuthError::Expired);
                        }
                        let expected = state_token.to_owned();
                        if csrf_token != expected {
                            return Err(AuthError::CsrfMismatch);
                        }
                        return Ok(LoginAttempt { pkce_verifier, nonce, redirect });
                    }
                }
            }
            i = i + 1;
        }
        proof {
            assert(t.skip(t.len() as int) =~= Seq::<(Seq<u8>, AuthStateView)>::empty());
            lemma_drop_state_absent(t, session@);
            assert(self@ =~= (UserSessionsView {
                table: drop_state(t, session@),
                ..old(self)@
            }));
        }
        Err(AuthError::NoLoginState)
    }

    /// Forget a session and sweep lapsed entries.
    pub fn logout(&mut self, session: &Session, now: u64)
        requires
            old(self)@.wf(),
        ensures
            final(self)@.wf(),
            final(self)@ == (UserSessionsView {
                table: swept(drop_state(old(self)@.table, session@), now),
                ..old(self)@
            }),
    {
        self.remove_state(session);
        self.sweep(now);
    }

    /// Drop the entry under a token, if any.
    fn remove_state(&mut self, session: &Session)
        requires
            old(self)@.wf(),
        ensures
            final(self)@.wf(),
            final(self)@ == (UserSessionsView {
                table: drop_state(old(self)@.table, session@),
                ..old(self)@
            }),
    {
        let ghost t = self@.table;
        let mut i: usize = 0;
        proof {
            assert(t.skip(0) =~= t);
        }
        while i < self.sessions.len()
            invariant
                0 <= i <= self.sessions.len(),
                self@ == old(self)@,
                self@.wf(),
                t == self@.table,
                t.len() == self.sessions@.len(),
                forall|j: int| 0 <= j < i ==> (#[trigger] t[j]).0 != session@,
            decreases self.sessions.len() - i,
        {
            if self.sessions[i].0.same(session) {
                proof {
                    assert forall|j: int| 0 <= j < t.len() && j != i as int implies (
                    #[trigger] t[j]).0 != session@ by {
                        if j > i as int {
                            assert(t[i as int].0 == session@);
                        }
                    }
                    lemma_drop_state_remove(t, session@, i as int);
                }
                self.sessions.remove(i);
                proof {
                    assert(self@.table =~= t.remove(i as int));
                    assert(self@ =~= (UserSessionsView {
                        table: drop_state(t, session@),
                        ..old(self)@
                    }));
                    assert forall|a: int, b: int| 0 <= a < b < self@.table.len() implies (
                    #[trigger] self@.table[a]).0 != (#[trigger] self@.table[b]).0 by {
                        let a0: int = if a < i as int {
                            a
                        } else {
                            a + 1
                        };
                        let b0: int = if b < i as int {
                            b
                        } else {
                            b + 1
                        };
                        assert(t[a0].0 != t[b0].0);
                    }
                }
                return;
            }
            i = i + 1;
        }
        proof {
            lemma_drop_state_absent(t, session@);
            assert(self@ =~= (UserSessionsView {
                table: drop_state(t, session@),
                ..old(self)@
            }));
        }
    }

    /// Replace the state under a token, or append it when new.
    fn insert_state(&mut self, session: Session, state: AuthState)
        requires
            old(self)@.wf(),
        ensures
            final(self)@.wf(),
            final(self)@ == (UserSessionsView {
                table: put_state(old(self)@.table, session@, state@),
                ..old(self)@
            }),
    {
        let ghost t = self@.table;
        let ghost sv = state@;
        let mut i: usize = 0;
        proof {
            assert(t.skip(0) =~= t);
            assert(t.take(0) =~= Seq::<(Seq<u8>, AuthStateView)>::empty());
            assert(put_state(t, session@, sv) =~= t.take(0) + put_state(
                t.skip(0),
                session@,
                sv,
            ));
        }
        while i < self.sessions.len()
            invariant
                0 <= i <= self.sessions.len(),
                self@ == old(self)@,
                self@.wf(),
                t == self@.table,
                sv == state@,
                t.len() == self.sessions@.len(),
                forall|j: int| 0 <= j < i ==> (#[trigger] t[j]).0 != session@,
                put_state(t, session@, sv) =~= t.take(i as int) + put_state(
                    t.skip(i as int),
                    session@,
                    sv,
                ),
            decreases self.sessions.len() - i,
        {
            let ghost tail = t.skip(i as int);
            proof {
                assert(tail.first() == t[i as int]);
                assert(tail.drop_first() =~= t.skip(i as int + 1));
            }
            if self.sessions[i].0.same(&session) {
                self.sessions.set(i, (session, state));
                proof {
                    assert(put_state(tail, session@, sv) =~= seq![(session@, sv)]
                        + tail.drop_first());
                    assert(self@.table =~= t.take(i as int) + put_state(tail, session@, sv));
                    assert(self@ =~= (UserSessionsView {
                        table: put_state(t, session@, sv),
                        ..old(self)@
                    }));
                    assert forall|a: int, b: int| 0 <= a < b < self@.table.len() implies (
                    #[trigger] self@.table[a]).0 != (#[trigger] self@.table[b]).0 by {
                        assert(self@.table[a].0 == t[a].0);
                        assert(self@.table[b].0 == t[b].0);
                    }
                }
                return;
            }
            i = i + 1;
            proof {
                assert(t.take(i as int) =~= t.take(i - 1).push(t[i - 1]));
                assert(put_state(t, session@, sv) =~= t.take(i as int) + put_state(
                    t.skip(i as int),
                    session@,
                    sv,
                ));
            }
        }
        let ghost n = t.len() as int;
        self.sessions.push((session, state));
        proof {
            assert(t.skip(n) =~= Seq::<(Seq<u8>, AuthStateView)>::empty());
            assert(put_state(t, session@, sv) =~= t.take(n) + seq![(session@, sv)]);
            assert(t.take(n) =~= t);
            assert(self@.table =~= t.push((session@, sv)));
            assert(self@.table =~= put_state(t, session@, sv));
            assert(self@ =~= (UserSessionsView {
                table: put_state(t, session@, sv),
                ..old(self)@
            }));
            assert forall|a: int, b: int| 0 <= a < b < self@.table.len() implies (
            #[trigger] self@.table[a]).0 != (#[trigger] self@.table[b]).0 by {
                if b < n {
                    assert(t[a].0 != t[b].0);
                } else {
                    assert(self@.table[b].0 == session@);
                    assert(t[a].0 != session@);
                }
            }
        }
    }
}

/// Where to send the browser after login or logout: to the named
/// document, or to the front page.
pub fn redirect_url(redirect: &Option<Identifier>) -> (r: String)
    requires
        (match redirect {
            Some(id) => crate::util::spec_valid_identifier(id@),
            None => true,
        }),
    ensures
        r@ == (match redirect {
            Some(id) => "/#"@ + id@,
            None => "/"@,
        }),
{
    match redirect {
        Some(id) => {
            let mut s = String::from_str("/#");
            let text = id.text();
            s.append(text.as_str());
            s
        }
        None => String::from_str("/"),
    }
}

/// A structural copy of a remembered state.
fn clone_state(s: &AuthState) -> (r: AuthState)
    ensures
        r@ == s@,
{
    match s {
        AuthState::LoggingIn { csrf_token, pkce_verifier, nonce, expires_at, redirect } => {
            AuthState::LoggingIn {
                csrf_token: csrf_token.clone(),
                pkce_verifier: pkce_verifier.clone(),
                nonce: nonce.clone(),
                expires_at: *expires_at,
                redirect: match redirect {
                    Some(r) => Some(*r),
                    None => None,
                },
            }
        }
        AuthState::LoggedIn { user, expires_at } => AuthState::LoggedIn {
            user: user.clone(),
            expires_at: *expires_at,
        },
    }
}

/// The table with the record under `k` — when it is a login — replaced
/// by the given user, keeping its expiry.
pub open spec fn set_logged_in(
    t: Seq<(Seq<u8>, AuthStateView)>,
    k: Seq<u8>,
    u: UserInfoView,
) -> Seq<(Seq<u8>, AuthStateView)>
    decreases t.len(),
{
    if t.len() == 0 {
        Seq::empty()
    } else if t.first().0 == k {
        (match t.first().1 {
            AuthStateView::LoggedIn { expires_at, .. } => seq![
                (k, AuthStateView::LoggedIn { user: u, expires_at }),
            ],
            _ => seq![t.first()],
        }) + t.drop_first()
    } else {
        seq![t.first()] + set_logged_in(t.drop_first(), k, u)
    }
}

/// Entries that survive a sweep sit at distinct positions of the old
/// table, in order; so their keys stay distinct.
proof fn lemma_swept_distinct(t: Seq<(Seq<u8>, AuthStateView)>, now: u64, a: int, b: int)
    requires
        forall|i: int, j: int|
            0 <= i < j < t.len() ==> (#[trigger] t[i]).0 != (#[trigger] t[j]).0,
        0 <= a < b < swept(t, now).len(),
    ensures
        swept(t, now)[a].0 != swept(t, now)[b].0,
    decreases t.len(),
{
    let out = swept(t, now);
    let rest = t.drop_first();
    assert forall|i: int, j: int| 0 <= i < j < rest.len() implies (#[trigger] rest[i]).0 != (
    #[trigger] rest[j]).0 by {
        assert(rest[i] == t[i + 1]);
        assert(rest[j] == t[j + 1]);
    }
    if expiry_of(t.first().1) > now {
        if a == 0 {
            lemma_swept_contains(rest, now, b - 1);
            let w = choose|w: int| 0 <= w < rest.len() && rest[w] == swept(rest, now)[b - 1];
            assert(t[w + 1] == swept(rest, now)[b - 1]);
            assert(t[0].0 != t[w + 1].0);
        } else {
            lemma_swept_distinct(rest, now, a - 1, b - 1);
        }
    } else {
        lemma_swept_distinct(rest, now, a, b);
    }
}

/// Every survivor of a sweep was in the table.
proof fn lemma_swept_contains(t: Seq<(Seq<u8>, AuthStateView)>, now: u64, i: int)
    requires
        0 <= i < swept(t, now).len(),
    ensures
        t.contains(swept(t, now)[i]),
    decreases t.len(),
{
    let rest = t.drop_first();
    if expiry_of(t.first().1) > now {
        if i == 0 {
            assert(t.contains(t[0]));
        } else {
            lemma_swept_contains(rest, now, i - 1);
            let w = choose|w: int| 0 <= w < rest.len() && rest[w] == swept(rest, now)[i - 1];
            assert(t[w + 1] == swept(rest, now)[i - 1]);
            assert(t.contains(t[w + 1]));
        }
    } else {
        lemma_swept_contains(rest, now, i);
        let w = choose|w: int| 0 <= w < rest.len() && rest[w] == swept(rest, now)[i];
        assert(t[w + 1] == swept(rest, now)[i]);
        assert(t.contains(t[w + 1]));
    }
}

/// When `k` first occurs at `i` and nowhere else, dropping it removes
/// exactly that entry.
proof fn lemma_drop_state_remove(t: Seq<(Seq<u8>, AuthStateView)>, k: Seq<u8>, i: int)
    requires
        0 <= i < t.len(),
        t[i].0 == k,
        forall|j: int| 0 <= j < t.len() && j != i ==> (#[trigger] t[j]).0 != k,
    ensures
        drop_state(t, k) =~= t.remove(i),
    decreases i,
{
    let rest = t.drop_first();
    if i == 0 {
        assert forall|j: int| 0 <= j < rest.len() implies (#[trigger] rest[j]).0 != k by {
            assert(rest[j] == t[j + 1]);
        }
        lemma_drop_state_absent(rest, k);
        assert(drop_state(t, k) =~= t.remove(0));
    } else {
        assert forall|j: int| 0 <= j < rest.len() && j != i - 1 implies (
        #[trigger] rest[j]).0 != k by {
            assert(rest[j] == t[j + 1]);
        }
        assert(rest[i - 1] == t[i]);
        lemma_drop_state_remove(rest, k, i - 1);
        assert(drop_state(t, k) =~= t.remove(i));
    }
}

/// When `k` is absent, dropping it changes nothing.
proof fn lemma_drop_state_absent(t: Seq<(Seq<u8>, AuthStateView)>, k: Seq<u8>)
    requires
        forall|j: int| 0 <= j < t.len() ==> (#[trigger] t[j]).0 != k,
    ensures
        drop_state(t, k) =~= t,
    decreases t.len(),
{
    if t.len() != 0 {
        assert forall|j: int| 0 <= j < t.drop_first().len() implies (
        #[trigger] t.drop_first()[j]).0 != k by {
            assert(t.drop_first()[j] == t[j + 1]);
        }
        lemma_drop_state_absent(t.drop_first(), k);
        assert(drop_state(t, k) =~= t);
    }
}

} // verus!
