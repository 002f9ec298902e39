//! Eventually consistent server-side logic for a shared document.
//!
//! A `Rustpad` owns one document: its totally ordered operation log, the
//! current text, metadata, and the users and cursors present.  Edits are
//! admitted under operational transformation; every admitted edit keeps
//! the invariant that replaying the log from the empty text reproduces
//! the current text.

use vstd::prelude::*;
use operational_transform::OperationSeq;
use crate::database::PersistedDocument;
use crate::util::copy_vec;
use crate::ot::{
    apply_ops, base_len_of, insertion_view, lemma_apply_len, lemma_insertion, ot_apply,
    ot_elements, ot_insertion, ot_target_len, ot_transform, ot_view, transform_index,
    transform_index_spec, transform_pair, SpecEditOp, target_len_of, view_ops,
};

verus! {

/// Who may open a document.
#[derive(Clone, Copy, Debug, PartialEq, Eq, Structural)]
pub enum Visibility {
    /// Admins only.
    Private,
    /// Any authenticated user.
    Internal,
    /// Anybody.
    Public,
}

impl Visibility {
    /// Position in the order `Private < Internal < Public`.
    pub open spec fn rank(self) -> int {
        match self {
            Visibility::Private => 0,
            Visibility::Internal => 1,
            Visibility::Public => 2,
        }
    }

    /// Whether `self` admits strictly fewer roles than `other`.
    pub open spec fn spec_stricter_than(self, other: Visibility) -> bool {
        self.rank() < other.rank()
    }

    /// Whether `self` admits strictly fewer roles than `other`.
    pub fn stricter_than(self, other: Visibility) -> (r: bool)
        ensures
            r == self.spec_stricter_than(other),
    {
        let a: u8 = match self {
            Visibility::Private => 0,
            Visibility::Internal => 1,
            Visibility::Public => 2,
        };
        let b: u8 = match other {
            Visibility::Private => 0,
            Visibility::Internal => 1,
            Visibility::Public => 2,
        };
        a < b
    }
}

/// What a connection is allowed to do, derived from its session.
#[derive(Clone, Copy, Debug, PartialEq, Eq, Structural)]
pub enum Role {
    Anon,
    User,
    Admin,
}

impl Role {
    /// The access rule: public documents admit anybody, internal ones any
    /// authenticated user, private ones admins only.
    pub open spec fn spec_can_access(self, visibility: Visibility) -> bool {
        match visibility {
            Visibility::Public => true,
            Visibility::Internal => self is User || self is Admin,
            Visibility::Private => self is Admin,
        }
    }

    /// Whether this role may open a document of the given visibility.
    pub fn can_access(self, visibility: Visibility) -> (r: bool)
        ensures
            r == self.spec_can_access(visibility),
    {
        match visibility {
            Visibility::Public => true,
            Visibility::Internal => !matches!(self, Role::Anon),
            Visibility::Private => matches!(self, Role::Admin),
        }
    }
}

/// Metadata of a document.
#[derive(Debug, PartialEq, Eq)]
pub struct DocumentMeta {
    /// Language of the document, for editor syntax highlighting.
    pub language: String,
    /// Who may open the document.
    pub visibility: Visibility,
}

impl Clone for DocumentMeta {
    fn clone(&self) -> (r: Self)
        ensures
            r.language@ == self.language@,
            r.visibility == self.visibility,
    {
        DocumentMeta { language: self.language.clone(), visibility: self.visibility }
    }
}

/// A user present on a document.
#[derive(Debug, PartialEq, Eq)]
pub struct UserInfo {
    pub name: String,
    /// Cursor hue, a degree on the color wheel.
    pub hue: u16,
    pub admin: bool,
}

/// Mathematical model of a `UserInfo`.
#[verifier::ext_equal]
pub struct UserInfoView {
    pub name: Seq<char>,
    pub hue: u16,
    pub admin: bool,
}

impl View for UserInfo {
    type V = UserInfoView;

    open spec fn view(&self) -> UserInfoView {
        UserInfoView { name: self.name@, hue: self.hue, admin: self.admin }
    }
}

impl Clone for UserInfo {
    fn clone(&self) -> (r: Self)
        ensures
            r@ == self@,
    {
        UserInfo { name: self.name.clone(), hue: self.hue, admin: self.admin }
    }
}

/// A user's cursor and selection positions, in code-point units.
#[derive(Debug, PartialEq, Eq)]
pub struct CursorData {
    pub cursors: Vec<u32>,
    pub selections: Vec<(u32, u32)>,
}

/// Mathematical model of a `CursorData`.
#[verifier::ext_equal]
pub struct CursorDataView {
    pub cursors: Seq<u32>,
    pub selections: Seq<(u32, u32)>,
}

impl View for CursorData {
    type V = CursorDataView;

    open spec fn view(&self) -> CursorDataView {
        CursorDataView { cursors: self.cursors@, selections: self.selections@ }
    }
}

impl Clone for CursorData {
    fn clone(&self) -> (r: Self)
        ensures
            r@ == self@,
    {
        CursorData { cursors: copy_vec(&self.cursors), selections: copy_vec(&self.selections) }
    }
}

/// One entry of the operation log: who made the edit, and the edit itself.
#[derive(Debug)]
pub struct UserOperation {
    pub id: u64,
    pub operation: OperationSeq,
}

/// Mathematical model of a log entry.
#[verifier::ext_equal]
pub struct UserOpView {
    pub id: u64,
    pub op: Seq<SpecEditOp>,
}

impl View for UserOperation {
    type V = UserOpView;

    open spec fn view(&self) -> UserOpView {
        UserOpView { id: self.id, op: crate::ot::ot_view(self.operation) }
    }
}

impl Clone for UserOperation {
    fn clone(&self) -> (r: Self)
        ensures
            r@ == self@,
    {
        UserOperation { id: self.id, operation: self.operation.clone() }
    }
}

/// Length of the document text at revision `r` of the log: zero at the
/// start, afterwards whatever the last admitted operation produced.
pub open spec fn len_at(log: Seq<UserOpView>, r: int) -> nat {
    if r <= 0 {
        0
    } else {
        target_len_of(log[r - 1].op)
    }
}

/// The lengths of the log chain: every entry applies to exactly the text
/// its predecessors produced.
pub open spec fn chained(log: Seq<UserOpView>) -> bool {
    forall|i: int|
        0 <= i < log.len() ==> base_len_of(#[trigger] log[i].op) == len_at(log, i)
}

/// The document text determined by a log: the entries applied in order,
/// starting from the empty text.
pub open spec fn doc_text(log: Seq<UserOpView>) -> Seq<char>
    decreases log.len(),
{
    if log.len() == 0 {
        Seq::empty()
    } else {
        apply_ops(log.last().op, doc_text(log.drop_last()))
    }
}

/// A chained log produces a text of exactly the chained length.
pub proof fn lemma_doc_text_len(log: Seq<UserOpView>)
    requires
        chained(log),
    ensures
        doc_text(log).len() == len_at(log, log.len() as int),
    decreases log.len(),
{
    if log.len() != 0 {
        let front = log.drop_last();
        assert forall|i: int| 0 <= i < front.len() implies base_len_of(
            #[trigger] front[i].op,
        ) == len_at(front, i) by {
            assert(front[i] == log[i]);
            assert(base_len_of(log[i].op) == len_at(log, i));
        }
        lemma_doc_text_len(front);
        assert(base_len_of(log.last().op) == len_at(log, log.len() - 1));
        lemma_apply_len(log.last().op, doc_text(front));
    }
}

/// Largest text, in code points, that an admitted edit may produce.
pub const MAX_TARGET_LEN: usize = 262144;

/// Why the engine refused a client message.
#[derive(Clone, Copy, Debug, PartialEq, Eq, Structural)]
pub enum EngineError {
    /// The client named a revision the server has not reached.
    RevisionTooNew,
    /// The edit does not fit the text it would apply to.
    LengthMismatch,
    /// The transformed edit would grow the text past the limit.
    TargetTooLarge,
}

/// The edit rebased over every log entry from `from` on: at each step the
/// incoming edit is transformed against the logged one and the rebased
/// side is kept.
pub open spec fn transform_through(
    op: Seq<SpecEditOp>,
    log: Seq<UserOpView>,
    from: int,
) -> Seq<SpecEditOp>
    decreases log.len() - from,
{
    if from < 0 || from >= log.len() {
        op
    } else {
        transform_through(transform_pair(op, log[from].op).0, log, from + 1)
    }
}

/// The admission decision for an edit submitted against revision
/// `revision`: the revision may not lie ahead of the log, the edit must
/// fit the text of that revision, and once rebased over the newer log
/// entries it may not grow the text past the limit.
pub open spec fn edit_outcome(
    log: Seq<UserOpView>,
    revision: int,
    op: Seq<SpecEditOp>,
) -> Result<(), EngineError> {
    if revision > log.len() {
        Err(EngineError::RevisionTooNew)
    } else if revision < log.len() && base_len_of(op) != len_at(log, revision) {
        Err(EngineError::LengthMismatch)
    } else if target_len_of(transform_through(op, log, revision)) > MAX_TARGET_LEN {
        Err(EngineError::TargetTooLarge)
    } else if base_len_of(op) != len_at(log, revision) {
        Err(EngineError::LengthMismatch)
    } else {
        Ok(())
    }
}

/// Whether an edit submitted against `revision` is admitted.
pub open spec fn edit_ok(log: Seq<UserOpView>, revision: int, op: Seq<SpecEditOp>) -> bool {
    edit_outcome(log, revision, op) is Ok
}

/// Where a cursor position lands after an admitted edit.
pub open spec fn xform_u32(ops: Seq<SpecEditOp>, p: u32) -> u32 {
    transform_index_spec(ops, p) as u32
}

/// A cursor record with every position moved through an admitted edit.
pub open spec fn cursors_through(ops: Seq<SpecEditOp>, c: CursorDataView) -> CursorDataView {
    CursorDataView {
        cursors: c.cursors.map(|i: int, p: u32| xform_u32(ops, p)),
        selections: c.selections.map(
            |i: int, p: (u32, u32)| (xform_u32(ops, p.0), xform_u32(ops, p.1)),
        ),
    }
}

/// The state after an admitted edit: the rebased operation is appended to
/// the log under the editor's id, the text is rewritten, every cursor is
/// moved through it, and the document becomes dirty.
pub open spec fn edit_applied(
    s: StateView,
    id: u64,
    revision: int,
    op: Seq<SpecEditOp>,
) -> StateView {
    let rebased = transform_through(op, s.log, revision);
    StateView {
        log: s.log.push(UserOpView { id, op: rebased }),
        text: apply_ops(rebased, s.text),
        cursors: s.cursors.map(
            |i: int, c: (u64, CursorDataView)| (c.0, cursors_through(rebased, c.1)),
        ),
        dirty: true,
        ..s
    }
}

/// No key appears twice.
pub open spec fn unique_keys<V>(entries: Seq<(u64, V)>) -> bool {
    forall|i: int, j: int|
        0 <= i < j < entries.len() ==> (#[trigger] entries[i]).0 != (#[trigger] entries[j]).0
}

/// `entries` with the value under `k` replaced, or appended if `k` is new.
pub open spec fn upsert<V>(entries: Seq<(u64, V)>, k: u64, v: V) -> Seq<(u64, V)>
    decreases entries.len(),
{
    if entries.len() == 0 {
        seq![(k, v)]
    } else if entries.first().0 == k {
        seq![(k, v)] + entries.drop_first()
    } else {
        seq![entries.first()] + upsert(entries.drop_first(), k, v)
    }
}

/// `entries` with every entry under `k` dropped.
pub open spec fn without_key<V>(entries: Seq<(u64, V)>, k: u64) -> Seq<(u64, V)>
    decreases entries.len(),
{
    if entries.len() == 0 {
        Seq::empty()
    } else if entries.first().0 == k {
        without_key(entries.drop_first(), k)
    } else {
        seq![entries.first()] + without_key(entries.drop_first(), k)
    }
}

/// When `k` first occurs at `i`, upserting rewrites exactly that entry.
proof fn lemma_upsert_update<V>(entries: Seq<(u64, V)>, k: u64, v: V, i: int)
    requires
        0 <= i < entries.len(),
        entries[i].0 == k,
        forall|j: int| 0 <= j < i ==> (#[trigger] entries[j]).0 != k,
    ensures
        upsert(entries, k, v) =~= entries.update(i, (k, v)),
    decreases i,
{
    if i == 0 {
        assert(upsert(entries, k, v) =~= entries.update(0, (k, v)));
    } else {
        assert forall|j: int| 0 <= j < i - 1 implies (
            #[trigger] entries.drop_first()[j]).0 != k by {
            assert(entries.drop_first()[j] == entries[j + 1]);
        }
        lemma_upsert_update(entries.drop_first(), k, v, i - 1);
        assert(upsert(entries, k, v) =~= entries.update(i, (k, v)));
    }
}

/// When `k` is absent, upserting appends the entry.
proof fn lemma_upsert_push<V>(entries: Seq<(u64, V)>, k: u64, v: V)
    requires
        forall|j: int| 0 <= j < entries.len() ==> (#[trigger] entries[j]).0 != k,
    ensures
        upsert(entries, k, v) =~= entries.push((k, v)),
    decreases entries.len(),
{
    if entries.len() != 0 {
        assert forall|j: int| 0 <= j < entries.drop_first().len() implies (
            #[trigger] entries.drop_first()[j]).0 != k by {
            assert(entries.drop_first()[j] == entries[j + 1]);
        }
        lemma_upsert_push(entries.drop_first(), k, v);
        assert(upsert(entries, k, v) =~= entries.push((k, v)));
    }
}

/// Upserting keeps keys unique, and every entry of the result is either
/// the new one or one that was already present.
proof fn lemma_upsert_props<V>(entries: Seq<(u64, V)>, k: u64, v: V)
    requires
        unique_keys(entries),
    ensures
        unique_keys(upsert(entries, k, v)),
        forall|i: int|
            0 <= i < upsert(entries, k, v).len() ==> ((#[trigger] upsert(entries, k, v)[i]) == (
            k,
            v,
            ) || entries.contains(upsert(entries, k, v)[i])),
    decreases entries.len(),
{
    let out = upsert(entries, k, v);
    if entries.len() == 0 {
    } else {
        let rest = entries.drop_first();
        assert(unique_keys(rest)) by {
            assert forall|a: int, b: int| 0 <= a < b < rest.len() implies (
                #[trigger] rest[a]).0 != (#[trigger] rest[b]).0 by {
                assert(rest[a] == entries[a + 1]);
                assert(rest[b] == entries[b + 1]);
            }
        }
        if entries.first().0 == k {
            assert forall|a: int, b: int| 0 <= a < b < out.len() implies (#[trigger] out[a]).0
                != (#[trigger] out[b]).0 by {
                assert(out[b] == rest[b - 1]);
                assert(rest[b - 1] == entries[b]);
                if a > 0 {
                    assert(out[a] == entries[a]);
                }
            }
            assert forall|i: int| 0 <= i < out.len() implies ((#[trigger] out[i]) == (k, v)
                || entries.contains(out[i])) by {
                if i > 0 {
                    assert(out[i] == entries[i]);
                }
            }
        } else {
            lemma_upsert_props(rest, k, v);
            let sub = upsert(rest, k, v);
            assert forall|a: int, b: int| 0 <= a < b < out.len() implies (#[trigger] out[a]).0
                != (#[trigger] out[b]).0 by {
                if a == 0 {
                    assert(out[b] == sub[b - 1]);
                    if sub[b - 1] == (k, v) {
                    } else {
                        assert(rest.contains(sub[b - 1]));
                        let w = choose|w: int| 0 <= w < rest.len() && rest[w] == sub[b - 1];
                        assert(entries[w + 1] == sub[b - 1]);
                        assert(entries[0].0 != entries[w + 1].0);
                    }
                } else {
                    assert(out[a] == sub[a - 1]);
                    assert(out[b] == sub[b - 1]);
                }
            }
            assert forall|i: int| 0 <= i < out.len() implies ((#[trigger] out[i]) == (k, v)
                || entries.contains(out[i])) by {
                if i == 0 {
                    assert(entries.contains(entries[0]));
                } else {
                    assert(out[i] == sub[i - 1]);
                    if sub[i - 1] == (k, v) {
                    } else {
                        assert(rest.contains(sub[i - 1]));
                        let w = choose|w: int| 0 <= w < rest.len() && rest[w] == sub[i - 1];
                        assert(entries[w + 1] == sub[i - 1]);
                        assert(entries.contains(entries[w + 1]));
                    }
                }
            }
        }
    }
}

/// When `k` is absent, dropping it changes nothing.
proof fn lemma_without_key_absent<V>(entries: Seq<(u64, V)>, k: u64)
    requires
        forall|j: int| 0 <= j < entries.len() ==> (#[trigger] entries[j]).0 != k,
    ensures
        without_key(entries, k) =~= entries,
    decreases entries.len(),
{
    if entries.len() != 0 {
        assert forall|j: int| 0 <= j < entries.drop_first().len() implies (
            #[trigger] entries.drop_first()[j]).0 != k by {
            assert(entries.drop_first()[j] == entries[j + 1]);
        }
        lemma_without_key_absent(entries.drop_first(), k);
        assert(without_key(entries, k) =~= entries);
    }
}

/// With unique keys, dropping `k` removes exactly its one entry.
proof fn lemma_without_key_remove<V>(entries: Seq<(u64, V)>, k: u64, i: int)
    requires
        unique_keys(entries),
        0 <= i < entries.len(),
        entries[i].0 == k,
        forall|j: int| 0 <= j < i ==> (#[trigger] entries[j]).0 != k,
    ensures
        without_key(entries, k) =~= entries.remove(i),
    decreases i,
{
    let rest = entries.drop_first();
    assert(unique_keys(rest)) by {
        assert forall|a: int, b: int| 0 <= a < b < rest.len() implies (#[trigger] rest[a]).0 != (
        #[trigger] rest[b]).0 by {
            assert(rest[a] == entries[a + 1]);
            assert(rest[b] == entries[b + 1]);
        }
    }
    if i == 0 {
        assert forall|j: int| 0 <= j < rest.len() implies (#[trigger] rest[j]).0 != k by {
            assert(rest[j] == entries[j + 1]);
            assert(entries[0].0 == k);
        }
        lemma_without_key_absent(rest, k);
        assert(without_key(entries, k) =~= entries.remove(0));
    } else {
        assert forall|j: int| 0 <= j < i - 1 implies (#[trigger] rest[j]).0 != k by {
            assert(rest[j] == entries[j + 1]);
        }
        assert(rest[i - 1] == entries[i]);
        lemma_without_key_remove(rest, k, i - 1);
        assert(without_key(entries, k) =~= entries.remove(i));
    }
}

/// Dropping a key keeps keys unique; the surviving entries were present.
proof fn lemma_without_key_props<V>(entries: Seq<(u64, V)>, k: u64)
    requires
        unique_keys(entries),
    ensures
        unique_keys(without_key(entries, k)),
        forall|i: int|
            0 <= i < without_key(entries, k).len() ==> entries.contains(
                #[trigger] without_key(entries, k)[i],
            ),
    decreases entries.len(),
{
    let out = without_key(entries, k);
    if entries.len() != 0 {
        let rest = entries.drop_first();
        assert(unique_keys(rest)) by {
            assert forall|a: int, b: int| 0 <= a < b < rest.len() implies (
                #[trigger] rest[a]).0 != (#[trigger] rest[b]).0 by {
                assert(rest[a] == entries[a + 1]);
                assert(rest[b] == entries[b + 1]);
            }
        }
        lemma_without_key_props(rest, k);
        let sub = without_key(rest, k);
        assert forall|i: int| 0 <= i < sub.len() implies entries.contains(#[trigger] sub[i]) by {
            assert(rest.contains(sub[i]));
            let w = choose|w: int| 0 <= w < rest.len() && rest[w] == sub[i];
            assert(entries[w + 1] == sub[i]);
            assert(entries.contains(entries[w + 1]));
        }
        if entries.first().0 == k {
        } else {
            assert forall|a: int, b: int| 0 <= a < b < out.len() implies (#[trigger] out[a]).0
                != (#[trigger] out[b]).0 by {
                if a == 0 {
                    assert(out[b] == sub[b - 1]);
                    assert(rest.contains(sub[b - 1]));
                    let w = choose|w: int| 0 <= w < rest.len() && rest[w] == sub[b - 1];
                    assert(entries[w + 1] == sub[b - 1]);
                    assert(entries[0].0 != entries[w + 1].0);
                } else {
                    assert(out[a] == sub[a - 1]);
                    assert(out[b] == sub[b - 1]);
                }
            }
            assert forall|i: int| 0 <= i < out.len() implies entries.contains(
                #[trigger] out[i],
            ) by {
                if i == 0 {
                    assert(entries.contains(entries[0]));
                } else {
                    assert(out[i] == sub[i - 1]);
                }
            }
        }
    }
}

/// A message received from a client.
#[derive(Debug)]
pub enum ClientMsg {
    /// A sequence of local edits from the user, against the revision the
    /// client had seen.
    Edit { revision: usize, operation: OperationSeq },
    /// Sets the metadata of the document.
    SetMeta { language: Option<String>, visibility: Option<Visibility> },
    /// Sets the user's presence information.
    ClientInfo { name: String, hue: u16 },
    /// Sets the user's cursor and selection positions.
    CursorData(CursorData),
}

/// Mathematical model of a client message.
#[verifier::ext_equal]
pub enum ClientMsgView {
    Edit { revision: int, operation: Seq<SpecEditOp> },
    SetMeta { language: Option<Seq<char>>, visibility: Option<Visibility> },
    ClientInfo { name: Seq<char>, hue: u16 },
    CursorData(CursorDataView),
}

impl View for ClientMsg {
    type V = ClientMsgView;

    open spec fn view(&self) -> ClientMsgView {
        match self {
            ClientMsg::Edit { revision, operation } => ClientMsgView::Edit {
                revision: *revision as int,
                operation: ot_view(*operation),
            },
            ClientMsg::SetMeta { language, visibility } => ClientMsgView::SetMeta {
                language: match language {
                    Some(l) => Some(l@),
                    None => None,
                },
                visibility: *visibility,
            },
            ClientMsg::ClientInfo { name, hue } => ClientMsgView::ClientInfo {
                name: name@,
                hue: *hue,
            },
            ClientMsg::CursorData(data) => ClientMsgView::CursorData(data@),
        }
    }
}

/// A message sent to clients.
#[derive(Debug)]
pub enum ServerMsg {
    /// Tells a new client its connection id and authenticated identity.
    Identity { id: u64, info: Option<UserInfo> },
    /// Carries a slice of the operation log, starting at `start`.
    History { start: usize, operations: Vec<UserOperation> },
    /// The current metadata, last writer wins.
    Meta { language: String, visibility: Visibility },
    /// A user's presence information.
    UserInfo { id: u64, user: UserInfo },
    /// A user left.
    UserDisconnect { id: u64 },
    /// A user's cursor position.
    UserCursor { id: u64, data: CursorData },
}

/// Mathematical model of a server message.
#[verifier::ext_equal]
pub enum ServerMsgView {
    Identity { id: u64, info: Option<UserInfoView> },
    History { start: int, operations: Seq<UserOpView> },
    Meta { language: Seq<char>, visibility: Visibility },
    UserInfo { id: u64, user: UserInfoView },
    UserDisconnect { id: u64 },
    UserCursor { id: u64, data: CursorDataView },
}

impl View for ServerMsg {
    type V = ServerMsgView;

    open spec fn view(&self) -> ServerMsgView {
        match self {
            ServerMsg::Identity { id, info } => ServerMsgView::Identity {
                id: *id,
                info: match info {
                    Some(u) => Some(u@),
                    None => None,
                },
            },
            ServerMsg::History { start, operations } => ServerMsgView::History {
                start: *start as int,
                operations: operations@.map(|i: int, o: UserOperation| o@),
            },
            ServerMsg::Meta { language, visibility } => ServerMsgView::Meta {
                language: language@,
                visibility: *visibility,
            },
            ServerMsg::UserInfo { id, user } => ServerMsgView::UserInfo { id: *id, user: user@ },
            ServerMsg::UserDisconnect { id } => ServerMsgView::UserDisconnect { id: *id },
            ServerMsg::UserCursor { id, data } => ServerMsgView::UserCursor {
                id: *id,
                data: data@,
            },
        }
    }
}

/// The presence record actually stored for a `ClientInfo` message: an
/// authenticated connection's name and admin flag override the submitted
/// ones, so clients cannot spoof an identity; the hue is wrapped onto the
/// color wheel.
pub open spec fn resolved_info(name: Seq<char>, hue: u16, user: Option<UserInfo>) -> UserInfoView {
    match user {
        Some(u) => UserInfoView { name: u@.name, hue: (hue % 360) as u16, admin: u@.admin },
        None => UserInfoView { name, hue: (hue % 360) as u16, admin: false },
    }
}

/// What a fresh connection must be sent, in order: its identity, the
/// metadata, the whole log when there is one, then every present user
/// and every present cursor.
pub open spec fn initial_messages(s: StateView, id: u64, info: Option<UserInfo>) -> Seq<
    ServerMsgView,
> {
    seq![
        ServerMsgView::Identity {
            id,
            info: (match info {
                Some(u) => Some(u@),
                None => None,
            }),
        },
        ServerMsgView::Meta { language: s.language, visibility: s.visibility },
    ] + (if s.log.len() > 0 {
        seq![ServerMsgView::History { start: 0, operations: s.log }]
    } else {
        Seq::<ServerMsgView>::empty()
    }) + s.users.map(
        |i: int, u: (u64, UserInfoView)| ServerMsgView::UserInfo { id: u.0, user: u.1 },
    ) + s.cursors.map(
        |i: int, c: (u64, CursorDataView)| ServerMsgView::UserCursor { id: c.0, data: c.1 },
    )
}

/// The record stored when an authoritative user update arrives: the
/// update itself, with its hue wrapped onto the color wheel.
pub open spec fn stored_user(u: UserInfoView) -> UserInfoView {
    UserInfoView { hue: (u.hue % 360) as u16, ..u }
}

/// Presence entries after an authoritative update: every entry under the
/// updated name is replaced, the others stay.
pub open spec fn users_updated(
    entries: Seq<(u64, UserInfoView)>,
    nu: UserInfoView,
) -> Seq<(u64, UserInfoView)> {
    entries.map(
        |i: int, e: (u64, UserInfoView)| (if e.1.name == nu.name {
            (e.0, nu)
        } else {
            e
        }),
    )
}

/// What an authoritative update broadcasts: one presence message per
/// entry under the updated name, in stored order.
pub open spec fn update_msgs(entries: Seq<(u64, UserInfoView)>, nu: UserInfoView) -> Seq<
    ServerMsgView,
>
    decreases entries.len(),
{
    if entries.len() == 0 {
        Seq::empty()
    } else {
        (if entries.first().1.name == nu.name {
            seq![ServerMsgView::UserInfo { id: entries.first().0, user: nu }]
        } else {
            Seq::<ServerMsgView>::empty()
        }) + update_msgs(entries.drop_first(), nu)
    }
}

/// What a connection loop does next, once its wakeup is re-armed.
#[derive(Clone, Copy, Debug, PartialEq, Eq, Structural)]
pub enum ConnectionStep {
    /// Leave: the document is gone, or the caller may no longer see it.
    Exit,
    /// Catch the client up on the log before anything else.
    SendHistory,
    /// Nothing to do until a wakeup, a broadcast or a client message.
    Wait,
}

/// One decision of the connection loop.  A killed document, or one whose
/// visibility the caller's role no longer satisfies, ends the connection
/// at once; otherwise unseen log entries are sent before anything else.
pub fn connection_step(
    killed: bool,
    visibility: Visibility,
    role: Role,
    server_revision: usize,
    seen_revision: usize,
) -> (r: ConnectionStep)
    ensures
        r is Exit <==> (killed || !role.spec_can_access(visibility)),
        r is SendHistory <==> (!killed && role.spec_can_access(visibility) && server_revision
            > seen_revision),
        r is Wait <==> (!killed && role.spec_can_access(visibility) && server_revision
            <= seen_revision),
{
    if killed {
        ConnectionStep::Exit
    } else if !role.can_access(visibility) {
        ConnectionStep::Exit
    } else if server_revision > seen_revision {
        ConnectionStep::SendHistory
    } else {
        ConnectionStep::Wait
    }
}

/// Milliseconds between persister passes.
pub const PERSIST_INTERVAL_MS: u64 = 10000;

/// Largest extra jitter a persister pass may add, in milliseconds.
pub const PERSIST_INTERVAL_JITTER_MS: u64 = 6000;

/// How long the persister sleeps after a pass: the base interval plus
/// the jitter it drew, and one more base interval when no document had
/// a snapshot to write.
pub fn persist_sleep_ms(had_snapshots: bool, jitter_ms: u64) -> (r: u64)
    requires
        jitter_ms <= PERSIST_INTERVAL_JITTER_MS,
    ensures
        r == PERSIST_INTERVAL_MS + jitter_ms + (if had_snapshots {
            0
        } else {
            PERSIST_INTERVAL_MS as int
        }),
{
    let extra: u64 = if had_snapshots {
        0
    } else {
        PERSIST_INTERVAL_MS
    };
    PERSIST_INTERVAL_MS + jitter_ms + extra
}

/// Catch-ups partition the log: following one history slice by the next
/// delivers every operation in between exactly once, in order.
pub proof fn lemma_history_partition(log: Seq<UserOpView>, a: int, b: int, c: int)
    requires
        0 <= a <= b <= c <= log.len(),
    ensures
        log.subrange(a, b) + log.subrange(b, c) == log.subrange(a, c),
{
    assert(log.subrange(a, b) + log.subrange(b, c) =~= log.subrange(a, c));
}

/// What a handled client message asks the caller to do: fan these
/// messages out to every subscriber, and wake blocked connection loops
/// when `notify` is set.
#[derive(Debug)]
pub struct MessageEffects {
    pub broadcasts: Vec<ServerMsg>,
    pub notify: bool,
}

/// The model of a keyed vector: each value replaced by its model.
pub open spec fn entries_view<V: View>(entries: Seq<(u64, V)>) -> Seq<(u64, V::V)> {
    entries.map(|i: int, e: (u64, V)| (e.0, e.1@))
}

/// Taking models commutes with upserting.
proof fn lemma_upsert_view<V: View>(entries: Seq<(u64, V)>, k: u64, v: V)
    ensures
        entries_view(upsert(entries, k, v)) =~= upsert(entries_view(entries), k, v@),
    decreases entries.len(),
{
    if entries.len() == 0 {
    } else {
        let rest = entries.drop_first();
        assert(entries_view(entries).drop_first() =~= entries_view(rest));
        if entries.first().0 == k {
            assert(entries_view(entries).first().0 == k);
            assert(entries_view(upsert(entries, k, v)) =~= upsert(
                entries_view(entries),
                k,
                v@,
            ));
        } else {
            lemma_upsert_view(rest, k, v);
            assert(entries_view(upsert(entries, k, v)) =~= upsert(
                entries_view(entries),
                k,
                v@,
            ));
        }
    }
}

/// Taking models commutes with dropping a key.
proof fn lemma_without_key_view<V: View>(entries: Seq<(u64, V)>, k: u64)
    ensures
        entries_view(without_key(entries, k)) =~= without_key(entries_view(entries), k),
    decreases entries.len(),
{
    if entries.len() == 0 {
        assert(entries_view(Seq::<(u64, V)>::empty()) =~= Seq::<(u64, V::V)>::empty());
    } else {
        let rest = entries.drop_first();
        assert(entries_view(entries).drop_first() =~= entries_view(rest));
        lemma_without_key_view(rest, k);
        if entries.first().0 == k {
            assert(entries_view(without_key(entries, k)) =~= without_key(
                entries_view(entries),
                k,
            ));
        } else {
            assert(entries_view(without_key(entries, k)) =~= without_key(
                entries_view(entries),
                k,
            ));
        }
    }
}

/// Replace the value under `k`, or append it if `k` is new.
fn assoc_upsert<V>(entries: &mut Vec<(u64, V)>, k: u64, v: V)
    ensures
        final(entries)@ == upsert(old(entries)@, k, v),
{
    let mut i: usize = 0;
    while i < entries.len()
        invariant
            0 <= i <= entries.len(),
            entries@ == old(entries)@,
            forall|j: int| 0 <= j < i ==> (#[trigger] entries@[j]).0 != k,
        decreases entries.len() - i,
    {
        if entries[i].0 == k {
            proof {
                lemma_upsert_update(entries@, k, v, i as int);
            }
            entries.set(i, (k, v));
            return;
        }
        i = i + 1;
    }
    proof {
        lemma_upsert_push(entries@, k, v);
    }
    entries.push((k, v));
}

/// Drop the entry under `k`, if any.
fn assoc_remove<V>(entries: &mut Vec<(u64, V)>, k: u64)
    requires
        unique_keys(old(entries)@),
    ensures
        final(entries)@ == without_key(old(entries)@, k),
{
    let mut i: usize = 0;
    while i < entries.len()
        invariant
            0 <= i <= entries.len(),
            entries@ == old(entries)@,
            unique_keys(entries@),
            forall|j: int| 0 <= j < i ==> (#[trigger] entries@[j]).0 != k,
        decreases entries.len() - i,
    {
        if entries[i].0 == k {
            proof {
                lemma_without_key_remove(entries@, k, i as int);
            }
            entries.remove(i);
            return;
        }
        i = i + 1;
    }
    proof {
        lemma_without_key_absent(entries@, k);
    }
}

/// Mathematical model of a document's state.
#[verifier::ext_equal]
pub struct StateView {
    pub log: Seq<UserOpView>,
    pub text: Seq<char>,
    pub language: Seq<char>,
    pub visibility: Visibility,
    pub users: Seq<(u64, UserInfoView)>,
    pub cursors: Seq<(u64, CursorDataView)>,
    pub dirty: bool,
    pub count: u64,
    pub killed: bool,
}

impl StateView {
    /// Well-formedness: the log chains, replaying it yields the current
    /// text, presence entries are keyed uniquely, and hues are wrapped.
    pub open spec fn wf(self) -> bool {
        &&& chained(self.log)
        &&& self.text == doc_text(self.log)
        &&& unique_keys(self.users)
        &&& unique_keys(self.cursors)
        &&& forall|i: int|
            0 <= i < self.users.len() ==> (#[trigger] self.users[i]).1.hue < 360
    }

    /// The state a fresh document starts in.
    pub open spec fn is_initial(self) -> bool {
        &&& self.log == Seq::<UserOpView>::empty()
        &&& self.text == Seq::<char>::empty()
        &&& self.language == "markdown"@
        &&& self.visibility == Visibility::Public
        &&& self.users == Seq::<(u64, UserInfoView)>::empty()
        &&& self.cursors == Seq::<(u64, CursorDataView)>::empty()
        &&& !self.dirty
        &&& self.count == 0
        &&& !self.killed
    }
}

/// One collaborative document: operation log, text, metadata, presence.
///
/// Mutating methods take the whole object exclusively; the caller holds it
/// behind a lock and performs broadcasts after releasing it.
pub struct Rustpad {
    operations: Vec<UserOperation>,
    text: String,
    meta: DocumentMeta,
    users: Vec<(u64, UserInfo)>,
    cursors: Vec<(u64, CursorData)>,
    dirty: bool,
    count: u64,
    killed: bool,
}

impl View for Rustpad {
    type V = StateView;

    closed spec fn view(&self) -> StateView {
        StateView {
            log: self.operations@.map(|i: int, o: UserOperation| o@),
            text: self.text@,
            language: self.meta.language@,
            visibility: self.meta.visibility,
            users: entries_view(self.users@),
            cursors: entries_view(self.cursors@),
            dirty: self.dirty,
            count: self.count,
            killed: self.killed,
        }
    }
}

impl Rustpad {
    /// A fresh, empty document.
    pub fn new() -> (r: Self)
        ensures
            r@.wf(),
            r@.is_initial(),
    {
        let r = Rustpad {
            operations: Vec::new(),
            text: String::new(),
            meta: DocumentMeta {
                language: String::from_str("markdown"),
                visibility: Visibility::Public,
            },
            users: Vec::new(),
            cursors: Vec::new(),
            dirty: false,
            count: 0,
            killed: false,
        };
        proof {
            assert(r@.log =~= Seq::<UserOpView>::empty());
            assert(r@.users =~= Seq::<(u64, UserInfoView)>::empty());
            assert(r@.cursors =~= Seq::<(u64, CursorDataView)>::empty());
        }
        r
    }

    /// Construct a document from a persisted snapshot.  The text becomes a
    /// single sentinel log entry that inserts it, so that replaying the log
    /// from revision zero reproduces the snapshot.
    pub fn load(document: PersistedDocument) -> (r: Self)
        ensures
            r@.wf(),
            r@.log.len() == 1,
            r@.log[0].id == u64::MAX,
            r@.log[0].op == insertion_view(document.text@),
            r@.text == document.text@,
            r@.language == document.meta.language@,
            r@.visibility == document.meta.visibility,
            r@.users == Seq::<(u64, UserInfoView)>::empty(),
            r@.cursors == Seq::<(u64, CursorDataView)>::empty(),
            !r@.dirty,
            r@.count == 0,
            !r@.killed,
    {
        let operation = ot_insertion(document.text.as_str());
        let mut operations: Vec<UserOperation> = Vec::new();
        operations.push(UserOperation { id: u64::MAX, operation });
        let r = Rustpad {
            operations,
            text: document.text,
            meta: document.meta,
            users: Vec::new(),
            cursors: Vec::new(),
            dirty: false,
            count: 0,
            killed: false,
        };
        proof {
            let log = r@.log;
            assert(log.len() == 1);
            assert(log[0].op == insertion_view(document.text@));
            lemma_insertion(document.text@);
            assert(chained(log));
            assert(log.drop_last() =~= Seq::<UserOpView>::empty());
            assert(doc_text(log.drop_last()) == Seq::<char>::empty());
            assert(log.last() == log[0]);
            assert(doc_text(log) == apply_ops(insertion_view(document.text@), Seq::<char>::empty()));
            assert(doc_text(log) == document.text@);
            assert(r@.users =~= Seq::<(u64, UserInfoView)>::empty());
            assert(r@.cursors =~= Seq::<(u64, CursorDataView)>::empty());
        }
        r
    }

    /// The current metadata and text, for persistence or reads.
    pub fn snapshot(&self) -> (r: PersistedDocument)
        ensures
            r.text@ == self@.text,
            r.meta.language@ == self@.language,
            r.meta.visibility == self@.visibility,
    {
        PersistedDocument { meta: self.meta.clone(), text: self.text.clone() }
    }

    /// The snapshot if the document changed since the last call, clearing
    /// the dirty flag in the same step so no change is lost in between.
    pub fn dirty_snapshot(&mut self) -> (r: Option<PersistedDocument>)
        ensures
            r is Some <==> old(self)@.dirty,
            final(self)@ == (StateView { dirty: false, ..old(self)@ }),
            r matches Some(d) ==> (d.text@ == old(self)@.text
                && d.meta.language@ == old(self)@.language
                && d.meta.visibility == old(self)@.visibility),
    {
        if self.dirty {
            self.dirty = false;
            Some(PersistedDocument { meta: self.meta.clone(), text: self.text.clone() })
        } else {
            None
        }
    }

    /// The current revision: the length of the operation log.
    pub fn revision(&self) -> (r: usize)
        ensures
            r == self@.log.len(),
    {
        self.operations.len()
    }

    /// Who may open this document right now.
    pub fn visibility(&self) -> (r: Visibility)
        ensures
            r == self@.visibility,
    {
        self.meta.visibility
    }

    /// Whether any visibility restriction is in force.
    pub fn is_limited(&self) -> (r: bool)
        ensures
            r == (self@.visibility != Visibility::Public),
    {
        !matches!(self.meta.visibility, Visibility::Public)
    }

    /// Mark the document terminal; every connection loop that observes
    /// this exits.
    pub fn kill(&mut self)
        ensures
            final(self)@ == (StateView { killed: true, ..old(self)@ }),
    {
        self.killed = true;
    }

    /// Whether the document has been marked terminal.
    pub fn killed(&self) -> (r: bool)
        ensures
            r == self@.killed,
    {
        self.killed
    }

    /// Admit one edit: rebase it over every log entry after the revision
    /// the client had seen, bound its size, rewrite the text, move every
    /// cursor through it, and append it to the log.  On refusal the state
    /// is unchanged.
    pub fn apply_edit(&mut self, id: u64, revision: usize, operation: OperationSeq) -> (r:
        Result<(), EngineError>)
        requires
            old(self)@.wf(),
        ensures
            final(self)@.wf(),
            r is Ok <==> edit_ok(old(self)@.log, revision as int, ot_view(operation)),
            r matches Err(e) ==> (Err::<(), EngineError>(e) == edit_outcome(
                old(self)@.log,
                revision as int,
                ot_view(operation),
            ) && final(self)@ == old(self)@),
            r is Ok ==> final(self)@ == edit_applied(
                old(self)@,
                id,
                revision as int,
                ot_view(operation),
            ),
    {
        let ghost orig: Seq<SpecEditOp> = ot_view(operation);
        let ghost log = self@.log;
        let len = self.operations.len();
        if revision > len {
            return Err(EngineError::RevisionTooNew);
        }
        let mut op = operation;
        let mut i: usize = revision;
        while i < len
            invariant
                self@ == old(self)@,
                self@.wf(),
                log == self@.log,
                len == log.len(),
                orig == ot_view(operation),
                revision <= i <= len,
                i == revision ==> ot_view(op) == orig,
                transform_through(ot_view(op), log, i as int) == transform_through(
                    orig,
                    log,
                    revision as int,
                ),
                i > revision ==> base_len_of(ot_view(op)) == len_at(log, i as int),
                i > revision ==> base_len_of(orig) == len_at(log, revision as int),
            decreases len - i,
        {
            proof {
                assert(base_len_of(log[i as int].op) == len_at(log, i as int));
            }
            match ot_transform(&op, &self.operations[i].operation) {
                Ok(pair) => {
                    proof {
                        if i == revision {
                            assert(base_len_of(ot_view(op)) == len_at(log, revision as int));
                        }
                    }
                    op = pair.0;
                }
                Err(_) => {
                    proof {
                        assert(i == revision);
                        assert(base_len_of(orig) != len_at(log, revision as int));
                    }
                    return Err(EngineError::LengthMismatch);
                }
            }
            i = i + 1;
        }
        let ghost rebased = transform_through(orig, log, revision as int);
        proof {
            assert(transform_through(ot_view(op), log, len as int) == ot_view(op));
            assert(ot_view(op) == rebased);
        }
        if ot_target_len(&op) > MAX_TARGET_LEN {
            return Err(EngineError::TargetTooLarge);
        }
        proof {
            lemma_doc_text_len(log);
            if revision < len {
                assert(base_len_of(ot_view(op)) == len_at(log, len as int));
            }
        }
        let new_text = match ot_apply(&op, self.text.as_str()) {
            Ok(t) => t,
            Err(_) => {
                proof {
                    assert(revision == len);
                    assert(base_len_of(orig) != len_at(log, revision as int));
                }
                return Err(EngineError::LengthMismatch);
            }
        };
        let elems = ot_elements(&op);
        let ghost old_cursors = self@.cursors;
        let mut new_cursors: Vec<(u64, CursorData)> = Vec::new();
        let mut ci: usize = 0;
        while ci < self.cursors.len()
            invariant
                self@ == old(self)@,
                old_cursors == self@.cursors,
                view_ops(elems@) == rebased,
                0 <= ci <= self.cursors.len(),
                old_cursors.len() == self.cursors.len(),
                new_cursors@.len() == ci,
                forall|j: int|
                    0 <= j < ci ==> ((#[trigger] new_cursors@[j]).0 == old_cursors[j].0
                        && new_cursors@[j].1@ == cursors_through(rebased, old_cursors[j].1)),
            decreases self.cursors.len() - ci,
        {
            let entry = &self.cursors[ci];
            let key = entry.0;
            let mut moved: Vec<u32> = Vec::new();
            let mut pj: usize = 0;
            while pj < entry.1.cursors.len()
                invariant
                    view_ops(elems@) == rebased,
                    0 <= pj <= entry.1.cursors.len(),
                    moved@ =~= entry.1.cursors@.take(pj as int).map(
                        |i: int, p: u32| xform_u32(rebased, p),
                    ),
                decreases entry.1.cursors.len() - pj,
            {
                let p = entry.1.cursors[pj];
                moved.push(transform_index(&elems, p));
                pj = pj + 1;
                proof {
                    assert(entry.1.cursors@.take(pj as int) =~= entry.1.cursors@.take(
                        pj - 1,
                    ).push(p));
                    assert(moved@ =~= entry.1.cursors@.take(pj as int).map(
                        |i: int, q: u32| xform_u32(rebased, q),
                    ));
                }
            }
            let mut moved_sel: Vec<(u32, u32)> = Vec::new();
            let mut sj: usize = 0;
            while sj < entry.1.selections.len()
                invariant
                    view_ops(elems@) == rebased,
                    0 <= sj <= entry.1.selections.len(),
                    moved_sel@ =~= entry.1.selections@.take(sj as int).map(
                        |i: int, p: (u32, u32)| (xform_u32(rebased, p.0), xform_u32(rebased, p.1)),
                    ),
                decreases entry.1.selections.len() - sj,
            {
                let p = entry.1.selections[sj];
                let a = transform_index(&elems, p.0);
                let b = transform_index(&elems, p.1);
                moved_sel.push((a, b));
                sj = sj + 1;
                proof {
                    assert(entry.1.selections@.take(sj as int) =~= entry.1.selections@.take(
                        sj - 1,
                    ).push(p));
                    assert(moved_sel@ =~= entry.1.selections@.take(sj as int).map(
                        |i: int, q: (u32, u32)| (xform_u32(rebased, q.0), xform_u32(rebased, q.1)),
                    ));
                }
            }
            proof {
                assert(entry.1.cursors@.take(entry.1.cursors@.len() as int) =~= entry.1.cursors@);
                assert(entry.1.selections@.take(entry.1.selections@.len() as int)
                    =~= entry.1.selections@);
            }
            let data = CursorData { cursors: moved, selections: moved_sel };
            proof {
                assert(data@ =~= cursors_through(rebased, old_cursors[ci as int].1));
            }
            new_cursors.push((key, data));
            ci = ci + 1;
        }
        self.operations.push(UserOperation { id, operation: op });
        self.text = new_text;
        self.cursors = new_cursors;
        self.dirty = true;
        proof {
            let new = self@;
            let expected = edit_applied(old(self)@, id, revision as int, orig);
            assert(new.log =~= log.push(UserOpView { id, op: rebased }));
            assert forall|j: int| 0 <= j < new.log.len() implies base_len_of(
                #[trigger] new.log[j].op,
            ) == len_at(new.log, j) by {
                if j < log.len() {
                    assert(base_len_of(log[j].op) == len_at(log, j));
                    assert(new.log[j] == log[j]);
                    if j > 0 {
                        assert(new.log[j - 1] == log[j - 1]);
                    }
                } else {
                    assert(new.log[j].op == rebased);
                    assert(base_len_of(rebased) == len_at(log, len as int));
                }
            }
            assert(chained(new.log));
            assert(new.log.drop_last() =~= log);
            assert(new.text == apply_ops(rebased, doc_text(log)));
            assert(new.text == doc_text(new.log));
            assert(new.cursors =~~= expected.cursors);
            assert(unique_keys(new.cursors)) by {
                assert forall|a: int, b: int| 0 <= a < b < new.cursors.len() implies (
                    #[trigger] new.cursors[a]).0 != (#[trigger] new.cursors[b]).0 by {
                    assert(old_cursors[a].0 != old_cursors[b].0);
                    assert(new.cursors[a].0 == old_cursors[a].0);
                    assert(new.cursors[b].0 == old_cursors[b].0);
                }
            }
            assert(new =~~= expected);
        }
        Ok(())
    }

    /// Handle one client message.  Edits go through `apply_edit`; metadata,
    /// presence and cursor updates always succeed and report what must be
    /// broadcast.  An authenticated connection's name and admin flag always
    /// override whatever the client submitted, and hues are wrapped onto
    /// the color wheel.
    pub fn handle_message(&mut self, id: u64, msg: ClientMsg, user: &Option<UserInfo>) -> (r:
        Result<MessageEffects, EngineError>)
        requires
            old(self)@.wf(),
        ensures
            final(self)@.wf(),
            msg@ matches ClientMsgView::Edit { revision, operation } ==> ((r is Ok
                <==> edit_ok(old(self)@.log, revision, operation)) && (r matches Ok(e) ==> (
            final(self)@ == edit_applied(old(self)@, id, revision, operation) && e.broadcasts@
                =~= Seq::<ServerMsg>::empty() && e.notify)) && (r matches Err(err) ==> (Err::<
                (),
                EngineError,
            >(err) == edit_outcome(old(self)@.log, revision, operation) && final(self)@ == old(
                self,
            )@))),
            msg@ matches ClientMsgView::SetMeta { language, visibility } ==> (r matches Ok(e)
                && (final(self)@ == (StateView {
                language: (match language {
                    Some(l) => l,
                    None => old(self)@.language,
                }),
                visibility: (match visibility {
                    Some(v) => v,
                    None => old(self)@.visibility,
                }),
                dirty: true,
                ..old(self)@
            }) && e.broadcasts@.len() == 1 && e.broadcasts@[0]@ == (ServerMsgView::Meta {
                language: final(self)@.language,
                visibility: final(self)@.visibility,
            }) && e.notify == (visibility matches Some(v) && v.spec_stricter_than(
                old(self)@.visibility,
            )))),
            msg@ matches ClientMsgView::ClientInfo { name, hue } ==> (r matches Ok(e) && (
            final(self)@ == (StateView {
                users: upsert(old(self)@.users, id, resolved_info(name, hue, *user)),
                ..old(self)@
            }) && e.broadcasts@.len() == 1 && e.broadcasts@[0]@ == (ServerMsgView::UserInfo {
                id,
                user: resolved_info(name, hue, *user),
            }) && !e.notify)),
            msg@ matches ClientMsgView::CursorData(data) ==> (r matches Ok(e) && (final(self)@
                == (StateView { cursors: upsert(old(self)@.cursors, id, data), ..old(self)@ })
                && e.broadcasts@.len() == 1 && e.broadcasts@[0]@ == (ServerMsgView::UserCursor {
                id,
                data,
            }) && !e.notify)),
    {
        match msg {
            ClientMsg::Edit { revision, operation } => {
                match self.apply_edit(id, revision, operation) {
                    Ok(()) => Ok(MessageEffects { broadcasts: Vec::new(), notify: true }),
                    Err(e) => Err(e),
                }
            }
            ClientMsg::SetMeta { language, visibility } => {
                if let Some(l) = language {
                    self.meta.language = l;
                }
                let mut notify = false;
                if let Some(v) = visibility {
                    if v.stricter_than(self.meta.visibility) {
                        notify = true;
                    }
                    self.meta.visibility = v;
                }
                self.dirty = true;
                let mut broadcasts: Vec<ServerMsg> = Vec::new();
                broadcasts.push(
                    ServerMsg::Meta {
                        language: self.meta.language.clone(),
                        visibility: self.meta.visibility,
                    },
                );
                Ok(MessageEffects { broadcasts, notify })
            }
            ClientMsg::ClientInfo { name, hue } => {
                let wrapped = hue % 360;
                let resolved = match user {
                    Some(u) => UserInfo {
                        name: u.name.clone(),
                        hue: wrapped,
                        admin: u.admin,
                    },
                    None => UserInfo { name, hue: wrapped, admin: false },
                };
                let ghost nu = resolved@;
                let announce = resolved.clone();
                proof {
                    lemma_upsert_view(self.users@, id, resolved);
                }
                assoc_upsert(&mut self.users, id, resolved);
                proof {
                    lemma_upsert_props(old(self)@.users, id, nu);
                    assert(self@ =~~= (StateView {
                        users: upsert(old(self)@.users, id, nu),
                        ..old(self)@
                    }));
                    assert forall|i: int| 0 <= i < self@.users.len() implies (
                    #[trigger] self@.users[i]).1.hue < 360 by {
                        if self@.users[i] == (id, nu) {
                        } else {
                            assert(old(self)@.users.contains(self@.users[i]));
                        }
                    }
                }
                let mut broadcasts: Vec<ServerMsg> = Vec::new();
                broadcasts.push(ServerMsg::UserInfo { id, user: announce });
                Ok(MessageEffects { broadcasts, notify: false })
            }
            ClientMsg::CursorData(data) => {
                let ghost dv = data@;
                let announce = data.clone();
                proof {
                    lemma_upsert_view(self.cursors@, id, data);
                }
                assoc_upsert(&mut self.cursors, id, data);
                proof {
                    lemma_upsert_props(old(self)@.cursors, id, dv);
                    assert(self@ =~~= (StateView {
                        cursors: upsert(old(self)@.cursors, id, dv),
                        ..old(self)@
                    }));
                }
                let mut broadcasts: Vec<ServerMsg> = Vec::new();
                broadcasts.push(ServerMsg::UserCursor { id, data: announce });
                Ok(MessageEffects { broadcasts, notify: false })
            }
        }
    }

    /// Remove a departing connection's presence and cursor, and say so.
    pub fn close_connection(&mut self, id: u64) -> (msg: ServerMsg)
        requires
            old(self)@.wf(),
        ensures
            final(self)@.wf(),
            final(self)@ == (StateView {
                users: without_key(old(self)@.users, id),
                cursors: without_key(old(self)@.cursors, id),
                ..old(self)@
            }),
            msg@ == (ServerMsgView::UserDisconnect { id }),
    {
        proof {
            lemma_without_key_view(self.users@, id);
            lemma_without_key_view(self.cursors@, id);
            assert(unique_keys(self.users@)) by {
                assert forall|a: int, b: int| 0 <= a < b < self.users@.len() implies (
                    #[trigger] self.users@[a]).0 != (#[trigger] self.users@[b]).0 by {
                    assert(entries_view(self.users@)[a].0 == self.users@[a].0);
                    assert(entries_view(self.users@)[b].0 == self.users@[b].0);
                }
            }
            assert(unique_keys(self.cursors@)) by {
                assert forall|a: int, b: int| 0 <= a < b < self.cursors@.len() implies (
                    #[trigger] self.cursors@[a]).0 != (#[trigger] self.cursors@[b]).0 by {
                    assert(entries_view(self.cursors@)[a].0 == self.cursors@[a].0);
                    assert(entries_view(self.cursors@)[b].0 == self.cursors@[b].0);
                }
            }
        }
        assoc_remove(&mut self.users, id);
        assoc_remove(&mut self.cursors, id);
        proof {
            lemma_without_key_props(old(self)@.users, id);
            lemma_without_key_props(old(self)@.cursors, id);
            assert forall|i: int| 0 <= i < self@.users.len() implies (
            #[trigger] self@.users[i]).1.hue < 360 by {
                assert(old(self)@.users.contains(self@.users[i]));
            }
            assert(self@ =~~= (StateView {
                users: without_key(old(self)@.users, id),
                cursors: without_key(old(self)@.cursors, id),
                ..old(self)@
            }));
        }
        ServerMsg::UserDisconnect { id }
    }

    /// Admit a new connection: assign it the next id and collect the
    /// messages it must replay first, in order — its identity, the
    /// metadata, the whole log if any, then every present user and cursor.
    /// Streaming continues from the returned revision.
    pub fn init_connection(&mut self, user: Option<UserInfo>) -> (r: (u64, usize, Vec<ServerMsg>))
        requires
            old(self)@.wf(),
            old(self)@.count < u64::MAX,
        ensures
            final(self)@.wf(),
            final(self)@ == (StateView { count: (old(self)@.count + 1) as u64, ..old(self)@ }),
            r.0 == old(self)@.count,
            r.1 == old(self)@.log.len(),
            r.2@.map(|i: int, m: ServerMsg| m@) =~= initial_messages(
                old(self)@,
                old(self)@.count,
                user,
            ),
    {
        let id = self.count;
        self.count = self.count + 1;
        let ghost s = old(self)@;
        let mut messages: Vec<ServerMsg> = Vec::new();
        messages.push(ServerMsg::Identity { id, info: user });
        messages.push(
            ServerMsg::Meta {
                language: self.meta.language.clone(),
                visibility: self.meta.visibility,
            },
        );
        if self.operations.len() > 0 {
            let mut ops: Vec<UserOperation> = Vec::new();
            let mut i: usize = 0;
            while i < self.operations.len()
                invariant
                    0 <= i <= self.operations.len(),
                    self@ == (StateView { count: (s.count + 1) as u64, ..s }),
                    ops@.len() == i,
                    forall|j: int| 0 <= j < i ==> (#[trigger] ops@[j])@ == s.log[j],
                decreases self.operations.len() - i,
            {
                ops.push(self.operations[i].clone());
                i = i + 1;
            }
            proof {
                assert(ops@.map(|j: int, o: UserOperation| o@) =~= s.log);
            }
            messages.push(ServerMsg::History { start: 0, operations: ops });
        }
        let ghost head = messages@.map(|i: int, m: ServerMsg| m@);
        let mut ui: usize = 0;
        while ui < self.users.len()
            invariant
                0 <= ui <= self.users.len(),
                self@ == (StateView { count: (s.count + 1) as u64, ..s }),
                head.len() <= messages@.len(),
                messages@.map(|i: int, m: ServerMsg| m@) =~= head + s.users.take(ui as int).map(
                    |i: int, u: (u64, UserInfoView)| ServerMsgView::UserInfo {
                        id: u.0,
                        user: u.1,
                    },
                ),
            decreases self.users.len() - ui,
        {
            let ghost prev = messages@;
            let entry = &self.users[ui];
            messages.push(ServerMsg::UserInfo { id: entry.0, user: entry.1.clone() });
            ui = ui + 1;
            proof {
                let f = |i: int, m: ServerMsg| m@;
                let g = |i: int, u: (u64, UserInfoView)| ServerMsgView::UserInfo {
                    id: u.0,
                    user: u.1,
                };
                let mv = ServerMsgView::UserInfo {
                    id: s.users[ui - 1].0,
                    user: s.users[ui - 1].1,
                };
                assert(messages@.map(f) =~= prev.map(f).push(mv));
                assert(head + s.users.take(ui as int).map(g) =~= (head + s.users.take(
                    ui - 1,
                ).map(g)).push(mv));
            }
        }
        let ghost head2 = messages@.map(|i: int, m: ServerMsg| m@);
        let mut ci: usize = 0;
        while ci < self.cursors.len()
            invariant
                0 <= ci <= self.cursors.len(),
                self@ == (StateView { count: (s.count + 1) as u64, ..s }),
                messages@.map(|i: int, m: ServerMsg| m@) =~= head2 + s.cursors.take(
                    ci as int,
                ).map(
                    |i: int, c: (u64, CursorDataView)| ServerMsgView::UserCursor {
                        id: c.0,
                        data: c.1,
                    },
                ),
            decreases self.cursors.len() - ci,
        {
            let ghost prev = messages@;
            let entry = &self.cursors[ci];
            messages.push(ServerMsg::UserCursor { id: entry.0, data: entry.1.clone() });
            ci = ci + 1;
            proof {
                let f = |i: int, m: ServerMsg| m@;
                let g = |i: int, c: (u64, CursorDataView)| ServerMsgView::UserCursor {
                    id: c.0,
                    data: c.1,
                };
                let mv = ServerMsgView::UserCursor {
                    id: s.cursors[ci - 1].0,
                    data: s.cursors[ci - 1].1,
                };
                assert(messages@.map(f) =~= prev.map(f).push(mv));
                assert(head2 + s.cursors.take(ci as int).map(g) =~= (head2 + s.cursors.take(
                    ci - 1,
                ).map(g)).push(mv));
            }
        }
        let revision = self.operations.len();
        proof {
            assert(s.users.take(s.users.len() as int) =~= s.users);
            assert(s.cursors.take(s.cursors.len() as int) =~= s.cursors);
            assert(messages@.map(|i: int, m: ServerMsg| m@) =~= initial_messages(s, id, user));
        }
        (id, revision, messages)
    }

    /// How many connection ids have been handed out.
    pub fn connection_count(&self) -> (r: u64)
        ensures
            r == self@.count,
    {
        self.count
    }

    /// The slice of the log from `start` on, as one message, and the
    /// revision streaming continues from.  A start past the end yields an
    /// empty slice.
    pub fn send_history(&self, start: usize) -> (r: (usize, ServerMsg))
        ensures
            r.0 == (if (start as int) < self@.log.len() {
                self@.log.len() as int
            } else {
                start as int
            }),
            r.1@ == (ServerMsgView::History {
                start: start as int,
                operations: (if start as int <= self@.log.len() {
                    self@.log.skip(start as int)
                } else {
                    Seq::<UserOpView>::empty()
                }),
            }),
    {
        let len = self.operations.len();
        let from = if start < len {
            start
        } else {
            len
        };
        let mut ops: Vec<UserOperation> = Vec::new();
        let mut i: usize = from;
        while i < len
            invariant
                from <= i <= len,
                len == self@.log.len(),
                ops@.len() == i - from,
                forall|j: int| 0 <= j < i - from ==> (#[trigger] ops@[j])@ == self@.log[from + j],
            decreases len - i,
        {
            ops.push(self.operations[i].clone());
            i = i + 1;
        }
        proof {
            assert(ops@.map(|j: int, o: UserOperation| o@) =~= self@.log.subrange(
                from as int,
                len as int,
            ));
        }
        let new_revision = if start < len {
            len
        } else {
            start
        };
        proof {
            if start as int <= self@.log.len() {
                assert(self@.log.subrange(from as int, len as int) =~= self@.log.skip(
                    start as int,
                ));
            } else {
                assert(self@.log.subrange(from as int, len as int) =~= Seq::<
                    UserOpView,
                >::empty());
            }
        }
        (new_revision, ServerMsg::History { start, operations: ops })
    }

    /// Apply an authoritative user-record update to every present
    /// connection under that name, and say what to broadcast for each.
    pub fn update_user(&mut self, user: &UserInfo) -> (msgs: Vec<ServerMsg>)
        requires
            old(self)@.wf(),
        ensures
            final(self)@.wf(),
            final(self)@ == (StateView {
                users: users_updated(old(self)@.users, stored_user(user@)),
                ..old(self)@
            }),
            msgs@.map(|i: int, m: ServerMsg| m@) =~= update_msgs(
                old(self)@.users,
                stored_user(user@),
            ),
    {
        let ghost orig = self.users@;
        let ghost nu = stored_user(user@);
        let wrapped = user.hue % 360;
        let mut msgs: Vec<ServerMsg> = Vec::new();
        let mut i: usize = 0;
        proof {
            assert(entries_view(orig).skip(0) =~= entries_view(orig));
            assert(msgs@.map(|k: int, m: ServerMsg| m@) =~= Seq::<ServerMsgView>::empty());
        }
        while i < self.users.len()
            invariant
                0 <= i <= self.users.len(),
                self.users@.len() == orig.len(),
                nu == stored_user(user@),
                wrapped == user@.hue % 360,
                self@ == (StateView { users: entries_view(self.users@), ..old(self)@ }),
                old(self)@.users == entries_view(orig),
                forall|j: int| i <= j < orig.len() ==> self.users@[j] == orig[j],
                forall|j: int|
                    0 <= j < i ==> ((#[trigger] self.users@[j]).0 == orig[j].0
                        && self.users@[j].1@ == (if orig[j].1@.name == nu.name {
                        nu
                    } else {
                        orig[j].1@
                    })),
                update_msgs(entries_view(orig), nu) =~= msgs@.map(|k: int, m: ServerMsg| m@)
                    + update_msgs(entries_view(orig).skip(i as int), nu),
            decreases self.users.len() - i,
        {
            let ghost tail = entries_view(orig).skip(i as int);
            proof {
                assert(tail.first() == entries_view(orig)[i as int]);
                assert(tail.drop_first() =~= entries_view(orig).skip(i as int + 1));
            }
            if self.users[i].1.name == user.name {
                let k = self.users[i].0;
                let updated = UserInfo { name: user.name.clone(), hue: wrapped, admin: user.admin };
                let announce = updated.clone();
                proof {
                    assert(updated@ == nu);
                }
                let ghost prev = msgs@;
                self.users.set(i, (k, updated));
                msgs.push(ServerMsg::UserInfo { id: k, user: announce });
                i = i + 1;
                proof {
                    let f = |k2: int, m: ServerMsg| m@;
                    let mv = ServerMsgView::UserInfo { id: k, user: nu };
                    assert(msgs@.map(f) =~= prev.map(f).push(mv));
                    assert(update_msgs(tail, nu) == seq![mv] + update_msgs(
                        tail.drop_first(),
                        nu,
                    ));
                    assert(prev.map(f) + update_msgs(tail, nu) =~= msgs@.map(f)
                        + update_msgs(tail.drop_first(), nu));
                    assert(update_msgs(entries_view(orig), nu) =~= msgs@.map(f) + update_msgs(
                        entries_view(orig).skip(i as int),
                        nu,
                    ));
                }
            } else {
                i = i + 1;
                proof {
                    let f = |k2: int, m: ServerMsg| m@;
                    assert(update_msgs(tail, nu) == update_msgs(tail.drop_first(), nu));
                    assert(update_msgs(entries_view(orig), nu) =~= msgs@.map(f) + update_msgs(
                        entries_view(orig).skip(i as int),
                        nu,
                    ));
                }
            }
        }
        proof {
            assert(entries_view(orig).skip(orig.len() as int) =~= Seq::<
                (u64, UserInfoView),
            >::empty());
            assert(msgs@.map(|k: int, m: ServerMsg| m@) =~= update_msgs(
                entries_view(orig),
                nu,
            ));
            assert(self@.users =~= users_updated(entries_view(orig), nu));
            assert(self@ =~~= (StateView {
                users: users_updated(old(self)@.users, nu),
                ..old(self)@
            }));
            assert forall|j: int| 0 <= j < self@.users.len() implies (
            #[trigger] self@.users[j]).1.hue < 360 by {
                assert(old(self)@.users[j].1.hue < 360);
            }
            assert forall|a: int, b: int| 0 <= a < b < self@.users.len() implies (
            #[trigger] self@.users[a]).0 != (#[trigger] self@.users[b]).0 by {
                assert(old(self)@.users[a].0 != old(self)@.users[b].0);
            }
        }
        msgs
    }

    /// Every log entry merged into one operation.  The composed log
    /// applies to the empty text and reproduces the current text: replay
    /// and catch-up deliver exactly the document every client sees.
    #[verifier::spinoff_prover]
    #[verifier::rlimit(100)]
    pub fn composed_operation(&self) -> (r: OperationSeq)
        requires
            self@.wf(),
        ensures
            base_len_of(crate::ot::ot_view(r)) == 0,
            target_len_of(crate::ot::ot_view(r)) == self@.text.len(),
            apply_ops(crate::ot::ot_view(r), Seq::<char>::empty()) == self@.text,
    {
        let ghost log = self@.log;
        let mut acc = ot_insertion("");
        proof {
            reveal_strlit("");
            lemma_insertion(""@);
            assert(log.take(0) =~= Seq::<UserOpView>::empty());
        }
        let mut i: usize = 0;
        while i < self.operations.len()
            invariant
                0 <= i <= self.operations.len(),
                self@.wf(),
                log == self@.log,
                self.operations.len() == log.len(),
                base_len_of(ot_view(acc)) == 0,
                target_len_of(ot_view(acc)) == len_at(log, i as int),
                apply_ops(ot_view(acc), Seq::<char>::empty()) == doc_text(log.take(i as int)),
            decreases self.operations.len() - i,
        {
            proof {
                assert(base_len_of(log[i as int].op) == len_at(log, i as int));
            }
            let merged = match crate::ot::ot_compose(&acc, &self.operations[i].operation) {
                Ok(c) => c,
                Err(_) => {
                    proof {
                        assert(false);
                    }
                    acc
                }
            };
            proof {
                assert(log.take(i + 1).drop_last() =~= log.take(i as int));
                assert(log.take(i + 1).last() == log[i as int]);
                assert(doc_text(log.take(i + 1)) == apply_ops(
                    log[i as int].op,
                    doc_text(log.take(i as int)),
                ));
            }
            acc = merged;
            i = i + 1;
        }
        proof {
            assert(log.take(log.len() as int) =~= log);
            lemma_doc_text_len(log);
        }
        acc
    }

    /// Kill the document only if nobody is present and nothing is left to
    /// persist; reports whether it did.
    pub fn kill_if_idle(&mut self) -> (r: bool)
        ensures
            r == (old(self)@.users.len() == 0 && !old(self)@.dirty),
            r ==> final(self)@ == (StateView { killed: true, ..old(self)@ }),
            !r ==> final(self)@ == old(self)@,
    {
        if self.users.len() == 0 && !self.dirty {
            self.killed = true;
            true
        } else {
            false
        }
    }
}

} // verus!
