//! Data that outlives a process: snapshots of documents and user records.
//!
//! The storage backend itself performs file input and output and lives
//! outside this crate; these are the values it reads and writes.

use vstd::prelude::*;
use crate::rustpad::{DocumentMeta, Visibility};
use crate::util::{copy_vec, Identifier};

verus! {

/// A document as it is persisted: its text and its metadata.
#[derive(Debug, PartialEq, Eq)]
pub struct PersistedDocument {
    /// Metadata of the document.
    pub meta: DocumentMeta,
    /// Text content of the document.
    pub text: String,
}

impl Clone for PersistedDocument {
    fn clone(&self) -> (r: Self)
        ensures
            r.meta.language@ == self.meta.language@,
            r.meta.visibility == self.meta.visibility,
            r.text@ == self.text@,
    {
        PersistedDocument { meta: self.meta.clone(), text: self.text.clone() }
    }
}

impl Default for PersistedDocument {
    /// An empty markdown document that anybody may open.
    fn default() -> (r: Self)
        ensures
            r.text@ == Seq::<char>::empty(),
            r.meta.language@ == "markdown"@,
            r.meta.visibility == Visibility::Public,
    {
        PersistedDocument {
            meta: DocumentMeta {
                language: String::from_str("markdown"),
                visibility: Visibility::Public,
            },
            text: String::new(),
        }
    }
}

impl PersistedDocument {
    /// A persisted document with the given text and metadata.
    pub fn new(text: String, language: String, visibility: Visibility) -> (r: Self)
        ensures
            r.text@ == text@,
            r.meta.language@ == language@,
            r.meta.visibility == visibility,
    {
        PersistedDocument { meta: DocumentMeta { language, visibility }, text }
    }
}

/// A document a user touched, and when.
#[derive(Debug, Clone, Copy, PartialEq, Eq)]
pub struct RecentDocument {
    /// Unique identifier of the document.
    pub id: Identifier,
    /// Seconds since the epoch of the last access.
    pub last_accessed: u64,
}

/// A user's saved editor preferences and document lists.
#[derive(Debug, PartialEq, Eq)]
pub struct PersistedUser {
    /// Hue of the user's editor cursor.
    pub hue: u16,
    /// Documents the user pinned.
    pub pinned_documents: Vec<RecentDocument>,
    /// Documents the user recently opened.
    pub recent_documents: Vec<RecentDocument>,
}

impl Clone for PersistedUser {
    fn clone(&self) -> (r: Self)
        ensures
            r.hue == self.hue,
            r.pinned_documents@ == self.pinned_documents@,
            r.recent_documents@ == self.recent_documents@,
    {
        PersistedUser {
            hue: self.hue,
            pinned_documents: copy_vec(&self.pinned_documents),
            recent_documents: copy_vec(&self.recent_documents),
        }
    }
}

} // verus!

