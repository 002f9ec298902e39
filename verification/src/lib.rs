//! Server-side core of a collaborative text editor.
//!
//! Documents are edited concurrently by many clients; edits are reconciled
//! with operational transformation and fanned out as a totally ordered
//! operation log.

pub mod auth;
pub mod database;
pub mod ot;
pub mod rustpad;
pub mod util;
