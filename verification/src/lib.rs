//! Harmony: a verified media-archive core.
//!
//! The crate covers the archive ingestion pipeline of a small media
//! archiver: URL canonicalization of submitted candidates, the track
//! store (a transactional catalog of tracks, artists and their links),
//! the session-token cache guarding privileged operations, and the
//! decision logic of the single ingestion worker.

pub mod archiver;
pub mod auth;
pub mod candidate;
pub mod database;
pub mod metadata;
pub mod strutil;
pub mod token;
pub mod track;
