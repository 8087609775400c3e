//! Caching and background-refresh core of a desktop application launcher.
//!
//! Discovery of installed applications is slow, so the launcher serves every
//! request from a persisted cache file and revalidates that cache in the
//! background.  This crate holds the verified core of that subsystem: the
//! data model, the canonical byte encoding of the cache file, the decision
//! logic of the cache manager (fast path, cold start, revalidation), and the
//! pure parts of discovery (path filtering and name cleanup).  All I/O — the
//! cache file itself, the enumeration commands, the notification channel —
//! stays with the surrounding application, which feeds plain values in and
//! carries the decided actions out.

pub mod cache;
pub mod codec;
pub mod discovery;
pub mod model;
