//! Decision logic of the cache manager.
//!
//! The cache manager sits between a slow discovery provider and a
//! latency-sensitive caller.  Its `get` path serves the persisted cache
//! immediately when one exists (scheduling a background revalidation), falls
//! back to a synchronous discovery when none does, and surfaces a corrupt
//! cache as a hard error rather than silently re-discovering.
//!
//! All file reads and writes, the discovery commands, the background worker
//! and the notification channel belong to the surrounding application.  It
//! hands the functions here the current cache-file bytes (`None` when the
//! file is missing or unreadable) and the discovery outcome, and carries out
//! the returned action: write these bytes, notify once, or do nothing.  The
//! cache file is shared by concurrent revalidations without a lock; that is
//! sound because every write decided here is an idempotent whole-file
//! replacement of canonical bytes, and a lost comparison only delays a
//! refresh until the next access cycle.

use vstd::prelude::*;

use crate::codec::parse_apps;
use crate::codec::serialize_apps;
use crate::codec::spec_parse;
use crate::codec::spec_serialize;
use crate::codec::lemma_parse_of_serialize;
use crate::codec::lemma_serialize_of_parse;
use crate::model::AppEntry;
use crate::model::AppEntryModel;
use crate::model::CacheError;
use crate::model::DiscoveryError;
use crate::model::lists_equal;
use crate::model::models;

verus! {

/// What the synchronous `get` path decides after looking at the cache file.
pub enum GetOutcome {
    /// A valid cache file exists: return these entries immediately and
    /// schedule one background revalidation.  No other side effect may
    /// happen before the caller gets the list.
    Cached(Vec<AppEntry>),
    /// No cache file exists: the caller must run discovery synchronously and
    /// finish with [`cold_start`].
    NeedsDiscovery,
    /// The `get` call fails with this error.
    Failed(CacheError),
}

/// What one background revalidation decides.
pub enum RevalidateAction {
    /// The discovery result matches the cache on disk (or could not be
    /// compared): no write, no notification.
    Keep,
    /// The cache is stale: overwrite the file with these bytes, then emit
    /// exactly one change notification.
    Update(Vec<u8>),
}

/// Fast path of `get`: decides from the cache file alone.
///
/// The discovery provider plays no part here, so the returned entries never
/// depend on what a scan would currently find, and no revalidation side
/// effect is observable before the caller has the list.
pub fn read_cache_step(cache_file: Option<&Vec<u8>>) -> (r: GetOutcome)
    ensures
        match cache_file {
            None => r is NeedsDiscovery,
            Some(bytes) => match spec_parse(bytes@) {
                Some(l) => r matches GetOutcome::Cached(apps) && models(apps@) == l,
                None => r == GetOutcome::Failed(CacheError::CorruptCache),
            },
        },
{
    match cache_file {
        None => GetOutcome::NeedsDiscovery,
        Some(bytes) => match parse_apps(bytes) {
            Some(apps) => GetOutcome::Cached(apps),
            None => GetOutcome::Failed(CacheError::CorruptCache),
        },
    }
}

/// Cold start of `get`: no cache file existed, discovery ran synchronously.
///
/// On success, returns the discovered list unchanged together with the
/// canonical bytes to persist; the bytes parse back to exactly that list, so
/// once written the cache file reproduces what this call returned.  The
/// write is best-effort: its failure must not change what the caller
/// returns.  On discovery failure, the error is propagated — never an empty
/// list in its place.
pub fn cold_start(discovered: Result<Vec<AppEntry>, DiscoveryError>) -> (r: Result<
    (Vec<AppEntry>, Vec<u8>),
    CacheError,
>)
    ensures
        match discovered {
            Ok(apps) => r matches Ok(p) && p.0 == apps && p.1@ == spec_serialize(models(apps@))
                && spec_parse(p.1@) == Some(models(apps@)),
            Err(e) => r == Err::<(Vec<AppEntry>, Vec<u8>), CacheError>(
                CacheError::DiscoveryFailed(e),
            ),
        },
{
    match discovered {
        Ok(apps) => {
            let bytes = serialize_apps(&apps);
            proof {
                lemma_parse_of_serialize(models(apps@));
            }
            Ok((apps, bytes))
        },
        Err(e) => Err(CacheError::DiscoveryFailed(e)),
    }
}

/// One background revalidation cycle, after its own discovery call and a
/// fresh read of the cache file.
///
/// Reading the file fresh (rather than reusing the snapshot served to the
/// caller) avoids a redundant write and notification when a concurrent
/// revalidation already landed the same update.  Failures are swallowed:
/// a failed discovery, a vanished file or an unparseable file all decide
/// [`RevalidateAction::Keep`] — revalidation is best-effort and never
/// user-visible.  Only a structurally different discovery result decides an
/// update, whose bytes are the canonical encoding of the new list and parse
/// back to exactly that list.
pub fn revalidate(
    discovered: Result<Vec<AppEntry>, DiscoveryError>,
    on_disk: Option<&Vec<u8>>,
) -> (r: RevalidateAction)
    ensures
        match discovered {
            Err(_) => r is Keep,
            Ok(new) => match on_disk {
                None => r is Keep,
                Some(bytes) => match spec_parse(bytes@) {
                    None => r is Keep,
                    Some(cached) => if models(new@) == cached {
                        r is Keep
                    } else {
                        r matches RevalidateAction::Update(out) && out@ == spec_serialize(
                            models(new@),
                        ) && spec_parse(out@) == Some(models(new@))
                    },
                },
            },
        },
{
    match discovered {
        Err(_) => RevalidateAction::Keep,
        Ok(new) => match on_disk {
            None => RevalidateAction::Keep,
            Some(bytes) => match parse_apps(bytes) {
                None => RevalidateAction::Keep,
                Some(cached) => {
                    if lists_equal(&new, &cached) {
                        RevalidateAction::Keep
                    } else {
                        let out = serialize_apps(&new);
                        proof {
                            lemma_parse_of_serialize(models(new@));
                        }
                        RevalidateAction::Update(out)
                    }
                },
            },
        },
    }
}

/// Idempotent revalidation, end to end: when discovery returns a list
/// structurally equal to the parsed cache file, the cycle decides no write
/// and no notification, and the untouched file stays byte-for-byte
/// reproducible by re-serializing its own parsed contents.
pub proof fn lemma_idempotent_cycle(disk: Seq<u8>, cached: Seq<AppEntryModel>)
    requires
        spec_parse(disk) == Some(cached),
    ensures
        spec_serialize(cached) == disk,
        spec_parse(spec_serialize(cached)) == Some(cached),
{
    lemma_serialize_of_parse(disk, cached);
}

} // verus!
