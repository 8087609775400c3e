//! Data model of the launcher core: application entries and the error
//! taxonomy surfaced by the cache manager.

use vstd::prelude::*;

verus! {

/// One discovered application: its display name and its launch path, both as
/// UTF-8 byte strings.  Equality is structural; two entries with the same
/// name and path are interchangeable.
#[derive(Debug, Clone, PartialEq, Eq)]
pub struct AppEntry {
    pub name: Vec<u8>,
    pub path: Vec<u8>,
}

/// Mathematical value of an [`AppEntry`]: the two byte strings as sequences.
pub ghost struct AppEntryModel {
    pub name: Seq<u8>,
    pub path: Seq<u8>,
}

impl View for AppEntry {
    type V = AppEntryModel;

    open spec fn view(&self) -> AppEntryModel {
        AppEntryModel { name: self.name@, path: self.path@ }
    }
}

/// The mathematical value of a whole application list, in discovery order.
pub open spec fn models(s: Seq<AppEntry>) -> Seq<AppEntryModel> {
    s.map_values(|e: AppEntry| e@)
}

/// Failure of the discovery provider: either the enumeration command itself
/// could not run (or reported failure), or its output could not be decoded
/// as text.
#[derive(Debug, Clone, Copy, PartialEq, Eq, Structural)]
pub enum DiscoveryError {
    CommandFailed,
    InvalidOutput,
}

/// Failure surfaced by the cache manager's `get` path.
#[derive(Debug, Clone, Copy, PartialEq, Eq, Structural)]
pub enum CacheError {
    /// The cache directory cannot be created or accessed.
    DirectoryUnavailable,
    /// An existing cache file does not parse as an application list.
    CorruptCache,
    /// No cache existed and the synchronous discovery call failed.
    DiscoveryFailed(DiscoveryError),
}

/// Copies a byte string.
pub fn copy_bytes(v: &Vec<u8>) -> (r: Vec<u8>)
    ensures
        r@ == v@,
{
    let mut r: Vec<u8> = Vec::new();
    let mut i: usize = 0;
    while i < v.len()
        invariant
            i <= v.len(),
            r@ == v@.take(i as int),
        decreases v.len() - i,
    {
        r.push(v[i]);
        i = i + 1;
        proof {
            assert(r@ =~= v@.take(i as int));
        }
    }
    proof {
        assert(v@.take(v@.len() as int) =~= v@);
    }
    r
}

/// Structural equality of two byte strings.
pub fn bytes_equal(a: &Vec<u8>, b: &Vec<u8>) -> (r: bool)
    ensures
        r == (a@ == b@),
{
    if a.len() != b.len() {
        return false;
    }
    let mut i: usize = 0;
    while i < a.len()
        invariant
            i <= a.len(),
            a@.len() == b@.len(),
            forall|k: int| 0 <= k < i ==> a@[k] == b@[k],
        decreases a.len() - i,
    {
        if a[i] != b[i] {
            return false;
        }
        i = i + 1;
    }
    proof {
        assert(a@ =~= b@);
    }
    true
}

/// Structural equality of two entries: both fields must match.
pub fn entries_equal(a: &AppEntry, b: &AppEntry) -> (r: bool)
    ensures
        r == (a@ == b@),
{
    let r = bytes_equal(&a.name, &b.name) && bytes_equal(&a.path, &b.path);
    r
}

/// Structural equality of two application lists: same length, same entries
/// in the same positions.  Reordering counts as a difference.
pub fn lists_equal(a: &Vec<AppEntry>, b: &Vec<AppEntry>) -> (r: bool)
    ensures
        r == (models(a@) == models(b@)),
{
    if a.len() != b.len() {
        proof {
            assert(models(a@).len() != models(b@).len());
        }
        return false;
    }
    let mut i: usize = 0;
    while i < a.len()
        invariant
            i <= a.len(),
            a@.len() == b@.len(),
            forall|k: int| 0 <= k < i ==> models(a@)[k] == models(b@)[k],
        decreases a.len() - i,
    {
        if !entries_equal(&a[i], &b[i]) {
            proof {
                assert(models(a@)[i as int] != models(b@)[i as int]);
            }
            return false;
        }
        i = i + 1;
    }
    proof {
        assert(models(a@) =~= models(b@));
    }
    true
}

} // verus!
