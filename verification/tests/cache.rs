use launcher_cache::cache::GetOutcome;
use launcher_cache::cache::RevalidateAction;
use launcher_cache::cache::cold_start;
use launcher_cache::cache::read_cache_step;
use launcher_cache::cache::revalidate;
use launcher_cache::codec::parse_apps;
use launcher_cache::codec::serialize_apps;
use launcher_cache::model::AppEntry;
use launcher_cache::model::CacheError;
use launcher_cache::model::DiscoveryError;

fn entry(name: &str, path: &str) -> AppEntry {
    AppEntry { name: name.as_bytes().to_vec(), path: path.as_bytes().to_vec() }
}

fn mail() -> AppEntry {
    entry("Mail", "/Applications/Mail.app")
}

fn notes() -> AppEntry {
    entry("Notes", "/Applications/Notes.app")
}

#[test]
fn fast_path_returns_cached() {
    let cached = vec![mail(), notes()];
    let disk = serialize_apps(&cached);
    match read_cache_step(Some(&disk)) {
        GetOutcome::Cached(apps) => assert_eq!(apps, cached),
        _ => panic!("a valid cache file must be served as-is"),
    }
}

#[test]
fn missing_cache_needs_discovery() {
    assert!(matches!(read_cache_step(None), GetOutcome::NeedsDiscovery));
}

#[test]
fn corrupt_cache_surfaces_error() {
    let disk = b"{not an app list}".to_vec();
    match read_cache_step(Some(&disk)) {
        GetOutcome::Failed(e) => assert_eq!(e, CacheError::CorruptCache),
        _ => panic!("a corrupt cache must be a hard error, not a silent re-discovery"),
    }
}

#[test]
fn cold_start_returns_list_and_persistable_bytes() {
    let found = vec![mail()];
    let (apps, bytes) = cold_start(Ok(found.clone())).expect("successful discovery");
    assert_eq!(apps, found);
    assert_eq!(parse_apps(&bytes).expect("persisted bytes must parse"), found);
}

#[test]
fn cold_start_propagates_discovery_failure() {
    let r = cold_start(Err(DiscoveryError::CommandFailed));
    assert_eq!(r.unwrap_err(), CacheError::DiscoveryFailed(DiscoveryError::CommandFailed));
    let r = cold_start(Err(DiscoveryError::InvalidOutput));
    assert_eq!(r.unwrap_err(), CacheError::DiscoveryFailed(DiscoveryError::InvalidOutput));
}

#[test]
fn revalidate_equal_list_keeps_file() {
    let cached = vec![mail(), notes()];
    let disk = serialize_apps(&cached);
    let action = revalidate(Ok(cached.clone()), Some(&disk));
    assert!(matches!(action, RevalidateAction::Keep));
    // the untouched file is byte-for-byte reproducible by re-serialization
    let reparsed = parse_apps(&disk).expect("valid file");
    assert_eq!(serialize_apps(&reparsed), disk);
}

#[test]
fn revalidate_changed_list_updates_and_notifies() {
    let cached = vec![mail()];
    let disk = serialize_apps(&cached);
    let fresh = vec![mail(), notes()];
    match revalidate(Ok(fresh.clone()), Some(&disk)) {
        RevalidateAction::Update(bytes) => {
            assert_eq!(parse_apps(&bytes).expect("new bytes must parse"), fresh);
        },
        RevalidateAction::Keep => panic!("a structural change must be written and notified"),
    }
}

#[test]
fn revalidate_reorder_counts_as_change() {
    let cached = vec![mail(), notes()];
    let disk = serialize_apps(&cached);
    let reordered = vec![notes(), mail()];
    assert!(matches!(revalidate(Ok(reordered), Some(&disk)), RevalidateAction::Update(_)));
}

#[test]
fn revalidate_failed_discovery_is_silent() {
    let disk = serialize_apps(&vec![mail()]);
    let action = revalidate(Err(DiscoveryError::CommandFailed), Some(&disk));
    assert!(matches!(action, RevalidateAction::Keep));
}

#[test]
fn revalidate_missing_file_is_silent() {
    assert!(matches!(revalidate(Ok(vec![mail()]), None), RevalidateAction::Keep));
}

#[test]
fn revalidate_corrupt_file_is_silent() {
    let disk = b"??".to_vec();
    assert!(matches!(revalidate(Ok(vec![mail()]), Some(&disk)), RevalidateAction::Keep));
}

#[test]
fn scenario_new_app_appears() {
    // the cache holds one entry; discovery now finds two
    let mut file: Option<Vec<u8>> = Some(
        br#"[{"name":"Mail","path":"/Applications/Mail.app"}]"#.to_vec(),
    );
    let fresh = vec![mail(), notes()];

    // immediate get() serves the one-entry list
    let served = match read_cache_step(file.as_ref()) {
        GetOutcome::Cached(apps) => apps,
        _ => panic!("fast path expected"),
    };
    assert_eq!(served, vec![mail()]);

    // the revalidation cycle overwrites the file and fires one notification
    let mut notifications = 0;
    match revalidate(Ok(fresh.clone()), file.as_ref()) {
        RevalidateAction::Update(bytes) => {
            file = Some(bytes);
            notifications += 1;
        },
        RevalidateAction::Keep => {},
    }
    assert_eq!(notifications, 1);

    // a second get() now serves the two-entry list
    match read_cache_step(file.as_ref()) {
        GetOutcome::Cached(apps) => assert_eq!(apps, fresh),
        _ => panic!("fast path expected"),
    }

    // a further cycle with an unchanged world does nothing
    assert!(matches!(revalidate(Ok(fresh), file.as_ref()), RevalidateAction::Keep));
}
