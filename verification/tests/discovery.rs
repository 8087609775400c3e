use launcher_cache::discovery::filter_app_paths;
use launcher_cache::discovery::is_app_path;
use launcher_cache::discovery::make_entry;
use launcher_cache::discovery::resolve_name;
use launcher_cache::discovery::split_lines;
use launcher_cache::discovery::starts_with;
use launcher_cache::discovery::trim_bytes;

#[test]
fn split_lines_keeps_segments_in_order() {
    let r = split_lines(&b"a\nbb\n\nc".to_vec());
    assert_eq!(r, vec![b"a".to_vec(), b"bb".to_vec(), b"".to_vec(), b"c".to_vec()]);
}

#[test]
fn split_lines_trailing_newline_makes_empty_segment() {
    let r = split_lines(&b"a\n".to_vec());
    assert_eq!(r, vec![b"a".to_vec(), b"".to_vec()]);
    assert_eq!(split_lines(&b"".to_vec()), vec![b"".to_vec()]);
}

#[test]
fn starts_with_checks_prefixes() {
    assert!(starts_with(&b"/Applications/Mail.app".to_vec(), &b"/Applications/".to_vec()));
    assert!(!starts_with(&b"/opt/Mail.app".to_vec(), &b"/Applications/".to_vec()));
    assert!(!starts_with(&b"/App".to_vec(), &b"/Applications/".to_vec()));
}

#[test]
fn app_paths_cover_the_three_directories() {
    let home = b"/Users/u".to_vec();
    assert!(is_app_path(&b"/Applications/Mail.app".to_vec(), &home));
    assert!(is_app_path(&b"/System/Applications/Calculator.app".to_vec(), &home));
    assert!(is_app_path(&b"/Users/u/Applications/Mine.app".to_vec(), &home));
    assert!(!is_app_path(&b"/Users/other/Applications/X.app".to_vec(), &home));
    assert!(!is_app_path(&b"/opt/tool".to_vec(), &home));
    assert!(!is_app_path(&b"".to_vec(), &home));
}

#[test]
fn filter_sample_listing() {
    let raw = b"/Applications/Mail.app\n/System/Applications/Calculator.app\n/opt/other\n/Users/u/Applications/Mine.app\n\n"
        .to_vec();
    let home = b"/Users/u".to_vec();
    let paths = filter_app_paths(&raw, &home);
    assert_eq!(
        paths,
        vec![
            b"/Applications/Mail.app".to_vec(),
            b"/System/Applications/Calculator.app".to_vec(),
            b"/Users/u/Applications/Mine.app".to_vec(),
        ]
    );
}

#[test]
fn filter_keeps_listing_order_and_duplicates() {
    let raw = b"/Applications/B.app\n/Applications/A.app\n/Applications/B.app".to_vec();
    let home = b"/Users/u".to_vec();
    let paths = filter_app_paths(&raw, &home);
    assert_eq!(
        paths,
        vec![
            b"/Applications/B.app".to_vec(),
            b"/Applications/A.app".to_vec(),
            b"/Applications/B.app".to_vec(),
        ]
    );
}

#[test]
fn trim_strips_ascii_whitespace() {
    assert_eq!(trim_bytes(&b" \tMail \n".to_vec()), b"Mail".to_vec());
    assert_eq!(trim_bytes(&b"Mail".to_vec()), b"Mail".to_vec());
    assert_eq!(trim_bytes(&b" \n\t ".to_vec()), b"".to_vec());
    assert_eq!(trim_bytes(&b"a b".to_vec()), b"a b".to_vec());
}

#[test]
fn resolve_name_trims_or_falls_back() {
    assert_eq!(resolve_name(Some(&b"Mail\n".to_vec())), b"Mail".to_vec());
    assert_eq!(resolve_name(None), b"Unknown".to_vec());
}

#[test]
fn make_entry_pairs_path_with_resolved_name() {
    let e = make_entry(b"/Applications/Mail.app".to_vec(), Some(&b" Mail\n".to_vec()));
    assert_eq!(e.name, b"Mail".to_vec());
    assert_eq!(e.path, b"/Applications/Mail.app".to_vec());

    let f = make_entry(b"/Applications/X.app".to_vec(), None);
    assert_eq!(f.name, b"Unknown".to_vec());
}
