use launcher_cache::codec::parse_apps;
use launcher_cache::codec::serialize_apps;
use launcher_cache::model::AppEntry;

fn entry(name: &str, path: &str) -> AppEntry {
    AppEntry { name: name.as_bytes().to_vec(), path: path.as_bytes().to_vec() }
}

#[test]
fn serialize_one_entry_exact_bytes() {
    let apps = vec![entry("Mail", "/Applications/Mail.app")];
    let bytes = serialize_apps(&apps);
    assert_eq!(bytes, br#"[{"name":"Mail","path":"/Applications/Mail.app"}]"#.to_vec());
}

#[test]
fn serialize_empty_list() {
    let apps: Vec<AppEntry> = Vec::new();
    assert_eq!(serialize_apps(&apps), b"[]".to_vec());
}

#[test]
fn serialize_two_entries_joined_by_comma() {
    let apps = vec![entry("A", "/Applications/A.app"), entry("B", "/Applications/B.app")];
    let bytes = serialize_apps(&apps);
    assert_eq!(
        bytes,
        br#"[{"name":"A","path":"/Applications/A.app"},{"name":"B","path":"/Applications/B.app"}]"#
            .to_vec()
    );
}

#[test]
fn escape_encoding_exact() {
    let apps = vec![AppEntry {
        name: vec![b'a', 34, b'b', 92, b'c', 10, 31, b'd'],
        path: b"/Applications/a.app".to_vec(),
    }];
    let bytes = serialize_apps(&apps);
    let expected = br#"[{"name":"a\"b\\c\u000a\u001fd","path":"/Applications/a.app"}]"#.to_vec();
    assert_eq!(bytes, expected);
}

#[test]
fn parse_canonical_two_entries() {
    let bytes =
        br#"[{"name":"Mail","path":"/Applications/Mail.app"},{"name":"Notes","path":"/Applications/Notes.app"}]"#
            .to_vec();
    let parsed = parse_apps(&bytes).expect("canonical bytes must parse");
    assert_eq!(parsed.len(), 2);
    assert_eq!(parsed[0], entry("Mail", "/Applications/Mail.app"));
    assert_eq!(parsed[1], entry("Notes", "/Applications/Notes.app"));
}

#[test]
fn parse_empty_list() {
    let parsed = parse_apps(&b"[]".to_vec()).expect("empty array must parse");
    assert!(parsed.is_empty());
}

#[test]
fn round_trip_with_escapes() {
    let apps = vec![
        AppEntry { name: vec![34, 92, 9, 0, 127, 200], path: b"/Applications/x.app".to_vec() },
        entry("", ""),
    ];
    let bytes = serialize_apps(&apps);
    let parsed = parse_apps(&bytes).expect("serializer output must parse");
    assert_eq!(parsed, apps);
}

#[test]
fn parse_rejects_invalid_content() {
    let bad: Vec<&[u8]> = vec![
        b"",
        b"garbage",
        b"[",
        b"]",
        b"[]x",
        b"[ ]",
        b"{}",
        br#"[{"name":"a"}]"#,
        br#"[{"path":"p","name":"a"}]"#,
        br#"[{"name":"a","path":"p"},]"#,
        br#"[{"name":"a","path":"p"}] "#,
        br#"[{"name": "a","path":"p"}]"#,
        br#"[{"NAME":"a","path":"p"}]"#,
    ];
    for b in bad {
        assert!(parse_apps(&b.to_vec()).is_none(), "accepted {:?}", b);
    }
}

#[test]
fn parse_rejects_non_canonical_escapes() {
    // uppercase hex, a printable byte written as an escape, a lone backslash,
    // an unescaped control byte: all denormal, all corrupt.
    let bad: Vec<&[u8]> = vec![
        br#"[{"name":"\u000A","path":"p"}]"#,
        br#"[{"name":"\u0041","path":"p"}]"#,
        br#"[{"name":"\n","path":"p"}]"#,
        br#"[{"name":"\","path":"p"}]"#,
        b"[{\"name\":\"a\x01b\",\"path\":\"p\"}]",
    ];
    for b in bad {
        assert!(parse_apps(&b.to_vec()).is_none(), "accepted {:?}", b);
    }
}

#[test]
fn parse_accepts_canonical_control_escape() {
    let bytes = br#"[{"name":"a\u000ab","path":"p"}]"#.to_vec();
    let parsed = parse_apps(&bytes).expect("canonical escape must parse");
    assert_eq!(parsed[0].name, vec![b'a', 10, b'b']);
}
