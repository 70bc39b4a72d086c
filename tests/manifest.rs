use filesync::{
    build_manifest, decode_path, encode_path, mtime_ns, FileTime, FoundNode, ManifestEntry,
    ManifestError, NodeInfo, NodeType, TRACKING_FILENAME,
};
use unicode_width::UnicodeWidthStr;

fn time(secs: u64) -> Option<FileTime> {
    Some(FileTime { before_epoch: false, secs, nanos: 0 })
}

fn file(rel: &[u8], len: u64) -> FoundNode {
    FoundNode {
        rel: rel.to_vec(),
        info: NodeInfo {
            is_dir: false,
            is_file: true,
            is_symlink: false,
            len,
            modified: time(1_700_000_000),
            mode: Some(0o100644),
            link_target: None,
        },
    }
}

fn dir(rel: &[u8]) -> FoundNode {
    FoundNode {
        rel: rel.to_vec(),
        info: NodeInfo {
            is_dir: true,
            is_file: false,
            is_symlink: false,
            len: 4096,
            modified: time(1_700_000_000),
            mode: Some(0o40755),
            link_target: None,
        },
    }
}

fn symlink(rel: &[u8], target: Option<&[u8]>) -> FoundNode {
    FoundNode {
        rel: rel.to_vec(),
        info: NodeInfo {
            is_dir: false,
            is_file: false,
            is_symlink: true,
            len: 11,
            modified: time(1_700_000_000),
            mode: Some(0o120777),
            link_target: target.map(|t| t.to_vec()),
        },
    }
}

fn keys(entries: &[ManifestEntry]) -> Vec<String> {
    entries.iter().map(|e| e.path_key().to_string()).collect()
}

fn fixture() -> Vec<FoundNode> {
    vec![
        dir(b"f1"),
        file(b"f1/a.txt", 0),
        file(b"f1/b.txt", 11),
        dir(b"f2"),
        file(b"f2/ with space", 5),
        file(b"f2/special!@#$%^&*()-+`\"'", 8),
        file(b"f2/with\nnewline", 7),
        file(b"f2/with\ttab", 3),
        file("f2/unicode_ハンバーガー_🍣".as_bytes(), 7),
        file(b"f2/bad\xff\xfeutf8", 2),
        dir(b"empty_dir"),
        file(b"f4/filesync_tracking.txt", 14),
        file(TRACKING_FILENAME.as_bytes(), 100),
        symlink(b"f5/sl1", Some(b"../f1/b.txt")),
        symlink(b"f5/sl2", Some(b"sl1")),
    ]
}

#[test]
fn scenario_two_files_and_a_symlink() {
    let found = vec![
        dir(b"f1"),
        file(b"f1/a.txt", 0),
        file(b"f1/b.txt", 11),
        dir(b"f2"),
        symlink(b"f2/link", Some(b"../f1/b.txt")),
    ];
    let entries = build_manifest(found, &None).unwrap();
    assert_eq!(keys(&entries), vec!["f1/", "f1/a.txt", "f1/b.txt", "f2/", "f2/link"]);
    let a = entries[1].record();
    assert_eq!(a.ty, NodeType::File);
    assert_eq!(a.size, Some(0));
    let b = entries[2].record();
    assert_eq!(b.size, Some(11));
    let link = entries[4].record();
    assert_eq!(link.ty, NodeType::Symlink);
    assert_eq!(link.link_target.as_deref(), Some("../f1/b.txt"));
    assert_eq!(link.size, None);
    let text = ManifestEntry::serialize_manifests(&entries);
    assert!(text.contains("\"ty\":\"symlink\""));
    assert!(text.contains("\"link_target\":\"../f1/b.txt\""));
}

#[test]
fn scenario_three_leaf_entries() {
    let found = vec![
        file(b"f1/b.txt", 11),
        symlink(b"f2/link", Some(b"../f1/b.txt")),
        file(b"f1/a.txt", 0),
    ];
    let entries = build_manifest(found, &None).unwrap();
    assert_eq!(keys(&entries), vec!["f1/a.txt", "f1/b.txt", "f2/link"]);
    assert_eq!(entries[0].record().size, Some(0));
    assert_eq!(entries[2].record().ty, NodeType::Symlink);
    assert_eq!(entries[2].record().link_target.as_deref(), Some("../f1/b.txt"));
}

#[test]
fn exact_line_of_one_file() {
    let entries = build_manifest(vec![file(b"a.txt", 5)], &None).unwrap();
    let text = ManifestEntry::serialize_manifests(&entries);
    assert_eq!(
        text,
        "\"a.txt\"  {\"path_b64\":\"YS50eHQ\",\"ty\":\"file\",\"size\":5,\"mtime_ns\":1700000000000000000,\"mode\":420}"
    );
}

#[test]
fn directory_key_gets_a_slash_and_no_size() {
    let entries = build_manifest(vec![dir(b"sub")], &None).unwrap();
    assert_eq!(keys(&entries), vec!["sub/"]);
    let text = ManifestEntry::serialize_manifests(&entries);
    assert_eq!(
        text,
        "\"sub/\"  {\"path_b64\":\"c3Vi\",\"ty\":\"dir\",\"mtime_ns\":1700000000000000000,\"mode\":493}"
    );
}

#[test]
fn empty_manifest_is_empty_text() {
    let text = ManifestEntry::serialize_manifests(&[]);
    assert_eq!(text, "");
    let back = ManifestEntry::deserialize_manifests(&text).unwrap();
    assert!(back.is_empty());
}

#[test]
fn round_trip_renders_the_same_text() {
    let entries = build_manifest(fixture(), &None).unwrap();
    let text = ManifestEntry::serialize_manifests(&entries);
    let back = ManifestEntry::deserialize_manifests(&text).unwrap();
    assert_eq!(back.len(), entries.len());
    assert_eq!(ManifestEntry::serialize_manifests(&back), text);
}

#[test]
fn deserialized_entries_are_sorted_by_key() {
    let entries = build_manifest(fixture(), &None).unwrap();
    let text = ManifestEntry::serialize_manifests(&entries);
    let back = ManifestEntry::deserialize_manifests(&text).unwrap();
    let ks = keys(&back);
    let mut sorted = ks.clone();
    sorted.sort();
    assert_eq!(ks, sorted);
}

#[test]
fn lines_are_sorted_as_text() {
    let entries = build_manifest(fixture(), &None).unwrap();
    let text = ManifestEntry::serialize_manifests(&entries);
    let lines: Vec<&str> = text.split('\n').collect();
    let mut sorted = lines.clone();
    sorted.sort();
    assert_eq!(lines, sorted);
    assert_eq!(lines.len(), entries.len());
}

#[test]
fn same_tree_in_any_order_gives_same_text() {
    let a = fixture();
    let mut b = fixture();
    b.reverse();
    b.swap(0, 5);
    let ta = ManifestEntry::serialize_manifests(&build_manifest(a, &None).unwrap());
    let tb = ManifestEntry::serialize_manifests(&build_manifest(b, &None).unwrap());
    assert_eq!(ta, tb);
    let tc = ManifestEntry::serialize_manifests(&build_manifest(fixture(), &None).unwrap());
    assert_eq!(ta, tc);
}

#[test]
fn manifest_never_lists_itself_nor_the_root() {
    let mut found = fixture();
    found.push(dir(b""));
    let entries = build_manifest(found, &None).unwrap();
    let ks = keys(&entries);
    assert!(!ks.iter().any(|k| k == TRACKING_FILENAME));
    assert!(!ks.iter().any(|k| k.is_empty() || k == "/"));
    assert!(ks.iter().any(|k| k == "f4/filesync_tracking.txt"));
    for e in &entries {
        let raw = decode_path(&e.record().path_b64).unwrap();
        assert!(!raw.is_empty());
        assert_ne!(raw, TRACKING_FILENAME.as_bytes());
    }
}

#[test]
fn records_start_at_one_display_column() {
    let found = vec![
        file(b"a", 1),
        file("ハンバーガー".as_bytes(), 2),
        file("🍣🍣".as_bytes(), 3),
        file(b"longer_ascii_name.txt", 4),
    ];
    let entries = build_manifest(found, &None).unwrap();
    let text = ManifestEntry::serialize_manifests(&entries);
    let mut columns = Vec::new();
    for line in text.split('\n') {
        let at = line.find("{\"path_b64\"").unwrap();
        columns.push(UnicodeWidthStr::width(&line[..at]));
    }
    assert_eq!(columns.len(), 4);
    assert!(columns.iter().all(|c| *c == columns[0]));
    // the widest key literal is "longer_ascii_name.txt" in quotes: 23 columns
    assert_eq!(columns[0], 25);
    let wide = text.split('\n').find(|l| l.starts_with("\"ハ")).unwrap();
    // 6 wide glyphs and 2 quotes take 14 columns, so 11 spaces follow
    assert!(wide.starts_with("\"ハンバーガー\"           {"));
}

#[test]
fn prefix_filter_keeps_only_the_allowed_subtree() {
    let found = vec![
        dir(b"sub"),
        dir(b"sub/a"),
        file(b"sub/a/x", 1),
        dir(b"sub/b"),
        file(b"sub/b/y", 1),
        file(b"sub/ab", 1),
        file(b"top", 1),
    ];
    let prefixes = Some(vec![b"sub/a".to_vec()]);
    let entries = build_manifest(found, &prefixes).unwrap();
    assert_eq!(keys(&entries), vec!["sub/a/", "sub/a/x"]);
}

#[test]
fn prefix_filter_prunes_during_the_walk() {
    let prefixes = Some(vec![b"sub/a/".to_vec()]);
    assert!(filesync::should_descend(b"", &prefixes));
    assert!(filesync::should_descend(b"sub", &prefixes));
    assert!(filesync::should_descend(b"sub/a", &prefixes));
    assert!(filesync::should_descend(b"sub/a/deep", &prefixes));
    assert!(!filesync::should_descend(b"sub/b", &prefixes));
    assert!(!filesync::should_descend(b"sub/ab", &prefixes));
    assert!(!filesync::should_descend(b"other", &prefixes));
    assert!(filesync::should_descend(b"anything", &None));
    assert!(filesync::is_listed(b"sub/a/deep", &prefixes));
    assert!(!filesync::is_listed(b"sub", &prefixes));
    assert!(filesync::is_under(b"sub/a", b"sub/a/"));
    assert!(filesync::is_under(b"x/y", b""));
    assert!(!filesync::is_under(b"sub/abc", b"sub/a"));
}

#[test]
fn unreadable_link_target_is_an_error() {
    let found = vec![file(b"a", 1), symlink(b"l", None)];
    assert_eq!(build_manifest(found, &None).unwrap_err(), ManifestError::MetadataUnavailable);
    let unlisted = vec![symlink(TRACKING_FILENAME.as_bytes(), None)];
    assert!(build_manifest(unlisted, &None).unwrap().is_empty());
}

#[test]
fn node_classification_prefers_directory() {
    let mut n = dir(b"odd");
    n.info.is_file = true;
    n.info.is_symlink = true;
    let e = ManifestEntry::from_rel_path(&n.rel, &n.info).unwrap();
    assert_eq!(e.record().ty, NodeType::Dir);
    assert_eq!(e.path_key(), "odd/");
    let mut o = file(b"sock", 0);
    o.info.is_file = false;
    let e = ManifestEntry::from_rel_path(&o.rel, &o.info).unwrap();
    assert_eq!(e.record().ty, NodeType::Other);
    assert_eq!(e.record().size, None);
}

#[test]
fn lossy_key_and_lossless_path() {
    let raw: &[u8] = b"bad\xff\xfeutf8";
    let n = file(raw, 2);
    let e = ManifestEntry::from_rel_path(&n.rel, &n.info).unwrap();
    assert_eq!(e.path_key(), "bad\u{fffd}\u{fffd}utf8");
    assert_eq!(decode_path(&e.record().path_b64).unwrap(), raw.to_vec());
}

#[test]
fn path_encoding_is_lossless() {
    let cases: Vec<Vec<u8>> = vec![
        vec![],
        vec![0],
        b"a".to_vec(),
        b"ab".to_vec(),
        b"abc".to_vec(),
        b"with\nnewline\0nul".to_vec(),
        vec![0xff, 0xfe, 0xfd, 0x80],
        (0u8..=255).collect(),
    ];
    for c in cases {
        let text = encode_path(&c);
        assert!(!text.contains('='));
        assert_eq!(decode_path(&text), Some(c));
    }
}

#[test]
fn path_encoding_exact_values() {
    assert_eq!(encode_path(b"hello"), "aGVsbG8");
    assert_eq!(encode_path(b"f1/a.txt"), "ZjEvYS50eHQ");
    assert_eq!(encode_path(&[0xff, 0xfe]), "//4");
    assert_eq!(decode_path("aGVsbG8"), Some(b"hello".to_vec()));
    assert_eq!(decode_path("aGVsbG8="), None);
    assert_eq!(decode_path("a"), None);
    assert_eq!(decode_path("aGVsbG9"), None);
    assert_eq!(decode_path("a b"), None);
}

#[test]
fn modification_time_in_nanoseconds() {
    assert_eq!(mtime_ns(FileTime { before_epoch: false, secs: 0, nanos: 0 }), 0);
    assert_eq!(mtime_ns(FileTime { before_epoch: false, secs: 2, nanos: 5 }), 2_000_000_005);
    assert_eq!(mtime_ns(FileTime { before_epoch: true, secs: 1, nanos: 5 }), -1_000_000_005);
    assert_eq!(
        mtime_ns(FileTime { before_epoch: false, secs: u64::MAX, nanos: 999_999_999 }),
        18_446_744_073_709_551_615_999_999_999
    );
}

#[test]
fn missing_modification_time_is_an_error() {
    let mut n = file(b"a", 1);
    n.info.modified = None;
    assert_eq!(
        ManifestEntry::from_rel_path(&n.rel, &n.info).unwrap_err(),
        ManifestError::MetadataUnavailable
    );
    assert_eq!(build_manifest(vec![n], &None).unwrap_err(), ManifestError::MetadataUnavailable);
}

#[test]
fn only_directory_keys_end_in_a_slash() {
    let n = file(b"a/", 1);
    assert_eq!(
        ManifestEntry::from_rel_path(&n.rel, &n.info).unwrap_err(),
        ManifestError::MetadataUnavailable
    );
    let d = dir(b"a/");
    assert_eq!(ManifestEntry::from_rel_path(&d.rel, &d.info).unwrap().path_key(), "a//");
}

#[test]
fn utf8_paths_keep_their_text() {
    let n = file("f1/ハ a.txt".as_bytes(), 1);
    let e = ManifestEntry::from_rel_path(&n.rel, &n.info).unwrap();
    assert_eq!(e.path_key(), "f1/ハ a.txt");
    let l = symlink(b"l", Some("../ハ".as_bytes()));
    let e = ManifestEntry::from_rel_path(&l.rel, &l.info).unwrap();
    assert_eq!(e.record().link_target.as_deref(), Some("../ハ"));
}

#[test]
fn escapes_in_keys_are_json() {
    let found = vec![file(b"q\"b\\c\x01d\te", 1)];
    let entries = build_manifest(found, &None).unwrap();
    let text = ManifestEntry::serialize_manifests(&entries);
    assert!(text.starts_with("\"q\\\"b\\\\c\\u0001d\\te\"  {"));
    let back = ManifestEntry::deserialize_manifests(&text).unwrap();
    assert_eq!(back[0].path_key(), "q\"b\\c\u{1}d\te");
}
