use filesync::manifest::render_aligned;
use filesync::{ManifestEntry, ManifestError, NodeType};

const LINE: &str = "\"f1/a.txt\"  {\"path_b64\":\"ZjEvYS50eHQ\",\"ty\":\"file\",\"size\":0,\"mtime_ns\":-5,\"mode\":420}";

#[test]
fn strict_line_reads_all_fields() {
    let e = ManifestEntry::deserialize_line(LINE).unwrap();
    assert_eq!(e.path_key(), "f1/a.txt");
    let r = e.record();
    assert_eq!(r.path_b64, "ZjEvYS50eHQ");
    assert_eq!(r.ty, NodeType::File);
    assert_eq!(r.size, Some(0));
    assert_eq!(r.mtime_ns, -5);
    assert_eq!(r.mode, Some(420));
    assert_eq!(r.link_target, None);
}

#[test]
fn strict_line_allows_surrounding_whitespace() {
    let padded = format!(" \t{}\t \r", LINE);
    let e = ManifestEntry::deserialize_line(&padded).unwrap();
    assert_eq!(e.path_key(), "f1/a.txt");
}

#[test]
fn strict_line_rejects_trailing_junk() {
    let junk = format!("{} x", LINE);
    assert_eq!(ManifestEntry::deserialize_line(&junk).unwrap_err(), ManifestError::MalformedLine);
    let two = format!("{} {{}}", LINE);
    assert_eq!(ManifestEntry::deserialize_line(&two).unwrap_err(), ManifestError::MalformedLine);
}

#[test]
fn strict_line_rejects_malformed_input() {
    for bad in [
        "",
        "\"only a key\"",
        "not json",
        "\"k\" {}",
        "\"k\" {\"path_b64\":\"\",\"ty\":\"folder\",\"mtime_ns\":0}",
        "\"k\" {\"path_b64\":\"\",\"ty\":\"file\",\"mtime_ns\":01}",
        "\"k\" {\"path_b64\":\"\",\"ty\":\"file\",\"mtime_ns\":1.5}",
        "\"k\" {\"path_b64\":\"\",\"ty\":\"file\"}",
        "\"k\" {\"path_b64\":null,\"ty\":\"file\",\"mtime_ns\":0}",
        "\"k\" {\"path_b64\":\"\",\"ty\":\"file\",\"mtime_ns\":0,\"size\":\"1\"}",
        "\"k\" [1]",
        "\"k\" {\"path_b64\":\"\",\"ty\":\"file\",\"size\":18446744073709551616,\"mtime_ns\":0}",
        "\"k\" {\"path_b64\":\"\",\"ty\":\"file\",\"mtime_ns\":0,\"mode\":4294967296}",
        "\"unterminated {\"path_b64\":\"\",\"ty\":\"file\",\"mtime_ns\":0}",
    ] {
        assert_eq!(ManifestEntry::deserialize_line(bad).unwrap_err(), ManifestError::MalformedLine, "{}", bad);
    }
}

#[test]
fn strict_line_reads_extreme_numbers() {
    let line = "\"k\" {\"path_b64\":\"aw\",\"ty\":\"file\",\"size\":18446744073709551615,\"mtime_ns\":-170141183460469231731687303715884105728,\"mode\":4294967295}";
    let e = ManifestEntry::deserialize_line(line).unwrap();
    assert_eq!(e.record().size, Some(u64::MAX));
    assert_eq!(e.record().mtime_ns, i128::MIN);
    assert_eq!(e.record().mode, Some(u32::MAX));
    let max = "\"k\" {\"path_b64\":\"aw\",\"ty\":\"other\",\"mtime_ns\":170141183460469231731687303715884105727}";
    let e = ManifestEntry::deserialize_line(max).unwrap();
    assert_eq!(e.record().mtime_ns, i128::MAX);
    assert_eq!(e.record().ty, NodeType::Other);
    let over = "\"k\" {\"path_b64\":\"aw\",\"ty\":\"other\",\"mtime_ns\":170141183460469231731687303715884105728}";
    assert!(ManifestEntry::deserialize_line(over).is_err());
}

#[test]
fn strict_line_reads_symlink_and_escapes() {
    let line = "\"a\\nb\\u001f\\\"\" {\"path_b64\":\"YQpi\",\"ty\":\"symlink\",\"mtime_ns\":7,\"link_target\":\"../x\\\\y\"}";
    let e = ManifestEntry::deserialize_line(line).unwrap();
    assert_eq!(e.path_key(), "a\nb\u{1f}\"");
    assert_eq!(e.record().ty, NodeType::Symlink);
    assert_eq!(e.record().link_target.as_deref(), Some("../x\\y"));
    assert_eq!(e.record().mode, None);
}

#[test]
fn lenient_reader_takes_only_the_key() {
    assert_eq!(ManifestEntry::deserialize_path_key(LINE).unwrap(), "f1/a.txt");
    assert_eq!(ManifestEntry::deserialize_path_key("  \"k\" anything at all").unwrap(), "k");
    assert_eq!(ManifestEntry::deserialize_path_key("\"k\"").unwrap(), "k");
    assert_eq!(ManifestEntry::deserialize_path_key("k").unwrap_err(), ManifestError::MalformedLine);
    assert_eq!(ManifestEntry::deserialize_path_key("").unwrap_err(), ManifestError::MalformedLine);
}

#[test]
fn whole_text_skips_blank_lines_and_sorts_by_key() {
    let text = "\"b\"  {\"path_b64\":\"Yg\",\"ty\":\"file\",\"size\":1,\"mtime_ns\":0}\r\n\n\n\"a\"  {\"path_b64\":\"YQ\",\"ty\":\"dir\",\"mtime_ns\":0}\n";
    let v = ManifestEntry::deserialize_manifests(text).unwrap();
    assert_eq!(v.len(), 2);
    assert_eq!(v[0].path_key(), "a");
    assert_eq!(v[1].path_key(), "b");
}

#[test]
fn whole_text_fails_on_one_bad_line() {
    let text = "\"a\"  {\"path_b64\":\"YQ\",\"ty\":\"dir\",\"mtime_ns\":0}\n\"b\" {} junk\n";
    assert_eq!(ManifestEntry::deserialize_manifests(text).unwrap_err(), ManifestError::MalformedLine);
}

fn chars(s: &str) -> Vec<char> {
    s.chars().collect()
}

#[test]
fn aligned_rendering_pads_by_given_widths() {
    let keys = vec![chars("\"bb\""), chars("\"a\"")];
    let records = vec![chars("{2}"), chars("{1}")];
    let text = render_aligned(&keys, &vec![4, 3], &records);
    assert_eq!(text, "\"a\"   {1}\n\"bb\"  {2}");
    // a wider width than the text has moves every record column
    let text = render_aligned(&keys, &vec![10, 3], &records);
    assert_eq!(text, "\"a\"         {1}\n\"bb\"  {2}");
    assert_eq!(render_aligned(&vec![], &vec![], &vec![]), "");
}

#[test]
fn listing_keys_match_walked_paths() {
    let line = |k: &str, b64: &str| {
        format!("\"{}\"  {{\"path_b64\":\"{}\",\"ty\":\"file\",\"size\":1,\"mtime_ns\":0}}", k, b64)
    };
    let text = [line("f2/x", "ZjIveA"), line("f1/a.txt", "ZjEvYS50eHQ"), line("f1/b.txt", "ZjEvYi50eHQ")].join("\n");
    let mut keys: Vec<String> = text
        .lines()
        .filter(|l| !l.is_empty())
        .map(|l| ManifestEntry::deserialize_line(l).unwrap().path_key().to_owned())
        .collect();
    keys.sort();
    assert_eq!(keys, vec!["f1/a.txt", "f1/b.txt", "f2/x"]);
}

#[test]
fn strict_line_reads_other_json_layouts() {
    let reordered = "\"k\"  {\"ty\":\"file\",\"path_b64\":\"aw\",\"mtime_ns\":0}";
    let e = ManifestEntry::deserialize_line(reordered).unwrap();
    assert_eq!(e.path_key(), "k");
    assert_eq!(e.record().path_b64, "aw");
    assert_eq!(e.record().ty, NodeType::File);
    let spaced = "\"k\" { \"path_b64\" : \"aw\" ,\n \"ty\": \"dir\", \"mtime_ns\": 12 , \"mode\" : 420 }  ";
    let e = ManifestEntry::deserialize_line(spaced).unwrap();
    assert_eq!(e.record().ty, NodeType::Dir);
    assert_eq!(e.record().mtime_ns, 12);
    assert_eq!(e.record().mode, Some(420));
    let escaped = "\"\\u0041\\/b\" {\"path_b64\":\"aw\",\"ty\":\"file\",\"mtime_ns\":0}";
    assert_eq!(ManifestEntry::deserialize_line(escaped).unwrap().path_key(), "A/b");
    let nulls = "\"k\" {\"path_b64\":\"aw\",\"ty\":\"file\",\"size\":null,\"mtime_ns\":0,\"mode\":null,\"link_target\":null}";
    let e = ManifestEntry::deserialize_line(nulls).unwrap();
    assert_eq!(e.record().size, None);
    assert_eq!(e.record().mode, None);
    assert_eq!(e.record().link_target, None);
    let unknown = "\"k\" {\"path_b64\":\"aw\",\"extra\":[1,{\"x\":2}],\"ty\":\"symlink\",\"mtime_ns\":-3,\"link_target\":\"t\"}";
    let e = ManifestEntry::deserialize_line(unknown).unwrap();
    assert_eq!(e.record().ty, NodeType::Symlink);
    assert_eq!(e.record().mtime_ns, -3);
    assert_eq!(e.record().link_target.as_deref(), Some("t"));
    let junk = format!("{} x", reordered);
    assert_eq!(ManifestEntry::deserialize_line(&junk).unwrap_err(), ManifestError::MalformedLine);
}

#[test]
fn lenient_key_reader_takes_any_json_string() {
    assert_eq!(ManifestEntry::deserialize_path_key("\"\\u0041\\/\" junk").unwrap(), "A/");
}
