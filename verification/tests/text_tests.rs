use reflet::compression::{
    archive_extension, build_external, clamp_level, detect_methods, external_result, is_builtin, method,
    supports_password, ToolAvailability, ToolRun,
};
use reflet::config::{Settings, SyncPair};
use reflet::digest::{content_crc, content_digest, hex_lower, push_le_u64};
use reflet::order::{sort_by_keys, SortKey};
use reflet::paths::{folded_case, join_path, nested_in, normalized_overlap, paths_overlap, verbatim_for};
use reflet::scan::{build_globset, is_ignored, normalize_rel, pair_globset, pair_ignore_patterns, scanned_entry, with_content};
use reflet::text::{decimal_string, is_blank, trim};
use reflet::textmap::TextMap;

fn strings(v: &[&str]) -> Vec<String> {
    v.iter().map(|s| s.to_string()).collect()
}

#[test]
fn blake3_and_crc_of_known_inputs() {
    assert_eq!(
        hex_lower(&content_digest(b"abc")),
        "6437b3ac38465133ffb63b75273a8db548c558465d79db03fd359c6cd5bd9d85"
    );
    assert_eq!(content_crc(b"123456789"), 0xCBF4_3926);
    assert_eq!(hex_lower(&[0x00, 0xab, 0x0f]), "00ab0f");
    let mut out: Vec<u8> = vec![9];
    push_le_u64(&mut out, 0x0102_0304_0506_0708);
    assert_eq!(out, vec![9, 8, 7, 6, 5, 4, 3, 2, 1]);
}

#[test]
fn text_helpers() {
    assert_eq!(trim("  a b \t"), "a b");
    assert!(is_blank(" \n\t "));
    assert!(!is_blank(" x "));
    assert_eq!(decimal_string(0), "0");
    assert_eq!(decimal_string(1234567890123), "1234567890123");
}

#[test]
fn paths_join_nest_and_verbatim() {
    assert_eq!(join_path("/a", "b", '/'), "/a/b");
    assert_eq!(join_path("/a/", "b", '/'), "/a/b");
    assert_eq!(join_path("", "b", '/'), "b");
    assert_eq!(join_path("C:\\x", "b", '\\'), "C:\\x\\b");
    assert_eq!(join_path("C:/x/", "b", '\\'), "C:/x/b");
    assert!(nested_in("/a/b", "/a", '/'));
    assert!(!nested_in("/ab", "/a", '/'));
    assert!(!nested_in("/a", "/a", '/'));
    assert!(normalized_overlap("/a", "/a", '/'));
    assert!(normalized_overlap("/a", "/a/b/c", '/'));
    assert!(normalized_overlap("/a/b/c", "/a", '/'));
    assert!(!normalized_overlap("/a/b", "/a/c", '/'));
    assert!(paths_overlap("/reflet_m/p", "/reflet_m/p/q"));
    assert!(!paths_overlap("/reflet_m/p", "/reflet_m/q"));
}

#[test]
fn verbatim_paths() {
    assert_eq!(verbatim_for("C:/a/b", true), "\\\\?\\C:\\a\\b");
    assert_eq!(verbatim_for("//srv/share", true), "\\\\srv\\share");
    assert_eq!(verbatim_for("/a/b", false), "/a/b");
    let once = verbatim_for("D:/x. ", true);
    assert_eq!(verbatim_for(&once, true), once);
}

#[test]
fn compression_catalog() {
    assert!(supports_password("7z"));
    assert!(!supports_password("tar.gz"));
    assert!(is_builtin("deflate"));
    assert!(!is_builtin("store"));
    assert_eq!(archive_extension("tar.zst"), ".tar.zst");
    assert_eq!(archive_extension("whatever"), ".zip");
    assert_eq!(clamp_level(0, 1, 9), 1);
    let tools = ToolAvailability { zpaq: false, seven_zip: true, rar: false, tar: true };
    let all = detect_methods(&tools);
    assert_eq!(all.len(), 11);
    assert_eq!(all[0].id, "zpaq");
    assert!(!all[0].available);
    assert!(all[1].available);
    let builtin: Vec<&str> = all.iter().filter(|m| m.builtin).map(|m| m.id.as_str()).collect();
    assert_eq!(builtin, vec!["zstd", "bzip2", "deflate"]);
    assert!(all.iter().filter(|m| m.builtin).all(|m| m.available && m.extension == ".zip"));
    let m = method("rar", "WinRAR", ".rar", "Ultra", 3, 5, true, false, "u");
    assert!(m.supports_password);
}

#[test]
fn external_commands() {
    let c = build_external("7z", 12, Some("  pw "), "/src", "/out.7z").ok().unwrap();
    assert_eq!(c.program, "7z");
    assert_eq!(c.args, strings(&["a", "-t7z", "-mx=9", "-y", "-ppw", "-mhe=on", "/out.7z", "/src\\*"]));
    let t = build_external("tar.gz", 0, Some("ignored"), "/src", "/o.tgz").ok().unwrap();
    assert_eq!(t.program, "tar");
    assert_eq!(t.args, strings(&["-czf", "/o.tgz", "-C", "/src", "."]));
    let z = build_external("zpaq", 0, None, "/s", "/o").ok().unwrap();
    assert_eq!(z.args, strings(&["a", "/o", "/s\\*", "-m1"]));
    assert_eq!(build_external("deflate", 6, None, "/s", "/o").err(), Some("format externe inconnu : deflate".to_string()));
    assert!(external_result("7z", ToolRun::Finished { success: true, stderr: String::new() }).is_ok());
    assert_eq!(
        external_result("7z", ToolRun::Finished { success: false, stderr: " bad \n".to_string() }).err(),
        Some("7z : bad".to_string())
    );
    assert_eq!(
        external_result("rar", ToolRun::NotStarted { error: "nope".to_string() }).err(),
        Some("outil « rar » introuvable : nope".to_string())
    );
}

#[test]
fn ignore_patterns_and_scan_entries() {
    let set = build_globset(&strings(&["**/*.tmp", "  ", "[", "**/.git/**"]));
    assert!(is_ignored(&set, "a/b.tmp"));
    assert!(is_ignored(&set, "x/.git/config"));
    assert!(!is_ignored(&set, "a/b.txt"));
    let s = Settings::default();
    let p = SyncPair {
        id: "p".to_string(),
        name: "n".to_string(),
        source: "/s".to_string(),
        destination: "/d".to_string(),
        enabled: true,
        interval_sec_override: None,
        notify_pc: false,
        notify_app: false,
        ignore_patterns: strings(&["*.log"]),
        watch_realtime: false,
        schedule_times: vec![],
        min_file_size: 0,
        max_file_size: 0,
        color: String::new(),
        compression: reflet::compression::CompressionConfig::default(),
        backup_mode: false,
        last_run: None,
    };
    let pats = pair_ignore_patterns(&p, &s);
    assert_eq!(pats.len(), 6);
    assert_eq!(pats[5], "*.log");
    let g = pair_globset(&p, &s);
    assert!(is_ignored(&g, "app.log"));
    assert!(is_ignored(&g, "d/Thumbs.db"));
    assert_eq!(normalize_rel("a\\b\\c"), "a/b/c");
    let e = scanned_entry("d\\f", true, 99, 5);
    assert_eq!(e.rel, "d/f");
    assert_eq!(e.size, 0);
    let f = with_content(scanned_entry("x", false, 3, 1), b"abc");
    assert_eq!(hex_lower(&f.digest.unwrap()), "6437b3ac38465133ffb63b75273a8db548c558465d79db03fd359c6cd5bd9d85");
}

#[test]
fn sorting_is_stable_by_rank_then_text() {
    let keys = vec![
        SortKey { rank: 1, text: vec!['b'] },
        SortKey { rank: 0, text: vec!['z'] },
        SortKey { rank: 1, text: vec!['a'] },
        SortKey { rank: 1, text: vec!['b'] },
    ];
    assert_eq!(sort_by_keys(&keys), vec![1, 2, 0, 3]);
}

#[test]
fn text_map_last_binding_wins() {
    let m: TextMap<u64> = TextMap::from_list(&vec![("b".to_string(), 1u64), ("a".to_string(), 2u64), ("b".to_string(), 3u64)]);
    assert_eq!(m.len(), 2);
    let a: Vec<char> = "a".chars().collect();
    let b: Vec<char> = "b".chars().collect();
    let c: Vec<char> = "c".chars().collect();
    assert_eq!(m.find(&a), Some(2));
    assert_eq!(m.find(&b), Some(3));
    assert_eq!(m.find(&c), None);
    assert_eq!(m.key_at(0), &a);
}

#[test]
fn folded_case_lowers_only_when_asked() {
    assert_eq!(folded_case("C:\\Users\\Ada", true), "c:\\users\\ada");
    assert_eq!(folded_case("/Home/Ada", false), "/Home/Ada");
}

#[test]
fn whitespace_matches_std_on_the_first_planes() {
    for u in 0u32..0x3100 {
        if let Some(c) = char::from_u32(u) {
            assert_eq!(is_blank(&c.to_string()), c.is_whitespace(), "U+{u:04X}");
        }
    }
    assert!(is_blank("\u{3000}\t"));
    assert!(!is_blank("\u{200B}"));
}
