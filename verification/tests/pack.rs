use std::path::PathBuf;
use std::path::Path;
use trek::pack::{
    archive_name, compute_sha256, format_size, generate_markdown_report, hex_string,
    matches_pattern, pack_summary, parse_include_patterns, relative_path, segment_matches,
    should_include, total_size, PackedEntry,
};
use trek::scaffold::DEFAULT_TREK_PACK;

#[test]
fn test_parse_include_patterns() {
    let content = r#"
# Comment line
fxmanifest.lua
config/**/*.lua

src/**/*.lua
# Another comment
ui/**
"#;
    let patterns = parse_include_patterns(content);
    assert_eq!(
        patterns,
        vec!["fxmanifest.lua", "config/**/*.lua", "src/**/*.lua", "ui/**"]
    );
}

#[test]
fn test_matches_pattern_exact() {
    assert!(matches_pattern("fxmanifest.lua", "fxmanifest.lua"));
    assert!(!matches_pattern("fxmanifest.lua", "config.lua"));
    assert!(!matches_pattern("src/fxmanifest.lua", "fxmanifest.lua"));
}

#[test]
fn test_matches_pattern_wildcards() {
    assert!(matches_pattern("config/share.lua", "config/**/*.lua"));
    assert!(matches_pattern("config/nested/deep/file.lua", "config/**/*.lua"));
    assert!(!matches_pattern("config/nested/deep/file.txt", "config/**/*.lua"));
    assert!(matches_pattern("ui/index.html", "ui/**"));
    assert!(matches_pattern("ui/dist/assets/index.js", "ui/**"));
    assert!(!matches_pattern("server/ui/index.html", "ui/**"));
}

#[test]
fn test_segment_matches() {
    assert!(segment_matches("*", "anything"));
    assert!(segment_matches("*.lua", "main.lua"));
    assert!(segment_matches("prefix_*.lua", "prefix_test.lua"));
    assert!(!segment_matches("prefix_*.lua", "other_test.lua"));
    assert!(segment_matches("exact", "exact"));
    assert!(!segment_matches("exact", "other"));
}

#[test]
fn test_should_include() {
    let base = "/workspace/my_res";
    let patterns = vec!["fxmanifest.lua".to_string(), "src/**/*.lua".to_string()];

    let manifest = "/workspace/my_res/fxmanifest.lua";
    let client_lua = "/workspace/my_res/src/client/client.lua";
    let git_file = "/workspace/my_res/.git/config";
    let node_modules = "/workspace/my_res/ui/node_modules/foo.js";

    assert!(should_include(manifest, base, &patterns));
    assert!(should_include(client_lua, base, &patterns));
    assert!(!should_include(git_file, base, &patterns));
    assert!(!should_include(node_modules, base, &patterns));
}

#[test]
fn test_format_size() {
    assert_eq!(format_size(500), "500 B");
    assert_eq!(format_size(1024), "1.0 KB");
    assert_eq!(format_size(1536), "1.5 KB");
    assert_eq!(format_size(1048576), "1.00 MB");
    assert_eq!(format_size(1073741824), "1.00 GB");
}

#[test]
fn test_generate_markdown_report() {
    let entries = vec![
        PackedEntry {
            relative_path: "fxmanifest.lua".to_string(),
            full_path: PathBuf::from("/path/fxmanifest.lua"),
            size_bytes: 474,
        },
        PackedEntry {
            relative_path: "src/client/client.lua".to_string(),
            full_path: PathBuf::from("/path/src/client/client.lua"),
            size_bytes: 1024,
        },
    ];

    let md = generate_markdown_report("test_res", "./test_res.zip", &entries, 1498, 25, false, None);

    assert!(md.contains("# Pack Report: test_res"));
    assert!(md.contains("- **Status:** Complete"));
    assert!(!md.contains("SHA256"));
    assert!(md.contains("- **Archive Output:** `./test_res.zip`"));
    assert!(md.contains("- **Files Packed:** 2"));
    assert!(md.contains("- **Elapsed Time:** 25ms"));
    assert!(md.contains("| `fxmanifest.lua` | 474 B |"));
    assert!(md.contains("| `src/client/client.lua` | 1.0 KB |"));
}

/// `format_size` as the `f64` formatting it stands for.
fn float_size(bytes: u64) -> String {
    const KB: u64 = 1024;
    const MB: u64 = 1024 * KB;
    const GB: u64 = 1024 * MB;
    if bytes >= GB {
        format!("{:.2} GB", bytes as f64 / GB as f64)
    } else if bytes >= MB {
        format!("{:.2} MB", bytes as f64 / MB as f64)
    } else if bytes >= KB {
        format!("{:.1} KB", bytes as f64 / KB as f64)
    } else {
        format!("{} B", bytes)
    }
}

#[test]
fn format_size_agrees_with_float_formatting() {
    let mut samples: Vec<u64> = vec![
        0,
        1,
        1023,
        1024,
        1075,
        1280,
        1331,
        1536,
        1048575,
        1048576,
        1053818,
        5767168,
        1073741823,
        1073741824,
        1084479242,
        5368709120,
        (1 << 53) - 1,
        1 << 53,
        (1 << 53) + 1,
        (1 << 53) + 3,
        (1 << 60) + 12345,
        u64::MAX - 1,
        u64::MAX,
    ];
    let mut x: u64 = 0x9e37_79b9_7f4a_7c15;
    for _ in 0..20000 {
        x ^= x << 13;
        x ^= x >> 7;
        x ^= x << 17;
        samples.push(x >> (x % 64));
        samples.push(x % 4096 * 1024 + x % 7);
    }
    for b in samples {
        assert_eq!(format_size(b), float_size(b), "{b}");
    }
}

#[test]
fn format_size_ties_round_to_even() {
    assert_eq!(format_size(1280), "1.2 KB");
    assert_eq!(format_size(1331), "1.3 KB");
    assert_eq!(format_size(1023), "1023 B");
    assert_eq!(format_size(5368709120), "5.00 GB");
    assert_eq!(format_size(u64::MAX), "17179869184.00 GB");
}

#[test]
fn report_with_checksum_and_dry_run() {
    let entries = vec![PackedEntry {
        relative_path: "a.lua".to_string(),
        full_path: PathBuf::from("/r/a.lua"),
        size_bytes: 2048,
    }];
    let md = generate_markdown_report("r", "dist/r.zip", &entries, 2048, 7, true, Some("abc"));
    let expected = "# Pack Report: r\n\n- **Status:** Dry Run (Simulated)\n- **Archive Output:** `dist/r.zip`\n- **Files Packed:** 1\n- **Total Size:** 2.0 KB (2048 bytes)\n- **Elapsed Time:** 7ms\n- **SHA256:** `abc`\n\n### Included Files\n\n| File | Size |\n| :--- | :--- |\n| `a.lua` | 2.0 KB |\n";
    assert_eq!(md, expected);
}

#[test]
fn summary_names_files_size_and_archive() {
    assert_eq!(
        pack_summary(true, 3, 1536, "dist/x.zip", 12),
        "[DRY RUN] Would pack 3 files (1.5 KB) into 'dist/x.zip' (12ms)"
    );
    assert_eq!(
        pack_summary(false, 0, 0, "x.zip", 0),
        "Packed 0 files (0 B) into 'x.zip' (0ms)"
    );
    assert_eq!(archive_name("my_res"), "my_res.zip");
}

#[test]
fn total_size_adds_entry_sizes() {
    let entries = vec![
        PackedEntry { relative_path: "a".to_string(), full_path: PathBuf::from("a"), size_bytes: 474 },
        PackedEntry { relative_path: "b".to_string(), full_path: PathBuf::from("b"), size_bytes: 1024 },
    ];
    assert_eq!(total_size(&entries), 1498);
    assert_eq!(total_size(&[]), 0);
}

#[test]
fn sha256_of_known_inputs() {
    assert_eq!(
        compute_sha256(b""),
        "e3b0c44298fc1c149afbf4c8996fb92427ae41e4649b934ca495991b7852b855"
    );
    assert_eq!(
        compute_sha256(b"abc"),
        "ba7816bf8f01cfea414140de5dae2223b00361a396177a9cb410ff61f20015ad"
    );
    assert_eq!(hex_string(&[0x0a, 0x14, 0x1e, 0xff]), "0a141eff");
}

#[test]
fn patterns_and_paths_edge_cases() {
    assert!(matches_pattern("ui", "ui/**"));
    assert!(matches_pattern("a/b", "**"));
    assert!(matches_pattern("x/y/z.lua", "**/*.lua"));
    assert!(!matches_pattern("x/y/z.lua", "*.lua"));
    assert!(segment_matches("a*a", "aa"));
    assert!(!segment_matches("ab*ba", "aba"));
    assert!(segment_matches("*x", "x"));
    let patterns = vec!["*.lua".to_string()];
    assert!(should_include("/r/x.lua", "/r/", &patterns));
    assert!(!should_include("C:\\r\\x.lua", "C:\\r", &patterns));
    assert!(!should_include("/other/x.lua", "/r", &patterns));
    assert!(should_include("/r/x.lua", "/r", &patterns));
}

#[test]
fn default_pack_selects_generated_sources() {
    let patterns = parse_include_patterns(DEFAULT_TREK_PACK);
    assert_eq!(patterns, vec!["fxmanifest.lua", "config/**/*.lua", "src/**/*.lua"]);
    for file in [
        "fxmanifest.lua",
        "src/client/client.lua",
        "src/server/server.lua",
        "src/shared/utils.lua",
        "config/share.lua",
        "config/client.lua",
        "config/server.lua",
    ] {
        let path = format!("/w/res/{file}");
        assert!(should_include(&path, "/w/res", &patterns), "{file}");
    }
    assert!(!should_include("/w/res/.pack", "/w/res", &patterns));
    assert!(!should_include("/w/res/stylua.toml", "/w/res", &patterns));
}

/// The archive path as `Path::strip_prefix` gives it.
fn std_relative(path: &str, base: &str) -> String {
    let p = Path::new(path);
    p.strip_prefix(base).unwrap_or(p).to_string_lossy().replace('\\', "/")
}

#[test]
fn relative_path_follows_path_components() {
    let paths = [
        "", "/", "//", ".", "./", "./a", "a", "a/", "a/b", "a//b", "a/./b", "/r", "/r/", "/r/x.lua",
        "/r//x.lua", "/r/./x.lua", "/r/a//b.lua", "/r/a/./b/", "/r/.", "/rx/a", "/r/..", "/r/../x",
        "//r///x//", "r/x", "./r/x", "C:\\r\\x.lua", "/r/x.lua/.", "/r/.hidden", "/r/./",
    ];
    let bases = [
        "", "/", "//", ".", "./", "a", "a/", "/r", "/r/", "/r/.", "/r//", "r", "./r", "/r/x.lua",
        "/rx", "C:\\r", "/r/..", "a/b",
    ];
    for p in paths {
        for b in bases {
            assert_eq!(relative_path(p, b), std_relative(p, b), "path {p:?} base {b:?}");
        }
    }
}

#[test]
fn doubled_separators_and_dots_still_included() {
    let patterns = vec!["*.lua".to_string()];
    assert!(should_include("/r//x.lua", "/r", &patterns));
    assert!(should_include("/r/./x.lua", "/r", &patterns));
    assert!(!should_include("/x.lua", "", &patterns));
}

#[test]
fn report_reads_back_line_by_line() {
    let entries = vec![
        PackedEntry {
            relative_path: "fxmanifest.lua".to_string(),
            full_path: PathBuf::from("/r/fxmanifest.lua"),
            size_bytes: 10,
        },
        PackedEntry {
            relative_path: "web/dist/index.html".to_string(),
            full_path: PathBuf::from("/r/web/dist/index.html"),
            size_bytes: 3 * 1024 * 1024,
        },
    ];
    let md = generate_markdown_report("res", "out/res.zip", &entries, 3145738, 12, false, None);
    let got: Vec<&str> = md.lines().collect();
    let expected = vec![
        "# Pack Report: res",
        "",
        "- **Status:** Complete",
        "- **Archive Output:** `out/res.zip`",
        "- **Files Packed:** 2",
        "- **Total Size:** 3.00 MB (3145738 bytes)",
        "- **Elapsed Time:** 12ms",
        "",
        "### Included Files",
        "",
        "| File | Size |",
        "| :--- | :--- |",
        "| `fxmanifest.lua` | 10 B |",
        "| `web/dist/index.html` | 3.00 MB |",
    ];
    assert_eq!(got, expected);
}
