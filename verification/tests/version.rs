use trek::version::{
    extract_version, manifest_version, update_manifest_version, BumpType, SemVer, SemVerError,
    VersionError,
};

#[test]
fn test_semver_parse_and_bumps() {
    let mut v = SemVer::parse("1.2.3").unwrap();
    v.bump(BumpType::Patch);
    assert_eq!(v.to_version_string(), "1.2.4");

    let mut v = SemVer::parse("1.2.3").unwrap();
    v.bump(BumpType::Minor);
    assert_eq!(v.to_version_string(), "1.3.0");

    let mut v = SemVer::parse("1.2.3").unwrap();
    v.bump(BumpType::Major);
    assert_eq!(v.to_version_string(), "2.0.0");
}

#[test]
fn test_semver_parse_prerelease_and_build() {
    let mut v = SemVer::parse("1.0.0-beta.1+build.123").unwrap();
    assert_eq!(v.major, 1);
    assert_eq!(v.minor, 0);
    assert_eq!(v.patch, 0);
    assert_eq!(v.prerelease, Some("beta.1".to_string()));
    assert_eq!(v.build, Some("build.123".to_string()));

    v.bump(BumpType::Patch);
    assert_eq!(v.to_version_string(), "1.0.1+build.123");
}

#[test]
fn test_manifest_attribute_syntax_single_quote() {
    let manifest = "fx_version 'cerulean'\nversion '1.0.0'\nauthor 'Trek'";
    let (updated, old_v, new_v) = update_manifest_version(manifest, BumpType::Patch).unwrap();
    assert_eq!(old_v, "1.0.0");
    assert_eq!(new_v, "1.0.1");
    assert_eq!(updated, "fx_version 'cerulean'\nversion '1.0.1'\nauthor 'Trek'");
}

#[test]
fn test_manifest_attribute_syntax_double_quote() {
    let manifest = "fx_version \"cerulean\"\nversion \"2.4.9\"\nauthor \"Trek\"";
    let (updated, old_v, new_v) = update_manifest_version(manifest, BumpType::Minor).unwrap();
    assert_eq!(old_v, "2.4.9");
    assert_eq!(new_v, "2.5.0");
    assert_eq!(updated, "fx_version \"cerulean\"\nversion \"2.5.0\"\nauthor \"Trek\"");
}

#[test]
fn test_manifest_function_syntax() {
    let manifest = "fx_version('cerulean')\nversion('0.1.5')\nauthor('Trek')";
    let (updated, old_v, new_v) = update_manifest_version(manifest, BumpType::Major).unwrap();
    assert_eq!(old_v, "0.1.5");
    assert_eq!(new_v, "1.0.0");
    assert_eq!(updated, "fx_version('cerulean')\nversion('1.0.0')\nauthor('Trek')");
}

#[test]
fn test_manifest_assignment_syntax_with_comments() {
    let manifest = "version = '3.1.2' -- current release version";
    let (updated, old_v, new_v) = update_manifest_version(manifest, BumpType::Patch).unwrap();
    assert_eq!(old_v, "3.1.2");
    assert_eq!(new_v, "3.1.3");
    assert_eq!(updated, "version = '3.1.3' -- current release version");
}

#[test]
fn test_extract_version_all_syntaxes() {
    let cases = [
        ("version '1.0.0'", "1.0.0"),
        ("version \"2.3.4\"", "2.3.4"),
        ("version('0.5.9')", "0.5.9"),
        ("version = '3.1.2' -- comment", "3.1.2"),
    ];

    for (content, expected) in cases {
        assert_eq!(extract_version(content).unwrap(), expected);
    }
}

#[test]
fn test_extract_version_prefers_first_match_and_skips_comments() {
    let manifest = "fx_version 'cerulean'\n-- version '9.9.9'\nversion '1.2.3'\nversion '4.5.6'";
    assert_eq!(extract_version(manifest).unwrap(), "1.2.3");
}

#[test]
fn test_no_version_found_errors() {
    let manifest = "fx_version 'cerulean'\nauthor 'Trek'";
    let result = update_manifest_version(manifest, BumpType::Patch);
    assert!(result.is_err());
}

#[test]
fn test_invalid_semver_errors() {
    let manifest = "version 'not_a_semver'";
    let result = update_manifest_version(manifest, BumpType::Patch);
    assert!(result.is_err());
}

#[test]
fn test_semver_parse_to_string_round_trip() {
    let test_cases = [
        "0.0.0",
        "1.2.3",
        "10.20.30",
        "1.0.0-alpha",
        "1.0.0-alpha.1",
        "1.0.0-0.3.7",
        "1.0.0-x.7.z.92",
        "1.0.0+20130313144700",
        "1.0.0-beta+exp.sha.5114f85",
        "v1.2.3",
    ];

    for &case in &test_cases {
        let parsed = SemVer::parse(case).expect("Should parse valid SemVer");
        let serialized = parsed.to_version_string();
        let round_tripped = SemVer::parse(&serialized).expect("Should parse serialized SemVer");
        assert_eq!(parsed, round_tripped);
    }
}

#[test]
fn test_manifest_sequential_round_trip_bumping() {
    let mut manifest = r#"# Generated by trek
fx_version 'cerulean'
game 'gta5'

author 'Trek Scripts'
description 'A test FiveM resource'
version '0.0.0'

client_scripts {
    'config/share.lua',
    'src/client/client.lua',
}

server_scripts {
    'config/share.lua',
    'src/server/server.lua',
}
"#
    .to_string();

    let lifecycle_bumps = [
        (BumpType::Patch, "0.0.0", "0.0.1"),
        (BumpType::Patch, "0.0.1", "0.0.2"),
        (BumpType::Minor, "0.0.2", "0.1.0"),
        (BumpType::Patch, "0.1.0", "0.1.1"),
        (BumpType::Major, "0.1.1", "1.0.0"),
        (BumpType::Minor, "1.0.0", "1.1.0"),
        (BumpType::Patch, "1.1.0", "1.1.1"),
        (BumpType::Major, "1.1.1", "2.0.0"),
    ];

    for (bump_type, expected_old, expected_new) in lifecycle_bumps {
        let (updated, old_v, new_v) =
            update_manifest_version(&manifest, bump_type).expect("Bumping should succeed");

        assert_eq!(old_v, expected_old);
        assert_eq!(new_v, expected_new);
        assert!(updated.contains(&format!("version '{}'", expected_new)));
        assert!(updated.contains("author 'Trek Scripts'"));
        assert!(updated.contains("client_scripts {"));

        manifest = updated;
    }

    assert!(manifest.contains("version '2.0.0'"));
}

#[test]
fn test_all_syntax_variations_round_trip() {
    let test_cases = [
        ("version '1.0.0'", "version '1.0.1'"),
        ("version \"1.0.0\"", "version \"1.0.1\""),
        ("version('1.0.0')", "version('1.0.1')"),
        ("version(\"1.0.0\")", "version(\"1.0.1\")"),
        ("version( '1.0.0' )", "version( '1.0.1' )"),
        ("version = '1.0.0'", "version = '1.0.1'"),
        ("version = \"1.0.0\"", "version = \"1.0.1\""),
        (
            "    version '1.0.0' -- inline comment",
            "    version '1.0.1' -- inline comment",
        ),
    ];

    for (before, expected) in test_cases {
        let (updated, old_v, new_v) =
            update_manifest_version(before, BumpType::Patch).expect("Bumping should succeed");
        assert_eq!(old_v, "1.0.0");
        assert_eq!(new_v, "1.0.1");
        assert_eq!(updated, expected);
    }
}

#[test]
fn bumped_manifest_reads_back_new_version() {
    let cases = [
        "version '1.2.3'\r\nauthor 'x'\r\n",
        "fx_version 'cerulean'\nversion \"0.9.9-rc.1+b7\"\n",
        "  version('4.0.0')  \n\n",
        "version = '1.0.0' -- old\nversion '2.0.0'",
    ];
    for content in cases {
        for bt in [BumpType::Patch, BumpType::Minor, BumpType::Major] {
            let before = extract_version(content).unwrap();
            let (updated, old_v, new_v) = update_manifest_version(content, bt).unwrap();
            assert_eq!(old_v, before);
            assert_eq!(extract_version(&updated).unwrap(), new_v);
        }
    }
}

#[test]
fn line_endings_are_kept() {
    let (updated, _, _) =
        update_manifest_version("version '1.0.0'\r\nauthor 'x'\r\n", BumpType::Patch).unwrap();
    assert_eq!(updated, "version '1.0.1'\nauthor 'x'\n");
    let (updated, _, _) = update_manifest_version("a\n\nversion '1.0.0'", BumpType::Minor).unwrap();
    assert_eq!(updated, "a\n\nversion '1.1.0'");
}

#[test]
fn version_errors_name_their_cause() {
    assert_eq!(
        update_manifest_version("author 'x'", BumpType::Patch).unwrap_err(),
        VersionError::NotFound
    );
    let err = extract_version("version '1.x.3'").unwrap_err();
    assert_eq!(err, VersionError::SemVer(SemVerError::InvalidMinor("x".to_string())));
    assert!(matches!(
        SemVer::parse("1.2"),
        Err(SemVerError::InvalidFormat(ref s)) if s == "1.2"
    ));
    assert!(matches!(SemVer::parse("a.2.3"), Err(SemVerError::InvalidMajor(_))));
    assert!(matches!(SemVer::parse("1.2.b"), Err(SemVerError::InvalidPatch(_))));
    assert_eq!(
        VersionError::NotFound.message(),
        "No valid 'version' declaration found in manifest content"
    );
    assert!(manifest_version("version 'v2.0.0'").unwrap().major == 2);
}

#[test]
fn bumping_clears_prerelease_and_keeps_build() {
    let mut v = SemVer::parse(" v3.4.5-alpha+meta ").unwrap();
    v.bump(BumpType::Minor);
    assert_eq!(v.to_version_string(), "3.5.0+meta");
    assert!(v.can_bump(BumpType::Major));
    let max = SemVer::parse("18446744073709551615.0.0").unwrap();
    assert!(!max.can_bump(BumpType::Major));
    assert!(max.can_bump(BumpType::Minor));
}

#[test]
fn bump_keeps_every_other_line() {
    let content = "fx_version 'cerulean'\r\nversion('1.0.0')\r\n\r\nauthor 'x' -- version '9.9.9'\n";
    let (updated, _, _) = update_manifest_version(content, BumpType::Major).unwrap();
    let before: Vec<&str> = content.lines().collect();
    let after: Vec<&str> = updated.lines().collect();
    assert_eq!(before.len(), after.len());
    for (j, (b, a)) in before.iter().zip(after.iter()).enumerate() {
        if j == 1 {
            assert_eq!(*a, "version('2.0.0')");
        } else {
            assert_eq!(a, b);
        }
    }
}
