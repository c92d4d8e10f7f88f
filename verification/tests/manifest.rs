use trek::ast::{Game, Key, Statement};
use trek::diagnostic::Severity;
use trek::lexer::{Lexer, TokenKind};
use trek::lint::{count_errors, file_entries, lint_manifest, validation_outcome};
use trek::manifest::{parse, Error, Source};

#[test]
fn crate_example_parses_version() {
    let manifest = parse("fx_version 'cerulean'\nversion '1.2.3'\n").unwrap();
    assert_eq!(manifest.fx_version.as_deref(), Some("cerulean"));
    assert_eq!(manifest.version(), Some("1.2.3"));
    assert!(manifest.values(&Key::ClientScripts).is_empty());
}

#[test]
fn declaration_forms_and_tables() {
    let text = "fx_version 'cerulean'\ngame \"gta5\"\nlua54 = 'yes'\nclient_scripts {\n  'a.lua',\n  'b.lua',\n}\nserver_script('s.lua')\nfiles('x', 'y')\n-- comment\ndescription 'd'\n";
    let m = parse(text).unwrap();
    assert_eq!(m.game, Some(Game::Gta5));
    assert_eq!(m.get(&Key::Lua54), Some("yes"));
    assert_eq!(m.client_scripts(), vec!["a.lua", "b.lua"]);
    assert_eq!(m.server_scripts(), vec!["s.lua"]);
    assert_eq!(m.values(&Key::Files), vec!["x", "y"]);
    assert_eq!(m.description(), Some("d"));
    assert!(m.shared_scripts().is_empty());
    assert_eq!(
        m.statements[0],
        Statement::Scalar { key: Key::FxVersion, value: "cerulean".to_string() }
    );
}

#[test]
fn lexer_ends_with_one_eof_and_collapses_blank_lines() {
    let tokens = Lexer::new("a 'b'\n\n\n\nc 'd'\n\n").tokenize().unwrap();
    let kinds: Vec<TokenKind> = tokens.iter().map(|t| t.kind.clone()).collect();
    assert_eq!(kinds.iter().filter(|k| **k == TokenKind::Eof).count(), 1);
    assert_eq!(*kinds.last().unwrap(), TokenKind::Eof);
    for w in kinds.windows(2) {
        assert!(!(w[0] == TokenKind::Newline && w[1] == TokenKind::Newline));
    }
}

#[test]
fn lex_error_points_at_character() {
    let err = parse("fx_version 'cerulean'\ngame 'gta5'\nversion = ~\n").unwrap_err();
    match &err {
        Error::Lex(e) => {
            assert_eq!((e.line, e.col), (3, 11));
            assert_eq!(e.message, "unexpected character '~'");
        }
        Error::Parse(_) => panic!("expected a lex error"),
    }
    assert_eq!(err.text(), "lex error at 3:11: unexpected character '~'");
    let (line, col, message) = err.location();
    assert_eq!((line, col), (3, 11));
    assert_eq!(message, "unexpected character '~'");
}

#[test]
fn parse_error_reports_location() {
    let err = parse("version 'a' 'b'\n").unwrap_err();
    assert!(matches!(err, Error::Parse(_)));
    assert!(err.text().starts_with("parse error at 1:"));
    let err = parse("'x'\n").unwrap_err();
    assert!(err.text().contains("expected a declaration key"));
    assert!(parse("author 'unterminated\n").is_err());
}

#[test]
fn key_names_round_trip() {
    for name in [
        "fx_version", "game", "author", "description", "version", "client_scripts",
        "server_scripts", "shared_scripts", "files", "dependency", "dependencies", "lua54",
        "something_else",
    ] {
        assert_eq!(Key::parse(name).as_str(), name);
    }
    assert_eq!(Key::parse("client_script"), Key::ClientScripts);
}

#[test]
fn source_wraps_text() {
    let s = Source::new("abc");
    assert_eq!(s.as_str(), "abc");
    assert_eq!(s.len(), 3);
    assert!(!s.is_empty());
    assert!(Source::new("").is_empty());
}

#[test]
fn lint_reports_problems_in_rule_order() {
    let text = "game 'gta5'\nauthor 'Trek'\n\nclient_scripts {\n    'missing_client.lua',\n    'missing_client.lua',\n}\n\nshared_script '@es_extended/imports.lua'\n";
    let m = parse(text).unwrap();
    let entries = file_entries(&m);
    assert_eq!(entries, vec!["missing_client.lua", "missing_client.lua"]);
    let diagnostics = lint_manifest(&m, &vec![]);
    let messages: Vec<(Severity, String)> =
        diagnostics.iter().map(|d| (d.severity, d.message.clone())).collect();
    assert_eq!(
        messages,
        vec![
            (Severity::Error, "missing required declaration 'fx_version'".to_string()),
            (Severity::Warning, "'lua54' is not enabled; FiveM expects lua54 'yes'".to_string()),
            (
                Severity::Error,
                "'client_scripts' entry 'missing_client.lua' does not exist on disk".to_string()
            ),
            (
                Severity::Error,
                "'client_scripts' entry 'missing_client.lua' does not exist on disk".to_string()
            ),
            (
                Severity::Error,
                "duplicate entry 'missing_client.lua' in 'client_scripts'".to_string()
            ),
            (
                Severity::Warning,
                "'es_extended' is referenced by scripts but not declared under dependency/dependencies"
                    .to_string()
            ),
        ]
    );
    assert_eq!(count_errors(&diagnostics), 4);
    assert_eq!(
        validation_outcome(&diagnostics, "fxmanifest.lua", 3),
        "4 error(s), 2 warning(s) in 'fxmanifest.lua' (3ms)"
    );
}

#[test]
fn clean_manifest_has_no_issues() {
    let text = "fx_version 'cerulean'\ngame 'gta5'\nlua54 'yes'\nclient_script 'c.lua'\nshared_scripts { '@qb-core/shared/locale.lua', 'config/*.lua' }\ndependency 'QB-CORE '\n";
    let m = parse(text).unwrap();
    let diagnostics = lint_manifest(&m, &vec!["c.lua".to_string()]);
    assert!(diagnostics.is_empty(), "{:?}", diagnostics);
    assert_eq!(validation_outcome(&diagnostics, "f.lua", 0), "No issues found in 'f.lua' (0ms)");
}

#[test]
fn unknown_values_and_repeats_warn() {
    let text = "fx_version 'bodacious'\ngame 'rdr3x'\nlua54 'yes'\nauthor 'a'\nauthor 'b'\nauthor 'c'\n";
    let m = parse(text).unwrap();
    let diagnostics = lint_manifest(&m, &vec![]);
    let messages: Vec<String> = diagnostics.iter().map(|d| d.message.clone()).collect();
    assert_eq!(
        messages,
        vec![
            "unknown fx_version 'bodacious' (expected \"cerulean\")".to_string(),
            "unknown game 'rdr3x'".to_string(),
            "declaration 'author' appears 3 times".to_string(),
        ]
    );
    assert_eq!(count_errors(&diagnostics), 0);
}

#[test]
fn line_breaks_yield_newline_tokens_at_their_positions() {
    let input = "fx_version 'cerulean' -- note\n\n  game 'gta5'\n";
    let tokens = Lexer::new(input).tokenize().unwrap();
    let newlines: Vec<(usize, usize)> = tokens
        .iter()
        .filter(|t| t.kind == TokenKind::Newline)
        .map(|t| (t.line, t.col))
        .collect();
    // The blank second line adds no token of its own.
    assert_eq!(newlines, vec![(1, 30), (3, 14)]);
    let last = tokens.last().unwrap();
    assert_eq!((last.kind.clone(), last.line, last.col), (TokenKind::Eof, 4, 1));
}
