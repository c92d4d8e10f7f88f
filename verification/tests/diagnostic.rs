use trek::diagnostic::{frame_line_style, Codeframe, Diagnostic, FrameLineStyle, Severity, Span};

const SOURCE: &str = "fx_version 'cerulean'\ngame 'gta5'\nversion = ~\nauthor 'x'\n";

#[test]
fn renders_location_header_and_caret() {
    let frame = Codeframe::new(3, 11).render(SOURCE, Some("fxmanifest.lua"));

    let expected = [
        "  --> fxmanifest.lua:3:11\n",
        "  |\n",
        "2 | game 'gta5'\n",
        "3 | version = ~\n",
        "  |           ^\n",
        "4 | author 'x'\n",
    ]
    .concat();
    assert_eq!(frame, expected);
}

#[test]
fn clamps_caret_beyond_line_length() {
    let frame = Codeframe::new(1, 999).render("abc", None);
    assert_eq!(frame, "  |\n1 | abc\n  |    ^\n");
}

#[test]
fn zero_context_renders_single_line() {
    let frame = Codeframe::new(2, 2).context_lines(0).render("a\nb\nc", None);
    assert_eq!(frame, "  |\n2 | b\n  |  ^\n");
}

#[test]
fn line_one_has_no_context_above() {
    let frame = Codeframe::new(1, 1).render("a\nb\nc", None);
    assert!(frame.starts_with("  |\n1 | a\n"));
    assert!(!frame.contains('c'), "{frame}");
}

#[test]
fn range_indicator_uses_tildes() {
    let frame = Codeframe::new(1, 8).end_col(15).render("version '1.0", None);
    assert!(frame.contains("~~~~~"), "{frame}");
    assert!(!frame.contains('^'), "{frame}");
}

#[test]
fn range_indicator_single_char() {
    let frame = Codeframe::new(1, 1).end_col(2).render("ab", None);
    assert!(frame.contains('~'), "{frame}");
    assert!(!frame.contains('^'), "{frame}");
}

#[test]
fn tab_characters_expand_in_indicator() {
    let frame = Codeframe::new(1, 5).render("\tval", None);
    assert!(frame.contains("    ^"), "{frame}");
}

#[test]
fn render_diagnostic_includes_header() {
    let frame = Codeframe::new(1, 1);
    let out = frame.render_diagnostic(
        "hello\nworld",
        Some("test.lua"),
        Severity::Error,
        "SyntaxError",
        "something went wrong",
    );
    assert!(out.starts_with("[error] SyntaxError: something went wrong"), "{out}");
    assert!(out.contains("--> test.lua:1:1"), "{out}");
    assert!(out.contains("1 | hello"), "{out}");
    assert!(out.contains("2 | world"), "{out}");
}

#[test]
fn wide_gutter_for_two_digit_lines() {
    let text = "1\n2\n3\n4\n5\n6\n7\n8\n9\n10\n11\n";
    let frame = Codeframe::new(10, 2).render(text, None);
    assert_eq!(frame, "   |\n 9 | 9\n10 | 10\n   |  ^\n11 | 11\n");
}

#[test]
fn warning_label_and_spans() {
    assert_eq!(Severity::Warning.label(), "warning");
    assert_eq!(Severity::Error.label(), "error");
    let d = Diagnostic::warning("w".to_string()).at(2, 3);
    assert_eq!(d.severity, Severity::Warning);
    assert_eq!(d.span, Some(Span::single(2, 3)));
    let r = Diagnostic::error("e".to_string()).range(1, 2, 3, 4);
    assert_eq!(r.span, Some(Span::range(1, 2, 3, 4)));
    assert_eq!(r.message, "e");
}

#[test]
fn frame_lines_are_styled_by_role() {
    let frame = Codeframe::new(3, 11).render(SOURCE, Some("fxmanifest.lua"));
    let styles: Vec<FrameLineStyle> = frame
        .lines()
        .enumerate()
        .map(|(i, l)| frame_line_style(i, l))
        .collect();
    assert_eq!(
        styles,
        vec![
            FrameLineStyle::Gutter,
            FrameLineStyle::Gutter,
            FrameLineStyle::Source,
            FrameLineStyle::Source,
            FrameLineStyle::Marker,
            FrameLineStyle::Source,
        ]
    );
    assert_eq!(frame_line_style(5, "  |  "), FrameLineStyle::Gutter);
}

#[test]
fn diagnostic_text_has_label_and_message() {
    assert_eq!(Diagnostic::error("bad".to_string()).text(), "error: bad");
    assert_eq!(Diagnostic::warning("hm".to_string()).at(1, 1).text(), "warning: hm");
}

#[test]
fn end_column_before_column_still_draws_tildes() {
    let frame = Codeframe::new(1, 5).end_col(3).render("abcdef", None);
    assert_eq!(frame, "  |\n1 | abcdef\n  |     ~\n");
    let frame = Codeframe::new(1, 4).end_col(4).render("abcdef", None);
    assert!(frame.ends_with("  |    ~\n"), "{frame}");
}

#[test]
fn diagnostic_is_header_frame_and_closing_gutter() {
    let text = "1\n2\n3\n4\n5\n6\n7\n8\n9\n10\n11\n";
    let frame = Codeframe::new(10, 2);
    let out = frame.render_diagnostic(text, Some("a.lua"), Severity::Warning, "Lint", "odd");
    let expected = format!("[warning] Lint: odd\n{}   |\n", frame.render(text, Some("a.lua")));
    assert_eq!(out, expected);
}
