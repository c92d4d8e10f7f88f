//! Diagnostics and compiler-style codeframes pointing into manifest text.
use crate::text::{
    decimal, decimal_chars, is_whitespace, is_ws, lines, pad_left, push_char, push_decimal,
    push_padded, push_str, split_lines, str_chars, trim_end,
};
use vstd::prelude::*;

verus! {

pub const DEFAULT_CONTEXT_LINES: usize = 1;

pub const TAB_WIDTH: usize = 4;

#[derive(Debug, Clone, Copy, PartialEq, Eq, Hash)]
pub enum Severity {
    Error,
    Warning,
}

/// The label of a severity.
pub open spec fn severity_label(s: Severity) -> Seq<char> {
    match s {
        Severity::Error => "error"@,
        Severity::Warning => "warning"@,
    }
}

impl Severity {
/// The label of the severity: `error` or `warning`.
    pub fn label(self) -> (r: &'static str)
        ensures
            r@ == severity_label(self),
    {
        match self {
            Severity::Error => "error",
            Severity::Warning => "warning",
        }
    }
}

#[derive(Debug, Clone, Copy, PartialEq, Eq)]
pub struct Span {
    pub line: usize,
    pub col: usize,
    pub end_line: usize,
    pub end_col: usize,
}

impl Span {
/// A span of one position.
    pub fn single(line: usize, col: usize) -> (s: Self)
        ensures
            s == (Span { line, col, end_line: line, end_col: col }),
    {
        Span { line, col, end_line: line, end_col: col }
    }

/// A span from one position to another.
    pub fn range(line: usize, col: usize, end_line: usize, end_col: usize) -> (s: Self)
        ensures
            s == (Span { line, col, end_line, end_col }),
    {
        Span { line, col, end_line, end_col }
    }
}

#[derive(Debug, Clone)]
pub struct Diagnostic {
    pub severity: Severity,
    pub message: String,
    pub span: Option<Span>,
}

impl Diagnostic {
/// An error with no span.
    pub fn error(message: String) -> (d: Self)
        ensures
            d.severity == Severity::Error,
            d.message@ == message@,
            d.span is None,
    {
        Diagnostic { severity: Severity::Error, message, span: None }
    }

/// A warning with no span.
    pub fn warning(message: String) -> (d: Self)
        ensures
            d.severity == Severity::Warning,
            d.message@ == message@,
            d.span is None,
    {
        Diagnostic { severity: Severity::Warning, message, span: None }
    }

/// The diagnostic located at `span`.
    pub fn with_span(self, span: Span) -> (d: Self)
        ensures
            d.severity == self.severity,
            d.message@ == self.message@,
            d.span == Some(span),
    {
        let mut d = self;
        d.span = Some(span);
        d
    }

/// The diagnostic located at one position.
    pub fn at(self, line: usize, col: usize) -> (d: Self)
        ensures
            d.severity == self.severity,
            d.message@ == self.message@,
            d.span == Some(Span { line, col, end_line: line, end_col: col }),
    {
        self.with_span(Span::single(line, col))
    }

/// The diagnostic located at a range.
    pub fn range(self, line: usize, col: usize, end_line: usize, end_col: usize) -> (d: Self)
        ensures
            d.severity == self.severity,
            d.message@ == self.message@,
            d.span == Some(Span { line, col, end_line, end_col }),
    {
        self.with_span(Span::range(line, col, end_line, end_col))
    }

    /// The diagnostic as `LABEL: MESSAGE`.
    pub fn text(&self) -> (r: String)
        ensures
            r@ == severity_label(self.severity) + ": "@ + self.message@,
    {
        let mut r = String::new();
        push_str(&mut r, self.severity.label());
        push_str(&mut r, ": ");
        push_str(&mut r, self.message.as_str());
        r
    }
}

/// Renders compiler-style codeframes pointing at a location in source text.
#[derive(Debug, Clone, Copy, PartialEq, Eq)]
pub struct Codeframe {
    /// 1-based row of the offending character.
    pub line: usize,
    /// 1-based column of the offending character (start of range).
    pub col: usize,
    /// 1-based column at the end of the error range (exclusive).
    /// When `0`, a single `^` caret is rendered. When `> 0`, tildes `~~~` span the range.
    pub end_col: usize,
    /// How many surrounding lines to include above and below.
    pub context_lines: usize,
}

// ---------------------------------------------------------------------------
// Specification of the rendering
// ---------------------------------------------------------------------------

/// `n` spaces.
pub open spec fn spaces(n: nat) -> Seq<char> {
    Seq::new(n, |i: int| ' ')
}

/// `n` tildes.
pub open spec fn tildes(n: nat) -> Seq<char> {
    Seq::new(n, |i: int| '~')
}

/// The display width of `p` when tabs advance to the next multiple of `TAB_WIDTH`.
pub open spec fn visual_width(p: Seq<char>) -> nat
    decreases p.len(),
{
    if p.len() == 0 {
        0
    } else {
        let v = visual_width(p.drop_last());
        if p.last() == '\t' {
            (v / 4 + 1) * 4
        } else {
            v + 1
        }
    }
}

/// The visual offset of the 1-based column `col` of `text`.
pub open spec fn tab_col(text: Seq<char>, col: nat) -> nat {
    let k = if col == 0 {
        0
    } else if col - 1 <= text.len() {
        (col - 1) as nat
    } else {
        text.len()
    };
    visual_width(text.take(k as int))
}

/// The line under the offending line: a caret (`^`) at the column, or, when
/// an end column is set, tildes (`~~~`) from the column to the end column,
/// at least one.
pub open spec fn indicator(f: Codeframe, text: Seq<char>) -> Seq<char> {
    let vc = tab_col(text, f.col as nat);
    if f.end_col > 0 {
        let ve = tab_col(text, f.end_col as nat);
        let w = if ve > vc + 1 { (ve - vc) as nat } else { 1 };
        spaces(vc) + tildes(w)
    } else {
        spaces(vc) + "^"@
    }
}

/// The first line number shown.
pub open spec fn first_row(f: Codeframe) -> nat {
    if f.line > f.context_lines + 1 {
        (f.line - f.context_lines) as nat
    } else {
        1
    }
}

/// The last line number shown.
pub open spec fn last_row(f: Codeframe, nlines: nat) -> nat {
    let total = if nlines > 1 { nlines } else { 1 };
    if f.line + f.context_lines < total {
        (f.line + f.context_lines) as nat
    } else {
        total
    }
}

/// The text of the 1-based line `n` (empty past the end).
pub open spec fn line_text(ls: Seq<Seq<char>>, n: nat) -> Seq<char> {
    if 1 <= n <= ls.len() {
        ls[n - 1]
    } else {
        seq![]
    }
}

/// The gutter rows for lines `n..=end`.
pub open spec fn rows(f: Codeframe, ls: Seq<Seq<char>>, n: nat, end: nat, width: nat) -> Seq<char>
    decreases end + 1 - n,
{
    if n > end {
        seq![]
    } else {
        row_text(f, n, line_text(ls, n), width) + rows(f, ls, n + 1, end, width)
    }
}

/// The gutter row of line `n`, followed by the indicator row under the offending line.
pub open spec fn row_text(f: Codeframe, n: nat, text: Seq<char>, width: nat) -> Seq<char> {
    let row = pad_left(decimal(n), width) + " | "@ + text + "\n"@;
    let ind = if n == f.line {
        spaces(width) + " | "@ + indicator(f, text) + "\n"@
    } else {
        seq![]
    };
    row + ind
}

/// The `--> path:line:col` header, when a path is given.
pub open spec fn location_header(f: Codeframe, path: Option<Seq<char>>, width: nat) -> Seq<char> {
    match path {
        Some(p) => spaces(width) + " --> "@ + p + ":"@ + decimal(f.line as nat) + ":"@ + decimal(
            f.col as nat,
        ) + "\n"@,
        None => seq![],
    }
}

/// The width of the line-number gutter.
pub open spec fn gutter_width(f: Codeframe, ls: Seq<Seq<char>>) -> nat {
    decimal(last_row(f, ls.len())).len()
}

/// The codeframe of `f` over `input`.
pub open spec fn frame_text(f: Codeframe, input: Seq<char>, path: Option<Seq<char>>) -> Seq<char> {
    let ls = lines(input);
    let width = gutter_width(f, ls);
    location_header(f, path, width) + spaces(width) + " |\n"@ + rows(
        f,
        ls,
        first_row(f),
        last_row(f, ls.len()),
        width,
    )
}

/// A full diagnostic: header line, codeframe and a closing gutter row.
pub open spec fn diagnostic_text(
    f: Codeframe,
    input: Seq<char>,
    path: Option<Seq<char>>,
    severity: Severity,
    category: Seq<char>,
    message: Seq<char>,
) -> Seq<char> {
    let width = gutter_width(f, lines(input));
    "["@ + severity_label(severity) + "] "@ + category + ": "@ + message + "\n"@ + frame_text(
        f,
        input,
        path,
    ) + spaces(width) + " |\n"@
}

/// A full diagnostic is its header line, the codeframe that `render` gives
/// for the same frame, text and path, and a closing gutter row whose width is
/// the number of digits of the last line number shown: the smaller of the
/// offending line plus the context lines and the number of lines of the text
/// (at least 1).
pub proof fn lemma_diagnostic_closes_frame(
    f: Codeframe,
    input: Seq<char>,
    path: Option<Seq<char>>,
    severity: Severity,
    category: Seq<char>,
    message: Seq<char>,
)
    ensures
        ({
            let n = lines(input).len();
            let total: nat = if n > 1 {
                n
            } else {
                1
            };
            let end: nat = if f.line + f.context_lines < total {
                (f.line + f.context_lines) as nat
            } else {
                total
            };
            diagnostic_text(f, input, path, severity, category, message) == "["@ + severity_label(
                severity,
            ) + "] "@ + category + ": "@ + message + "\n"@ + frame_text(f, input, path) + spaces(
                decimal(end).len(),
            ) + " |\n"@
        }),
{
}

/// What rendering needs of its inputs: the last line number fits a machine
/// integer, and lines are short enough for their visual width to fit.
pub open spec fn renderable(f: Codeframe, input: Seq<char>) -> bool {
    &&& f.line + f.context_lines <= usize::MAX
    &&& input.len() * 4 + 4 <= usize::MAX
}

/// Tabs widen text at most fourfold.
pub proof fn lemma_visual_width_bound(p: Seq<char>)
    ensures
        visual_width(p) <= 4 * p.len(),
    decreases p.len(),
{
    if p.len() > 0 {
        lemma_visual_width_bound(p.drop_last());
    }
}

/// A text has no more lines than characters.
pub proof fn lemma_lines_len(s: Seq<char>)
    ensures
        forall|i: int| 0 <= i < lines(s).len() ==> (#[trigger] lines(s)[i]).len() <= s.len(),
        lines(s).len() <= s.len(),
    decreases s.len(),
{
    if s.len() > 0 {
        let e = crate::text::line_end(s);
        crate::text::lemma_find_bounds(s, '\n');
        if e < s.len() {
            lemma_lines_len(s.skip(e + 1int));
            let l = crate::text::strip_cr(s.take(e as int));
            assert forall|i: int| 0 <= i < lines(s).len() implies (#[trigger] lines(s)[i]).len()
                <= s.len() by {
                if i > 0 {
                    assert(lines(s)[i] == lines(s.skip(e + 1int))[i - 1]);
                }
            }
        }
    }
}

// ---------------------------------------------------------------------------
// Executable rendering
// ---------------------------------------------------------------------------

/// Appends `n` copies of `c`.
fn push_repeat(out: &mut String, c: char, n: usize)
    ensures
        final(out)@ == old(out)@ + Seq::new(n as nat, |i: int| c),
{
    let mut k: usize = 0;
    while k < n
        invariant
            k <= n,
            out@ == old(out)@ + Seq::new(k as nat, |i: int| c),
        decreases n - k,
    {
        push_char(out, c);
        k = k + 1;
        assert(out@ =~= old(out)@ + Seq::new(k as nat, |i: int| c));
    }
}

/// Converts a 1-based column number to its visual offset, expanding tabs to
/// `TAB_WIDTH`-column stops so that caret indicators align correctly in terminals.
pub fn tab_expanded_col(text: &[char], col: usize) -> (r: usize)
    requires
        text@.len() * 4 + 4 <= usize::MAX,
    ensures
        r == tab_col(text@, col as nat),
{
    let mut visual: usize = 0;
    let mut i: usize = 0;
    let k: usize = if col == 0 {
        0
    } else if col - 1 <= text.len() {
        col - 1
    } else {
        text.len()
    };
    while i < k
        invariant
            i <= k <= text@.len(),
            text@.len() * 4 + 4 <= usize::MAX,
            visual == visual_width(text@.take(i as int)),
        decreases k - i,
    {
        proof {
            assert(text@.take(i + 1).drop_last() =~= text@.take(i as int));
            lemma_visual_width_bound(text@.take(i as int));
        }
        if text[i] == '\t' {
            visual = (visual / TAB_WIDTH + 1) * TAB_WIDTH;
        } else {
            visual = visual + 1;
        }
        i = i + 1;
    }
    visual
}

impl Codeframe {
/// A frame at a 1-based line and column, with one line of context.
    pub fn new(line: usize, col: usize) -> (f: Self)
        ensures
            f == (Codeframe { line, col, end_col: 0, context_lines: DEFAULT_CONTEXT_LINES }),
    {
        Codeframe { line, col, end_col: 0, context_lines: DEFAULT_CONTEXT_LINES }
    }

    /// Sets the end column for range highlighting. When set (> 0), tildes `~~~`
    /// replace the single caret to span `col..end_col`.
    pub fn end_col(self, end_col: usize) -> (f: Self)
        ensures
            f == (Codeframe { end_col, ..self }),
    {
        Codeframe { end_col, ..self }
    }

    /// Sets how many surrounding lines are included above and below.
    pub fn context_lines(self, count: usize) -> (f: Self)
        ensures
            f == (Codeframe { context_lines: count, ..self }),
    {
        Codeframe { context_lines: count, ..self }
    }

    /// Renders the caret/tilde indicator line for the error line.
    pub fn render_indicator(&self, text: &[char]) -> (r: String)
        requires
            text@.len() * 4 + 4 <= usize::MAX,
        ensures
            r@ == indicator(*self, text@),
    {
        let visual_col = tab_expanded_col(text, self.col);
        let mut out = String::new();
        push_repeat(&mut out, ' ', visual_col);
        proof {
            assert(Seq::new(visual_col as nat, |i: int| ' ') =~= spaces(visual_col as nat));
        }
        if self.end_col > 0 {
            let visual_end = tab_expanded_col(text, self.end_col);
            let width = if visual_end > visual_col && visual_end - visual_col > 1 {
                visual_end - visual_col
            } else {
                1
            };
            push_repeat(&mut out, '~', width);
            proof {
                assert(Seq::new(width as nat, |i: int| '~') =~= tildes(width as nat));
            }
        } else {
            push_char(&mut out, '^');
            proof {
                reveal_strlit("^");
            }
        }
        proof {
            assert(out@ =~= indicator(*self, text@));
        }
        out
    }

    /// Appends the row of line `n` (and the indicator row under the offending line).
    fn push_row(&self, out: &mut String, n: usize, text: &[char], width: usize)
        requires
            text@.len() * 4 + 4 <= usize::MAX,
        ensures
            final(out)@ == old(out)@ + row_text(*self, n as nat, text@, width as nat),
    {
        let empty: Vec<char> = Vec::new();
        let digits = decimal_chars(n as u128);
        push_padded(out, digits.as_slice(), width);
        push_str(out, " | ");
        crate::text::push_range(out, text, 0, text.len());
        push_str(out, "\n");
        if n == self.line {
            push_padded(out, empty.as_slice(), width);
            push_str(out, " | ");
            let ind = self.render_indicator(text);
            push_str(out, ind.as_str());
            push_str(out, "\n");
        }
        proof {
            assert(text@.subrange(0, text@.len() as int) =~= text@);
            assert(pad_left(empty@, width as nat) =~= spaces(width as nat));
            assert(out@ =~= old(out)@ + row_text(*self, n as nat, text@, width as nat));
        }
    }

    /// Appends the location header (when a path is given) and the opening gutter row.
    fn push_header(&self, out: &mut String, path: Option<&str>, width: usize)
        ensures
            final(out)@ == old(out)@ + location_header(
                *self,
                match path {
                    Some(p) => Some(p@),
                    None => None,
                },
                width as nat,
            ) + spaces(width as nat) + " |\n"@,
    {
        let ghost pv = match path {
            Some(p) => Some(p@),
            None => None,
        };
        let empty: Vec<char> = Vec::new();
        match path {
            Some(p) => {
                push_padded(out, empty.as_slice(), width);
                push_str(out, " --> ");
                push_str(out, p);
                push_str(out, ":");
                push_decimal(out, self.line as u128);
                push_str(out, ":");
                push_decimal(out, self.col as u128);
                push_str(out, "\n");
            },
            None => {},
        }
        let ghost mid = out@;
        proof {
            assert(pad_left(empty@, width as nat) =~= spaces(width as nat));
            assert(mid =~= old(out)@ + location_header(*self, pv, width as nat));
        }
        push_padded(out, empty.as_slice(), width);
        push_str(out, " |\n");
        proof {
            assert(out@ =~= mid + spaces(width as nat) + " |\n"@);
        }
    }

    /// Appends the location header, the opening gutter row and the line rows.
    #[verifier::rlimit(40)]
    fn push_frame(&self, out: &mut String, input: &str, path: Option<&str>)
        requires
            renderable(*self, input@),
        ensures
            final(out)@ == old(out)@ + frame_text(
                *self,
                input@,
                match path {
                    Some(p) => Some(p@),
                    None => None,
                },
            ),
    {
        let chars = crate::text::str_chars(input);
        let ls = split_lines(chars.as_slice());
        let ghost lv = lines(input@);
        proof {
            lemma_lines_len(input@);
        }
        let total = if ls.len() > 1 {
            ls.len()
        } else {
            1
        };
        let start = if self.line > self.context_lines && self.line - self.context_lines > 1 {
            self.line - self.context_lines
        } else {
            1
        };
        let end = if self.line + self.context_lines < total {
            self.line + self.context_lines
        } else {
            total
        };
        let end_digits = decimal_chars(end as u128);
        let width = end_digits.len();
        let ghost pv = match path {
            Some(p) => Some(p@),
            None => None,
        };
        let empty: Vec<char> = Vec::new();
        let ghost before = out@;
        self.push_header(out, path, width);
        let ghost head = out@;
        proof {
            assert(head == before + location_header(*self, pv, width as nat) + spaces(width as nat)
                + " |\n"@);
        }
        let mut n = start;
        while n <= end
            invariant
                start <= n,
                n <= end + 1 || n == start,
                1 <= start,
                empty@ == Seq::<char>::empty(),
                end <= total,
                total <= usize::MAX - 1,
                ls@.len() == lv.len(),
                forall|i: int| 0 <= i < ls@.len() ==> #[trigger] ls@[i]@ == lv[i],
                forall|i: int| 0 <= i < lv.len() ==> (#[trigger] lv[i]).len() * 4 + 4 <= usize::MAX,
                head + rows(*self, lv, start as nat, end as nat, width as nat) == out@ + rows(
                    *self,
                    lv,
                    n as nat,
                    end as nat,
                    width as nat,
                ),
            decreases end + 1 - n,
        {
            let ghost prev = out@;
            let text: &[char] = if n - 1 < ls.len() {
                ls[n - 1].as_slice()
            } else {
                empty.as_slice()
            };
            proof {
                if n - 1 < ls@.len() {
                    assert(ls@[n - 1]@ == lv[n - 1]);
                }
                assert(text@ == line_text(lv, n as nat));
            }
            self.push_row(out, n, text, width);
            proof {
                let r = row_text(*self, n as nat, line_text(lv, n as nat), width as nat);
                assert(rows(*self, lv, n as nat, end as nat, width as nat) == r + rows(
                    *self,
                    lv,
                    (n + 1) as nat,
                    end as nat,
                    width as nat,
                ));
                assert(out@ + rows(*self, lv, (n + 1) as nat, end as nat, width as nat) =~= prev
                    + rows(*self, lv, n as nat, end as nat, width as nat));
            }
            n = n + 1;
        }
        proof {
            assert(rows(*self, lv, n as nat, end as nat, width as nat) =~= seq![]);
            assert(out@ =~= head + rows(*self, lv, start as nat, end as nat, width as nat));
            assert(out@ =~= old(out)@ + frame_text(*self, input@, pv));
        }
    }

    /// Renders a codeframe such as:
    ///
    /// ```text
    ///    --> fxmanifest.lua:3:11
    ///     |
    ///   2 | game 'gta5'
    ///   3 | version = ~
    ///     |           ^
    /// ```
    ///
    /// The returned text is unstyled; callers may apply colors afterwards.
    pub fn render(&self, input: &str, path: Option<&str>) -> (r: String)
        requires
            renderable(*self, input@),
        ensures
            r@ == frame_text(
                *self,
                input@,
                match path {
                    Some(p) => Some(p@),
                    None => None,
                },
            ),
    {
        let mut out = String::new();
        self.push_frame(&mut out, input, path);
        proof {
            assert(out@ =~= frame_text(
                *self,
                input@,
                match path {
                    Some(p) => Some(p@),
                    None => None,
                },
            ));
        }
        out
    }

    /// Renders a full diagnostic with header, codeframe, and trailing message.
    pub fn render_diagnostic(
        &self,
        input: &str,
        path: Option<&str>,
        severity: Severity,
        category: &str,
        message: &str,
    ) -> (r: String)
        requires
            renderable(*self, input@),
        ensures
            r@ == diagnostic_text(
                *self,
                input@,
                match path {
                    Some(p) => Some(p@),
                    None => None,
                },
                severity,
                category@,
                message@,
            ),
    {
        let mut out = String::new();
        push_str(&mut out, "[");
        push_str(&mut out, severity.label());
        push_str(&mut out, "] ");
        push_str(&mut out, category);
        push_str(&mut out, ": ");
        push_str(&mut out, message);
        push_str(&mut out, "\n");
        self.push_frame(&mut out, input, path);
        let chars = crate::text::str_chars(input);
        let ls = split_lines(chars.as_slice());
        let total = if ls.len() > 1 {
            ls.len()
        } else {
            1
        };
        let end = if self.line + self.context_lines < total {
            self.line + self.context_lines
        } else {
            total
        };
        let end_digits = decimal_chars(end as u128);
        let empty: Vec<char> = Vec::new();
        push_padded(&mut out, empty.as_slice(), end_digits.len());
        push_str(&mut out, " |\n");
        proof {
            assert(pad_left(empty@, end_digits@.len()) =~= spaces(end_digits@.len()));
            assert(out@ =~= diagnostic_text(
                *self,
                input@,
                match path {
                    Some(p) => Some(p@),
                    None => None,
                },
                severity,
                category@,
                message@,
            ));
        }
        out
    }
}

/// How a line of a rendered code frame is shown.
#[derive(Debug, Clone, Copy, PartialEq, Eq, Structural)]
pub enum FrameLineStyle {
    /// The indicator line, with its `^`.
    Marker,
    /// The location header or a gutter-only line.
    Gutter,
    /// A line of source.
    Source,
}

/// The style of line `idx` of a code frame: the line with a `^` is the
/// marker; the first two lines and lines that end in the gutter bar `|` are
/// gutter; the rest is source.
pub open spec fn frame_line_style_of(idx: nat, line: Seq<char>) -> FrameLineStyle {
    if line.contains('^') {
        FrameLineStyle::Marker
    } else if idx <= 1 || (trim_end(line).len() > 0 && trim_end(line).last() == '|') {
        FrameLineStyle::Gutter
    } else {
        FrameLineStyle::Source
    }
}

/// The style of line `idx` of a code frame.
pub fn frame_line_style(idx: usize, line: &str) -> (s: FrameLineStyle)
    ensures
        s == frame_line_style_of(idx as nat, line@),
{
    let c = str_chars(line);
    let mut k: usize = 0;
    while k < c.len()
        invariant
            k <= c@.len(),
            c@ == line@,
            forall|j: int| 0 <= j < k ==> c@[j] != '^',
        decreases c.len() - k,
    {
        if c[k] == '^' {
            assert(c@[k as int] == '^');
            return FrameLineStyle::Marker;
        }
        k = k + 1;
    }
    if idx <= 1 {
        return FrameLineStyle::Gutter;
    }
    let mut b = c.len();
    while b > 0 && is_whitespace(c[b - 1])
        invariant
            b <= c@.len(),
            forall|j: int| b <= j < c@.len() ==> is_ws(c@[j]),
        decreases b,
    {
        b = b - 1;
    }
    proof {
        crate::text::lemma_trim_end_take(c@, b as int);
        if b > 0 {
            assert(c@.take(b as int).last() == c@[b - 1]);
        }
        assert(trim_end(c@.take(0)) =~= Seq::<char>::empty());
    }
    if b > 0 && c[b - 1] == '|' {
        FrameLineStyle::Gutter
    } else {
        FrameLineStyle::Source
    }
}

} // verus!
