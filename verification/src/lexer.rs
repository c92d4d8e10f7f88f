//! Stage 2 of the manifest pipeline: raw text to a token stream.
use crate::text::{decimal, push_char, push_decimal, push_str, str_chars, string_of};
use vstd::prelude::*;

verus! {

/// A single lexical unit produced by the lexer.
#[derive(Debug, Clone, PartialEq, Eq)]
pub enum TokenKind {
    Ident(String),
    Str(String),
    LBrace,
    RBrace,
    LParen,
    RParen,
    Equals,
    Comma,
    Newline,
    Eof,
}

#[derive(Debug, Clone, PartialEq, Eq)]
pub struct Token {
    pub kind: TokenKind,
    pub line: usize,
    pub col: usize,
}

#[derive(Debug, Clone, PartialEq, Eq)]
pub struct LexError {
    pub message: String,
    pub line: usize,
    pub col: usize,
}

/// The mathematical value of a [`TokenKind`].
pub enum TokKind {
    Ident(Seq<char>),
    Str(Seq<char>),
    LBrace,
    RBrace,
    LParen,
    RParen,
    Equals,
    Comma,
    Newline,
    Eof,
}

/// The mathematical value of a [`Token`]: its kind and 1-based position.
pub struct Tok {
    pub kind: TokKind,
    pub line: nat,
    pub col: nat,
}

/// The mathematical value of a [`LexError`].
pub struct LexErr {
    pub message: Seq<char>,
    pub line: nat,
    pub col: nat,
}

impl View for TokenKind {
    type V = TokKind;

    open spec fn view(&self) -> TokKind {
        match self {
            TokenKind::Ident(s) => TokKind::Ident(s@),
            TokenKind::Str(s) => TokKind::Str(s@),
            TokenKind::LBrace => TokKind::LBrace,
            TokenKind::RBrace => TokKind::RBrace,
            TokenKind::LParen => TokKind::LParen,
            TokenKind::RParen => TokKind::RParen,
            TokenKind::Equals => TokKind::Equals,
            TokenKind::Comma => TokKind::Comma,
            TokenKind::Newline => TokKind::Newline,
            TokenKind::Eof => TokKind::Eof,
        }
    }
}

impl View for Token {
    type V = Tok;

    open spec fn view(&self) -> Tok {
        Tok { kind: self.kind@, line: self.line as nat, col: self.col as nat }
    }
}

impl View for LexError {
    type V = LexErr;

    open spec fn view(&self) -> LexErr {
        LexErr { message: self.message@, line: self.line as nat, col: self.col as nat }
    }
}

/// How a located failure is shown: the stage, where, and why.
pub open spec fn located_text(stage: Seq<char>, line: nat, col: nat, message: Seq<char>) -> Seq<
    char,
> {
    stage + " error at "@ + decimal(line) + ":"@ + decimal(col) + ": "@ + message
}

impl LexError {
    /// `lex error at LINE:COL: MESSAGE`.
    pub fn text(&self) -> (r: String)
        ensures
            r@ == located_text("lex"@, self.line as nat, self.col as nat, self.message@),
    {
        let mut r = String::new();
        push_str(&mut r, "lex");
        push_str(&mut r, " error at ");
        push_decimal(&mut r, self.line as u128);
        push_str(&mut r, ":");
        push_decimal(&mut r, self.col as u128);
        push_str(&mut r, ": ");
        push_str(&mut r, self.message.as_str());
        r
    }
}

/// The values of a vector of tokens.
pub open spec fn toks_view(v: Seq<Token>) -> Seq<Tok> {
    v.map_values(|t: Token| t@)
}

// ---------------------------------------------------------------------------
// Specification of the lexer
// ---------------------------------------------------------------------------

/// Whether `char::is_alphanumeric` holds of `c`: the Unicode `Alphabetic` or
/// `Numeric` property.
pub uninterp spec fn alphanumeric(c: char) -> bool;

pub open spec fn ident_start(c: char) -> bool {
    alphanumeric(c) || c == '_' || c == '@'
}

pub open spec fn ident_continue(c: char) -> bool {
    ident_start(c) || c == '/' || c == '.' || c == '-'
}

pub open spec fn is_punct(c: char) -> bool {
    c == '{' || c == '}' || c == '(' || c == ')' || c == '=' || c == ','
}

pub open spec fn punct_kind(c: char) -> TokKind {
    if c == '{' {
        TokKind::LBrace
    } else if c == '}' {
        TokKind::RBrace
    } else if c == '(' {
        TokKind::LParen
    } else if c == ')' {
        TokKind::RParen
    } else if c == '=' {
        TokKind::Equals
    } else {
        TokKind::Comma
    }
}

/// The first index `j >= i` such that `s[j]` does not satisfy `p` (or `s.len()`).
pub open spec fn run_end(s: Seq<char>, i: nat, p: spec_fn(char) -> bool) -> nat
    decreases s.len() - i,
{
    if i < s.len() && p(s[i as int]) {
        run_end(s, i + 1, p)
    } else {
        i
    }
}

pub open spec fn not_newline() -> spec_fn(char) -> bool {
    |c: char| c != '\n'
}

pub open spec fn in_string(quote: char) -> spec_fn(char) -> bool {
    |c: char| c != quote && c != '\n'
}

pub open spec fn in_ident() -> spec_fn(char) -> bool {
    |c: char| ident_continue(c)
}

/// `"unexpected character 'c'"`.
pub open spec fn unexpected_msg(c: char) -> Seq<char> {
    "unexpected character '"@.push(c) + "'"@
}

/// `"unterminated string starting at L:C"`.
pub open spec fn unterminated_msg(line: nat, col: nat) -> Seq<char> {
    "unterminated string starting at "@ + decimal(line) + ":"@ + decimal(col)
}

/// Token list after a newline at `(line, col)`: runs of blank lines collapse
/// into one `Newline` token.
pub open spec fn add_newline(toks: Seq<Tok>, line: nat, col: nat) -> Seq<Tok> {
    if toks.len() > 0 && toks.last().kind is Newline {
        toks
    } else {
        toks.push(Tok { kind: TokKind::Newline, line, col })
    }
}

/// One step of the lexer: either the state after the next lexeme, or the end result.
pub enum LexStep {
    Next(nat, nat, nat, Seq<Tok>),
    Stop(Result<Seq<Tok>, LexErr>),
}

/// What the lexer does with the character at position `i < s.len()` of `s`, at
/// 1-based `(line, col)`, with the tokens `toks` produced so far.
pub open spec fn lex_step(s: Seq<char>, i: nat, line: nat, col: nat, toks: Seq<Tok>) -> LexStep {
    let c = s[i as int];
    if c == '\n' {
        LexStep::Next(i + 1, line + 1, 1, add_newline(toks, line, col))
    } else if c == ' ' || c == '\t' || c == '\r' {
        LexStep::Next(i + 1, line, col + 1, toks)
    } else if c == '-' {
        if i + 1 < s.len() && s[i as int + 1] == '-' {
            let e = run_end(s, i, not_newline());
            LexStep::Next(e, line, (col + e - i) as nat, toks)
        } else {
            LexStep::Stop(Err(LexErr { message: unexpected_msg('-'), line, col }))
        }
    } else if is_punct(c) {
        LexStep::Next(i + 1, line, col + 1, toks.push(Tok { kind: punct_kind(c), line, col }))
    } else if c == '\'' || c == '"' {
        let e = run_end(s, i + 1, in_string(c));
        if e < s.len() && s[e as int] == c {
            LexStep::Next(
                e + 1,
                line,
                (col + e + 1 - i) as nat,
                toks.push(Tok { kind: TokKind::Str(s.subrange(i as int + 1, e as int)), line, col }),
            )
        } else {
            LexStep::Stop(Err(LexErr { message: unterminated_msg(line, col), line, col }))
        }
    } else if ident_start(c) {
        let e = run_end(s, i, in_ident());
        LexStep::Next(
            e,
            line,
            (col + e - i) as nat,
            toks.push(Tok { kind: TokKind::Ident(s.subrange(i as int, e as int)), line, col }),
        )
    } else {
        LexStep::Stop(Err(LexErr { message: unexpected_msg(c), line, col }))
    }
}

/// The lexer from position `i` of `s`, at 1-based `(line, col)`, with the
/// tokens `toks` produced so far.
pub open spec fn lex_from(s: Seq<char>, i: nat, line: nat, col: nat, toks: Seq<Tok>) -> Result<
    Seq<Tok>,
    LexErr,
>
    decreases s.len() - i,
{
    if i >= s.len() {
        Ok(toks.push(Tok { kind: TokKind::Eof, line, col }))
    } else {
        match lex_step(s, i, line, col, toks) {
            LexStep::Next(i2, l2, c2, t2) => if i < i2 <= s.len() {
                lex_from(s, i2, l2, c2, t2)
            } else {
                Err(LexErr { message: seq![], line, col })  // never taken: every step advances

            },
            LexStep::Stop(r) => r,
        }
    }
}

/// The token stream of `s`, or the first lexical error.
pub open spec fn lex(s: Seq<char>) -> Result<Seq<Tok>, LexErr> {
    lex_from(s, 0, 1, 1, seq![])
}

/// No two adjacent tokens are both newlines.
pub open spec fn no_blank_runs(t: Seq<Tok>) -> bool {
    forall|k: int|
        0 <= k < t.len() - 1 ==> !(#[trigger] t[k].kind is Newline && t[k + 1].kind is Newline)
}

/// The stream ends with the only `Eof` token.
pub open spec fn ends_with_single_eof(t: Seq<Tok>) -> bool {
    &&& t.len() > 0
    &&& t.last().kind is Eof
    &&& forall|k: int| 0 <= k < t.len() - 1 ==> !(#[trigger] t[k].kind is Eof)
}

// ---------------------------------------------------------------------------
// Lemmas
// ---------------------------------------------------------------------------

pub proof fn lemma_run_end_bounds(s: Seq<char>, i: nat, p: spec_fn(char) -> bool)
    ensures
        i <= s.len() ==> i <= run_end(s, i, p) <= s.len(),
        i > s.len() ==> run_end(s, i, p) == i,
        forall|j: int| i <= j < run_end(s, i, p) ==> p(#[trigger] s[j]),
        run_end(s, i, p) < s.len() ==> !p(s[run_end(s, i, p) as int]),
    decreases s.len() - i,
{
    if i < s.len() && p(s[i as int]) {
        lemma_run_end_bounds(s, i + 1, p);
    }
}

/// Two steps of the same run end at the same place.
pub proof fn lemma_run_end_step(s: Seq<char>, i: nat, p: spec_fn(char) -> bool)
    requires
        i < s.len(),
        p(s[i as int]),
    ensures
        run_end(s, i, p) == run_end(s, i + 1, p),
{
}

/// Every step of the lexer consumes at least one character.
pub proof fn lemma_step_advances(s: Seq<char>, i: nat, line: nat, col: nat, toks: Seq<Tok>)
    requires
        i < s.len(),
    ensures
        lex_step(s, i, line, col, toks) matches LexStep::Next(i2, l2, c2, t2) ==> {
            &&& i < i2 <= s.len()
            &&& l2 <= line + (i2 - i)
            &&& c2 <= col + (i2 - i)
            &&& l2 >= 1 && c2 >= 1 || !(line >= 1 && col >= 1)
        },
{
    let c = s[i as int];
    if c == '-' && i + 1 < s.len() && s[i as int + 1] == '-' {
        lemma_run_end_step(s, i, not_newline());
        lemma_run_end_bounds(s, i + 1, not_newline());
    } else if c == '\'' || c == '"' {
        lemma_run_end_bounds(s, i + 1, in_string(c));
    } else if ident_start(c) {
        lemma_run_end_step(s, i, in_ident());
        lemma_run_end_bounds(s, i + 1, in_ident());
    }
}

pub open spec fn well_shaped(toks: Seq<Tok>) -> bool {
    &&& no_blank_runs(toks)
    &&& forall|k: int| 0 <= k < toks.len() ==> !(#[trigger] toks[k].kind is Eof)
}

/// A step keeps the token list well shaped and only appends to it.
pub proof fn lemma_step_shape(s: Seq<char>, i: nat, line: nat, col: nat, toks: Seq<Tok>)
    requires
        i < s.len(),
        well_shaped(toks),
    ensures
        lex_step(s, i, line, col, toks) matches LexStep::Next(i2, l2, c2, t2) ==> well_shaped(t2)
            && toks.is_prefix_of(t2),
{
    let c = s[i as int];
    if c == '\n' {
        let nt = add_newline(toks, line, col);
        assert forall|k: int| 0 <= k < nt.len() - 1 implies !(#[trigger] nt[k].kind is Newline
            && nt[k + 1].kind is Newline) by {
            if k + 1 < toks.len() {
                assert(nt[k] == toks[k] && nt[k + 1] == toks[k + 1]);
            }
        }
        assert forall|k: int| 0 <= k < nt.len() implies !(#[trigger] nt[k].kind is Eof) by {
            if k < toks.len() {
                assert(nt[k] == toks[k]);
            }
        }
        assert(nt.take(toks.len() as int) =~= toks);
    } else if c == ' ' || c == '\t' || c == '\r' {
        assert(toks.take(toks.len() as int) =~= toks);
    } else if c == '-' {
        assert(toks.take(toks.len() as int) =~= toks);
    } else if is_punct(c) {
        lemma_push_shape(toks, Tok { kind: punct_kind(c), line, col });
    } else if c == '\'' || c == '"' {
        let e = run_end(s, i + 1, in_string(c));
        lemma_push_shape(
            toks,
            Tok { kind: TokKind::Str(s.subrange(i as int + 1, e as int)), line, col },
        );
    } else if ident_start(c) {
        let e = run_end(s, i, in_ident());
        lemma_push_shape(
            toks,
            Tok { kind: TokKind::Ident(s.subrange(i as int, e as int)), line, col },
        );
    }
}

/// The token stream keeps its shape invariants while it grows.
pub proof fn lemma_lex_shape(s: Seq<char>, i: nat, line: nat, col: nat, toks: Seq<Tok>)
    requires
        well_shaped(toks),
    ensures
        lex_from(s, i, line, col, toks) matches Ok(t) ==> no_blank_runs(t) && ends_with_single_eof(
            t,
        ) && toks.is_prefix_of(t),
    decreases s.len() - i,
{
    if i >= s.len() {
        let t = toks.push(Tok { kind: TokKind::Eof, line, col });
        assert forall|k: int| 0 <= k < t.len() - 1 implies !(#[trigger] t[k].kind is Newline
            && t[k + 1].kind is Newline) by {
            if k + 1 < toks.len() {
                assert(t[k] == toks[k] && t[k + 1] == toks[k + 1]);
            }
        }
        assert forall|k: int| 0 <= k < t.len() - 1 implies !(#[trigger] t[k].kind is Eof) by {
            assert(t[k] == toks[k]);
        }
        assert(t.take(toks.len() as int) =~= toks);
    } else {
        lemma_step_advances(s, i, line, col, toks);
        lemma_step_shape(s, i, line, col, toks);
        if let LexStep::Next(i2, l2, c2, t2) = lex_step(s, i, line, col, toks) {
            lemma_lex_shape(s, i2, l2, c2, t2);
            lemma_prefix_trans(toks, t2, lex_from(s, i2, l2, c2, t2));
        }
    }
}

proof fn lemma_push_shape(toks: Seq<Tok>, tk: Tok)
    requires
        well_shaped(toks),
        !(tk.kind is Newline),
        !(tk.kind is Eof),
    ensures
        well_shaped(toks.push(tk)),
        toks.is_prefix_of(toks.push(tk)),
{
    let t = toks.push(tk);
    assert forall|k: int| 0 <= k < t.len() - 1 implies !(#[trigger] t[k].kind is Newline && t[k
        + 1].kind is Newline) by {
        if k + 1 < toks.len() {
            assert(t[k] == toks[k] && t[k + 1] == toks[k + 1]);
        }
    }
    assert forall|k: int| 0 <= k < t.len() implies !(#[trigger] t[k].kind is Eof) by {
        if k < toks.len() {
            assert(t[k] == toks[k]);
        }
    }
    assert(t.take(toks.len() as int) =~= toks);
}

proof fn lemma_prefix_trans(a: Seq<Tok>, b: Seq<Tok>, r: Result<Seq<Tok>, LexErr>)
    requires
        a.is_prefix_of(b),
        r matches Ok(t) ==> b.is_prefix_of(t),
    ensures
        r matches Ok(t) ==> a.is_prefix_of(t),
{
    if let Ok(t) = r {
        assert forall|k: int| 0 <= k < a.len() implies a[k] == t[k] by {
            assert(a[k] == b[k]);
        }
    }
}

// ---------------------------------------------------------------------------
// Line breaks
// ---------------------------------------------------------------------------

/// Where the lexer stands when it reaches position `j` (starting from
/// position `i` at `(line, col)` with tokens `toks`): its line, its column and
/// the tokens produced so far; `None` when it stops before `j` or steps over it.
pub open spec fn state_at(s: Seq<char>, i: nat, line: nat, col: nat, toks: Seq<Tok>, j: nat) -> Option<
    (nat, nat, Seq<Tok>),
>
    decreases s.len() - i,
{
    if i == j {
        Some((line, col, toks))
    } else if i > j || i >= s.len() {
        None
    } else {
        match lex_step(s, i, line, col, toks) {
            LexStep::Next(i2, l2, c2, t2) => if i < i2 <= s.len() {
                state_at(s, i2, l2, c2, t2, j)
            } else {
                None
            },
            LexStep::Stop(_) => None,
        }
    }
}

/// A run that reaches `j` goes on from there to the same result, and the
/// tokens it has produced by then stay well shaped.
proof fn lemma_state_continues(
    s: Seq<char>,
    i: nat,
    line: nat,
    col: nat,
    toks: Seq<Tok>,
    j: nat,
)
    requires
        well_shaped(toks),
        state_at(s, i, line, col, toks, j) is Some,
    ensures
        ({
            let (l, c, p) = state_at(s, i, line, col, toks, j)->0;
            lex_from(s, j, l, c, p) == lex_from(s, i, line, col, toks) && well_shaped(p)
        }),
    decreases s.len() - i,
{
    if i != j {
        lemma_step_shape(s, i, line, col, toks);
        if let LexStep::Next(i2, l2, c2, t2) = lex_step(s, i, line, col, toks) {
            lemma_state_continues(s, i2, l2, c2, t2, j);
        }
    }
}

/// A run that succeeds reaches every line break, unless a line break counts
/// as an identifier character.
proof fn lemma_reaches_line_break(
    s: Seq<char>,
    i: nat,
    line: nat,
    col: nat,
    toks: Seq<Tok>,
    j: nat,
)
    requires
        lex_from(s, i, line, col, toks) is Ok,
        i <= j < s.len(),
        s[j as int] == '\n',
    ensures
        state_at(s, i, line, col, toks, j) is Some || ident_continue('\n'),
    decreases s.len() - i,
{
    if i < j {
        lemma_step_advances(s, i, line, col, toks);
        let c = s[i as int];
        if c == '-' && i + 1 < s.len() && s[i as int + 1] == '-' {
            lemma_run_end_bounds(s, i, not_newline());
        } else if c == '\'' || c == '"' {
            lemma_run_end_bounds(s, i + 1, in_string(c));
        } else if ident_start(c) {
            lemma_run_end_bounds(s, i, in_ident());
        }
        if let LexStep::Next(i2, l2, c2, t2) = lex_step(s, i, line, col, toks) {
            if i2 <= j {
                lemma_reaches_line_break(s, i2, l2, c2, t2, j);
            }
        }
    }
}

/// Every token stream the lexer produces ends with its only `Eof` token and
/// holds no two newline tokens in a row, whatever the length of the text.
pub proof fn lemma_lex_stream_shape(s: Seq<char>)
    ensures
        lex(s) matches Ok(t) ==> no_blank_runs(t) && ends_with_single_eof(t),
{
    assert(well_shaped(Seq::<Tok>::empty()));
    lemma_lex_shape(s, 0, 1, 1, seq![]);
}

/// How many line breaks stand before position `j` of `s`.
pub open spec fn breaks_before(s: Seq<char>, j: int) -> nat
    decreases j,
{
    if j <= 0 {
        0
    } else if s[j - 1] == '\n' {
        breaks_before(s, j - 1) + 1
    } else {
        breaks_before(s, j - 1)
    }
}

/// Where the line that holds position `j` of `s` starts: just after the last
/// line break before `j`, or 0.
pub open spec fn line_start(s: Seq<char>, j: int) -> int
    decreases j,
{
    if j <= 0 {
        0
    } else if s[j - 1] == '\n' {
        j
    } else {
        line_start(s, j - 1)
    }
}

/// The 1-based line of position `j` of `s`.
pub open spec fn line_of(s: Seq<char>, j: int) -> nat {
    breaks_before(s, j) + 1
}

/// The 1-based column of position `j` of `s`.
pub open spec fn col_of(s: Seq<char>, j: int) -> nat {
    (j - line_start(s, j) + 1) as nat
}

proof fn lemma_line_start_bound(s: Seq<char>, j: int)
    ensures
        0 <= j ==> 0 <= line_start(s, j) <= j,
    decreases j,
{
    if j > 0 {
        lemma_line_start_bound(s, j - 1);
    }
}

/// A stretch without line breaks keeps the line and where it starts.
proof fn lemma_no_break_span(s: Seq<char>, a: int, b: int)
    requires
        0 <= a <= b <= s.len(),
        forall|k: int| a <= k < b ==> s[k] != '\n',
    ensures
        breaks_before(s, b) == breaks_before(s, a),
        line_start(s, b) == line_start(s, a),
    decreases b - a,
{
    if a < b {
        lemma_no_break_span(s, a, b - 1);
    }
}

/// While no line break is an identifier character, the line and column that
/// the lexer keeps at each position it reaches are those of the position in
/// the text.
proof fn lemma_state_position(s: Seq<char>, i: nat, line: nat, col: nat, toks: Seq<Tok>, j: nat)
    requires
        !ident_continue('\n'),
        line == line_of(s, i as int),
        col == col_of(s, i as int),
        state_at(s, i, line, col, toks, j) is Some,
    ensures
        ({
            let (l, c, p) = state_at(s, i, line, col, toks, j)->0;
            l == line_of(s, j as int) && c == col_of(s, j as int)
        }),
    decreases s.len() - i,
{
    if i != j {
        lemma_step_advances(s, i, line, col, toks);
        lemma_line_start_bound(s, i as int);
        let c = s[i as int];
        if c == '\n' {
        } else if c == ' ' || c == '\t' || c == '\r' {
            lemma_no_break_span(s, i as int, i + 1int);
        } else if c == '-' {
            if i + 1 < s.len() && s[i as int + 1] == '-' {
                let e = run_end(s, i, not_newline());
                lemma_run_end_bounds(s, i, not_newline());
                assert forall|k: int| i <= k < e implies s[k] != '\n' by {
                    assert(not_newline()(s[k]));
                }
                lemma_no_break_span(s, i as int, e as int);
            }
        } else if is_punct(c) {
            lemma_no_break_span(s, i as int, i + 1int);
        } else if c == '\'' || c == '"' {
            let e = run_end(s, i + 1, in_string(c));
            lemma_run_end_bounds(s, i + 1, in_string(c));
            if e < s.len() && s[e as int] == c {
                assert forall|k: int| i <= k < e + 1 implies s[k] != '\n' by {
                    if i < k < e {
                        assert(in_string(c)(s[k]));
                    }
                }
                lemma_no_break_span(s, i as int, e + 1int);
            }
        } else if ident_start(c) {
            let e = run_end(s, i, in_ident());
            lemma_run_end_bounds(s, i, in_ident());
            assert forall|k: int| i <= k < e implies s[k] != '\n' by {
                assert(in_ident()(s[k]));
            }
            lemma_no_break_span(s, i as int, e as int);
        }
        if let LexStep::Next(i2, l2, c2, t2) = lex_step(s, i, line, col, toks) {
            lemma_state_position(s, i2, l2, c2, t2, j);
        }
    }
}

/// Each line break yields a newline token at its own line and column in the
/// text, unless the last token produced before it is already a newline (so
/// blank and comment-only lines add none). This holds of every line break,
/// unless a line break counts as an identifier character, which rests on
/// `char::is_alphanumeric` (named `alphanumeric`, not stated).
pub proof fn lemma_line_break_tokens(s: Seq<char>, j: nat)
    requires
        lex(s) is Ok,
        j < s.len(),
        s[j as int] == '\n',
    ensures
        ident_continue('\n') || ({
            &&& state_at(s, 0, 1, 1, seq![], j) is Some
            &&& {
                let (l, c, p) = state_at(s, 0, 1, 1, seq![], j)->0;
                let t = lex(s)->Ok_0;
                &&& l == line_of(s, j as int)
                &&& c == col_of(s, j as int)
                &&& p.is_prefix_of(t)
                &&& !(p.len() > 0 && p.last().kind is Newline) ==> t[p.len() as int] == Tok {
                    kind: TokKind::Newline,
                    line: line_of(s, j as int),
                    col: col_of(s, j as int),
                }
            }
        }),
{
    lemma_reaches_line_break(s, 0, 1, 1, seq![], j);
    if state_at(s, 0, 1, 1, seq![], j) is Some && !ident_continue('\n') {
        lemma_state_position(s, 0, 1, 1, seq![], j);
        assert(well_shaped(Seq::<Tok>::empty()));
        lemma_state_continues(s, 0, 1, 1, seq![], j);
        let (l, c, p) = state_at(s, 0, 1, 1, seq![], j)->0;
        let t = lex(s)->Ok_0;
        assert(lex_from(s, j, l, c, p) == Ok::<Seq<Tok>, LexErr>(t));
        let np = add_newline(p, l, c);
        lemma_step_shape(s, j, l, c, p);
        lemma_step_advances(s, j, l, c, p);
        lemma_lex_shape(s, j + 1, l + 1, 1, np);
        assert(np.is_prefix_of(t));
        assert(p.is_prefix_of(np)) by {
            assert(np.take(p.len() as int) =~= p);
        }
        if !(p.len() > 0 && p.last().kind is Newline) {
            assert(np[p.len() as int] == Tok { kind: TokKind::Newline, line: l, col: c });
        }
    }
}

// ---------------------------------------------------------------------------
// Executable lexer
// ---------------------------------------------------------------------------

/// `char::is_alphanumeric` of std: the contract names the result
/// (`alphanumeric`), which depends on the character alone; the Unicode
/// property tables behind it are not stated.
#[verifier::external_body]
fn char_is_alphanumeric(c: char) -> (b: bool)
    ensures
        b == alphanumeric(c),
{
    c.is_alphanumeric()
}

pub fn is_ident_start(c: char) -> (b: bool)
    ensures
        b == ident_start(c),
{
    char_is_alphanumeric(c) || c == '_' || c == '@'
}

pub fn is_ident_continue(c: char) -> (b: bool)
    ensures
        b == ident_continue(c),
{
    is_ident_start(c) || c == '/' || c == '.' || c == '-'
}

/// How a token kind is named in messages (`Token::describe`).
pub open spec fn describe_kind(k: TokKind) -> Seq<char> {
    match k {
        TokKind::Ident(s) => "identifier '"@ + s + "'"@,
        TokKind::Str(s) => "string \""@ + s + "\""@,
        TokKind::LBrace => "'{'"@,
        TokKind::RBrace => "'}'"@,
        TokKind::LParen => "'('"@,
        TokKind::RParen => "')'"@,
        TokKind::Equals => "'='"@,
        TokKind::Comma => "','"@,
        TokKind::Newline => "end of line"@,
        TokKind::Eof => "end of file"@,
    }
}

/// Builds the message name of a token kind.
pub fn describe_token_kind(kind: &TokenKind) -> (r: String)
    ensures
        r@ == describe_kind(kind@),
{
    match kind {
        TokenKind::Ident(s) => {
            let mut r = String::new();
            push_str(&mut r, "identifier '");
            push_str(&mut r, s.as_str());
            push_str(&mut r, "'");
            r
        },
        TokenKind::Str(s) => {
            let mut r = String::new();
            push_str(&mut r, "string \"");
            push_str(&mut r, s.as_str());
            push_str(&mut r, "\"");
            r
        },
        TokenKind::LBrace => String::from_str("'{'"),
        TokenKind::RBrace => String::from_str("'}'"),
        TokenKind::LParen => String::from_str("'('"),
        TokenKind::RParen => String::from_str("')'"),
        TokenKind::Equals => String::from_str("'='"),
        TokenKind::Comma => String::from_str("','"),
        TokenKind::Newline => String::from_str("end of line"),
        TokenKind::Eof => String::from_str("end of file"),
    }
}

impl Token {
    /// How the token is named in messages.
    pub fn describe(&self) -> (r: String)
        ensures
            r@ == describe_kind(self@.kind),
    {
        describe_token_kind(&self.kind)
    }

    pub fn new(kind: TokenKind, line: usize, col: usize) -> (t: Token)
        ensures
            t.kind == kind,
            t.line == line,
            t.col == col,
    {
        Token { kind, line, col }
    }
}

/// Stage 2 of the pipeline: converts raw source text into a token stream.
pub struct Lexer {
    chars: Vec<char>,
}

impl View for Lexer {
    type V = Seq<char>;

    closed spec fn view(&self) -> Seq<char> {
        self.chars@
    }
}

impl Lexer {
    pub fn new(input: &str) -> (l: Lexer)
        ensures
            l@ == input@,
    {
        Lexer { chars: str_chars(input) }
    }

    /// Tokenizes the entire input, collapsing runs of blank lines.
    /// The stream is guaranteed to end with exactly one `TokenKind::Eof`.
    pub fn tokenize(self) -> (r: Result<Vec<Token>, LexError>)
        requires
            self@.len() < usize::MAX,
        ensures
            match (r, lex(self@)) {
                (Ok(v), Ok(t)) => toks_view(v@) == t,
                (Err(e), Err(le)) => e@ == le,
                _ => false,
            },
            r matches Ok(v) ==> no_blank_runs(toks_view(v@)) && ends_with_single_eof(
                toks_view(v@),
            ),
    {
        let s = self.chars.as_slice();
        let n = s.len();
        let mut tokens: Vec<Token> = Vec::new();
        let mut i: usize = 0;
        let mut line: usize = 1;
        let mut col: usize = 1;
        proof {
            assert(well_shaped(toks_view(tokens@)));
            lemma_lex_shape(s@, 0, 1, 1, seq![]);
            assert(toks_view(tokens@) =~= seq![]);
        }
        while i < n
            invariant
                n == s@.len(),
                s@ == self@,
                n < usize::MAX,
                i <= n,
                1 <= line <= i + 1,
                1 <= col <= i + 1,
                lex(s@) == lex_from(s@, i as nat, line as nat, col as nat, toks_view(tokens@)),
            decreases n - i,
        {
            let ghost tv = toks_view(tokens@);
            let ghost i0 = i as nat;
            let ghost l0 = line as nat;
            let ghost c0 = col as nat;
            proof {
                lemma_step_advances(s@, i0, l0, c0, tv);
            }
            match lex_one(s, i, line, col, &mut tokens) {
                Ok((i2, l2, c2)) => {
                    i = i2;
                    line = l2;
                    col = c2;
                },
                Err(e) => {
                    proof {
                        assert(lex_from(s@, i0, l0, c0, tv) == Err::<Seq<Tok>, LexErr>(e@));
                    }
                    return Err(e);
                },
            }
        }
        let ghost tv = toks_view(tokens@);
        tokens.push(Token::new(TokenKind::Eof, line, col));
        proof {
            assert(toks_view(tokens@) =~= tv.push(
                Tok { kind: TokKind::Eof, line: line as nat, col: col as nat },
            ));
        }
        Ok(tokens)
    }
}

/// Runs one step of the lexer at position `i < s.len()`: appends the token of
/// the next lexeme (if any) and returns the next position, or the error.
#[verifier::rlimit(40)]
fn lex_one(s: &[char], i: usize, line: usize, col: usize, tokens: &mut Vec<Token>) -> (r: Result<
    (usize, usize, usize),
    LexError,
>)
    requires
        i < s@.len() < usize::MAX,
        1 <= line <= i + 1,
        1 <= col <= i + 1,
    ensures
        match r {
            Ok((i2, l2, c2)) => lex_step(
                s@,
                i as nat,
                line as nat,
                col as nat,
                toks_view(old(tokens)@),
            ) == LexStep::Next(i2 as nat, l2 as nat, c2 as nat, toks_view(final(tokens)@)),
            Err(e) => lex_step(s@, i as nat, line as nat, col as nat, toks_view(old(tokens)@))
                == LexStep::Stop(Err(e@)),
        },
{
    let ghost tv = toks_view(tokens@);
    let n = s.len();
    let c = s[i];
    if c == '\n' {
        let last_is_newline = tokens.len() > 0 && match tokens[tokens.len() - 1].kind {
            TokenKind::Newline => true,
            _ => false,
        };
        if !last_is_newline {
            tokens.push(Token::new(TokenKind::Newline, line, col));
        }
        proof {
            assert(toks_view(tokens@) =~= add_newline(tv, line as nat, col as nat));
        }
        Ok((i + 1, line + 1, 1))
    } else if c == ' ' || c == '\t' || c == '\r' {
        Ok((i + 1, line, col + 1))
    } else if c == '-' {
        if i + 1 < n && s[i + 1] == '-' {
            let mut j = i;
            while j < n && s[j] != '\n'
                invariant
                    i <= j <= n,
                    n == s@.len(),
                    run_end(s@, i as nat, not_newline()) == run_end(s@, j as nat, not_newline()),
                decreases n - j,
            {
                proof {
                    lemma_run_end_step(s@, j as nat, not_newline());
                }
                j = j + 1;
            }
            proof {
                assert(run_end(s@, j as nat, not_newline()) == j);
                lemma_run_end_step(s@, i as nat, not_newline());
                lemma_run_end_bounds(s@, (i + 1) as nat, not_newline());
            }
            Ok((j, line, col + (j - i)))
        } else {
            Err(LexError { message: unexpected_message('-'), line: line, col: col })
        }
    } else if c == '{' || c == '}' || c == '(' || c == ')' || c == '=' || c == ',' {
        let kind = if c == '{' {
            TokenKind::LBrace
        } else if c == '}' {
            TokenKind::RBrace
        } else if c == '(' {
            TokenKind::LParen
        } else if c == ')' {
            TokenKind::RParen
        } else if c == '=' {
            TokenKind::Equals
        } else {
            TokenKind::Comma
        };
        tokens.push(Token::new(kind, line, col));
        proof {
            assert(toks_view(tokens@) =~= tv.push(
                Tok { kind: punct_kind(c), line: line as nat, col: col as nat },
            ));
        }
        Ok((i + 1, line, col + 1))
    } else if c == '\'' || c == '"' {
        let mut j = i + 1;
        while j < n && s[j] != c && s[j] != '\n'
            invariant
                i < j <= n,
                n == s@.len(),
                run_end(s@, (i + 1) as nat, in_string(c)) == run_end(s@, j as nat, in_string(c)),
            decreases n - j,
        {
            proof {
                lemma_run_end_step(s@, j as nat, in_string(c));
            }
            j = j + 1;
        }
        proof {
            assert(run_end(s@, j as nat, in_string(c)) == j);
        }
        if j < n && s[j] == c {
            let value = string_of(s, i + 1, j);
            tokens.push(Token::new(TokenKind::Str(value), line, col));
            proof {
                assert(toks_view(tokens@) =~= tv.push(
                    Tok {
                        kind: TokKind::Str(s@.subrange(i + 1, j as int)),
                        line: line as nat,
                        col: col as nat,
                    },
                ));
            }
            Ok((j + 1, line, col + (j + 1 - i)))
        } else {
            let message = unterminated_message(line, col);
            Err(LexError { message, line: line, col: col })
        }
    } else if is_ident_start(c) {
        let mut j = i;
        while j < n && is_ident_continue(s[j])
            invariant
                i <= j <= n,
                n == s@.len(),
                run_end(s@, i as nat, in_ident()) == run_end(s@, j as nat, in_ident()),
            decreases n - j,
        {
            proof {
                lemma_run_end_step(s@, j as nat, in_ident());
            }
            j = j + 1;
        }
        proof {
            assert(run_end(s@, j as nat, in_ident()) == j);
            lemma_run_end_step(s@, i as nat, in_ident());
            lemma_run_end_bounds(s@, (i + 1) as nat, in_ident());
        }
        let value = string_of(s, i, j);
        tokens.push(Token::new(TokenKind::Ident(value), line, col));
        proof {
            assert(toks_view(tokens@) =~= tv.push(
                Tok {
                    kind: TokKind::Ident(s@.subrange(i as int, j as int)),
                    line: line as nat,
                    col: col as nat,
                },
            ));
        }
        Ok((j, line, col + (j - i)))
    } else {
        Err(LexError { message: unexpected_message(c), line: line, col: col })
    }
}

/// Builds `"unexpected character 'c'"`.
fn unexpected_message(c: char) -> (m: String)
    ensures
        m@ == unexpected_msg(c),
{
    let mut m = String::new();
    push_str(&mut m, "unexpected character '");
    push_char(&mut m, c);
    push_str(&mut m, "'");
    m
}

/// Builds `"unterminated string starting at L:C"`.
fn unterminated_message(line: usize, col: usize) -> (m: String)
    ensures
        m@ == unterminated_msg(line as nat, col as nat),
{
    let mut m = String::new();
    push_str(&mut m, "unterminated string starting at ");
    push_decimal(&mut m, line as u128);
    push_str(&mut m, ":");
    push_decimal(&mut m, col as u128);
    m
}

} // verus!
