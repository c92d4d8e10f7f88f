//! Stage 3 of the manifest pipeline: grammar rules over the token stream.
use crate::ast::{
    key_name, key_of, manifest_of, statements_view, strings_view, Key, KeyV, Manifest, ManifestV,
    Statement, StatementV,
};
use crate::lexer::{
    describe_kind, describe_token_kind, located_text, toks_view, Tok, TokKind, Token, TokenKind,
};
use crate::text::{push_decimal, push_str};
use vstd::prelude::*;

verus! {

#[derive(Debug, Clone, PartialEq, Eq)]
pub struct ParseError {
    pub message: String,
    pub line: usize,
    pub col: usize,
}

/// The mathematical value of a [`ParseError`].
pub struct ParseErr {
    pub message: Seq<char>,
    pub line: nat,
    pub col: nat,
}

impl View for ParseError {
    type V = ParseErr;

    open spec fn view(&self) -> ParseErr {
        ParseErr { message: self.message@, line: self.line as nat, col: self.col as nat }
    }
}

impl ParseError {
    /// `parse error at LINE:COL: MESSAGE`.
    pub fn text(&self) -> (r: String)
        ensures
            r@ == located_text("parse"@, self.line as nat, self.col as nat, self.message@),
    {
        let mut r = String::new();
        push_str(&mut r, "parse");
        push_str(&mut r, " error at ");
        push_decimal(&mut r, self.line as u128);
        push_str(&mut r, ":");
        push_decimal(&mut r, self.col as u128);
        push_str(&mut r, ": ");
        push_str(&mut r, self.message.as_str());
        r
    }
}

// ---------------------------------------------------------------------------
// Specification of the grammar
// ---------------------------------------------------------------------------

/// The token under the cursor: reading past the end keeps returning the last token.
pub open spec fn peek_at(t: Seq<Tok>, pos: nat) -> Tok {
    if pos < t.len() {
        t[pos as int]
    } else {
        t.last()
    }
}

/// The cursor after consuming one token (it stops at the end).
pub open spec fn adv(t: Seq<Tok>, pos: nat) -> nat {
    if pos < t.len() {
        pos + 1
    } else {
        pos
    }
}

/// The cursor after skipping newline tokens.
pub open spec fn skip_nl(t: Seq<Tok>, pos: nat) -> nat
    decreases t.len() - pos,
{
    if pos < t.len() && t[pos as int].kind is Newline {
        skip_nl(t, pos + 1)
    } else {
        pos
    }
}

/// An error reported at the token under the cursor.
pub open spec fn err_at(t: Seq<Tok>, pos: nat, message: Seq<char>) -> ParseErr {
    ParseErr { message, line: peek_at(t, pos).line, col: peek_at(t, pos).col }
}

/// The text of a string or identifier token.
pub open spec fn value_of(k: TokKind) -> Option<Seq<char>> {
    match k {
        TokKind::Str(v) => Some(v),
        TokKind::Ident(v) => Some(v),
        _ => None,
    }
}

/// `( 'a', 'b', ... )` after the opening parenthesis, with `vals` read so far.
pub open spec fn parse_args(t: Seq<Tok>, pos: nat, vals: Seq<Seq<char>>) -> Result<
    (Seq<Seq<char>>, nat),
    ParseErr,
>
    decreases t.len() - pos,
{
    let kind = peek_at(t, pos).kind;
    if kind is RParen {
        Ok((vals, adv(t, pos)))
    } else {
        match value_of(kind) {
            Some(v) => {
                let p1 = adv(t, pos);
                let k1 = peek_at(t, p1).kind;
                if k1 is Comma {
                    let p2 = adv(t, p1);
                    if pos < p2 <= t.len() {
                        parse_args(t, p2, vals.push(v))
                    } else {
                        Err(err_at(t, p1, seq![]))  // never taken: a comma token was consumed

                    }
                } else if k1 is RParen {
                    Ok((vals.push(v), adv(t, p1)))
                } else {
                    Err(
                        err_at(
                            t,
                            p1,
                            "expected ',' or ')' in argument list, found "@ + describe_kind(k1),
                        ),
                    )
                }
            },
            None => Err(err_at(t, pos, "expected a string argument, found "@ + describe_kind(kind))),
        }
    }
}

/// `{ 'a', 'b', ... }` after the opening brace, with `vals` read so far;
/// newlines and a trailing comma are allowed inside.
pub open spec fn parse_table(t: Seq<Tok>, pos: nat, key: KeyV, vals: Seq<Seq<char>>) -> Result<
    (StatementV, nat),
    ParseErr,
>
    decreases t.len() - pos,
{
    let p0 = skip_nl(t, pos);
    let kind = peek_at(t, p0).kind;
    if kind is RBrace {
        Ok((StatementV::Table(key, vals), adv(t, p0)))
    } else {
        match value_of(kind) {
            Some(v) => {
                let p1 = skip_nl(t, adv(t, p0));
                let k1 = peek_at(t, p1).kind;
                if k1 is Comma {
                    let p2 = adv(t, p1);
                    if pos < p2 <= t.len() {
                        parse_table(t, p2, key, vals.push(v))
                    } else {
                        Err(err_at(t, p1, seq![]))  // never taken: a comma token was consumed

                    }
                } else if k1 is RBrace {
                    Ok((StatementV::Table(key, vals.push(v)), adv(t, p1)))
                } else {
                    Err(
                        err_at(
                            t,
                            p1,
                            "expected ',' or '}' in table '"@ + key_name(key) + "', found "@
                                + describe_kind(k1),
                        ),
                    )
                }
            },
            None => Err(
                err_at(
                    t,
                    p0,
                    "expected a string in table '"@ + key_name(key) + "', found "@ + describe_kind(
                        kind,
                    ),
                ),
            ),
        }
    }
}

/// A declaration must be followed by the end of its line.
pub open spec fn end_check(t: Seq<Tok>, r: Result<(StatementV, nat), ParseErr>) -> Result<
    (StatementV, nat),
    ParseErr,
> {
    match r {
        Ok((st, p)) => {
            let k = peek_at(t, p).kind;
            if k is Newline || k is Eof {
                Ok((st, p))
            } else {
                Err(err_at(t, p, "expected end of line, found "@ + describe_kind(k)))
            }
        },
        Err(e) => Err(e),
    }
}

/// The statement of one call argument list: one value is a scalar.
pub open spec fn args_statement(key: KeyV, r: Result<(Seq<Seq<char>>, nat), ParseErr>) -> Result<
    (StatementV, nat),
    ParseErr,
> {
    match r {
        Ok((vals, p)) => Ok(
            (
                if vals.len() == 1 {
                    StatementV::Scalar(key, vals[0])
                } else {
                    StatementV::Table(key, vals)
                },
                p,
            ),
        ),
        Err(e) => Err(e),
    }
}

/// The declaration whose key is `key`, from the token after the key.
pub open spec fn parse_stmt(t: Seq<Tok>, pos: nat, key: KeyV) -> Result<(StatementV, nat), ParseErr> {
    let kind = peek_at(t, pos).kind;
    if kind is LParen {
        end_check(t, args_statement(key, parse_args(t, adv(t, pos), seq![])))
    } else if kind is Equals {
        let p1 = adv(t, pos);
        let k1 = peek_at(t, p1).kind;
        if k1 is LBrace {
            end_check(t, parse_table(t, adv(t, p1), key, seq![]))
        } else {
            match value_of(k1) {
                Some(v) => end_check(t, Ok((StatementV::Scalar(key, v), adv(t, p1)))),
                None => Err(
                    err_at(t, p1, "expected a value or '{' after '=', found "@ + describe_kind(k1)),
                ),
            }
        }
    } else if kind is LBrace {
        end_check(t, parse_table(t, adv(t, pos), key, seq![]))
    } else {
        match value_of(kind) {
            Some(v) => end_check(t, Ok((StatementV::Scalar(key, v), adv(t, pos)))),
            None => Err(
                err_at(
                    t,
                    pos,
                    "declaration '"@ + key_name(key) + "' has no value, found "@ + describe_kind(
                        kind,
                    ),
                ),
            ),
        }
    }
}

/// All declarations from `pos` on, after the statements `stmts` read so far.
pub open spec fn parse_all(t: Seq<Tok>, pos: nat, stmts: Seq<StatementV>) -> Result<
    Seq<StatementV>,
    ParseErr,
>
    decreases t.len() - pos,
{
    let p0 = skip_nl(t, pos);
    let kind = peek_at(t, p0).kind;
    if kind is Eof {
        Ok(stmts)
    } else {
        match kind {
            TokKind::Ident(name) => match parse_stmt(t, adv(t, p0), key_of(name)) {
                Ok((st, p)) => if pos < p <= t.len() {
                    parse_all(t, p, stmts.push(st))
                } else {
                    Err(err_at(t, p, seq![]))  // never taken: the key token was consumed

                },
                Err(e) => Err(e),
            },
            _ => Err(err_at(t, p0, "expected a declaration key, found "@ + describe_kind(kind))),
        }
    }
}

/// The manifest that a token stream denotes, or the first grammar error.
pub open spec fn parse_tokens(t: Seq<Tok>) -> Result<ManifestV, ParseErr> {
    match parse_all(t, 0, seq![]) {
        Ok(stmts) => Ok(manifest_of(stmts)),
        Err(e) => Err(e),
    }
}

/// What the parser accepts as input: a non-empty stream that does not end in
/// a newline token (the lexer ends every stream with `Eof`).
pub open spec fn parsable(t: Seq<Tok>) -> bool {
    t.len() > 0 && !(t.last().kind is Newline)
}

// ---------------------------------------------------------------------------
// Lemmas
// ---------------------------------------------------------------------------

pub proof fn lemma_skip_nl(t: Seq<Tok>, pos: nat)
    requires
        parsable(t),
        pos <= t.len(),
    ensures
        pos <= skip_nl(t, pos) <= t.len(),
        !(peek_at(t, skip_nl(t, pos)).kind is Newline),
        forall|j: int| pos <= j < skip_nl(t, pos) ==> (#[trigger] t[j]).kind is Newline,
    decreases t.len() - pos,
{
    if pos < t.len() && t[pos as int].kind is Newline {
        lemma_skip_nl(t, pos + 1);
    }
}

pub proof fn lemma_args_bounds(t: Seq<Tok>, pos: nat, vals: Seq<Seq<char>>)
    requires
        parsable(t),
        pos <= t.len(),
    ensures
        parse_args(t, pos, vals) matches Ok((v, p)) ==> pos <= p <= t.len(),
    decreases t.len() - pos,
{
    let kind = peek_at(t, pos).kind;
    if !(kind is RParen) {
        if let Some(v) = value_of(kind) {
            let p1 = adv(t, pos);
            let p2 = adv(t, p1);
            if peek_at(t, p1).kind is Comma && pos < p2 <= t.len() {
                lemma_args_bounds(t, p2, vals.push(v));
            }
        }
    }
}

pub proof fn lemma_table_bounds(t: Seq<Tok>, pos: nat, key: KeyV, vals: Seq<Seq<char>>)
    requires
        parsable(t),
        pos <= t.len(),
    ensures
        parse_table(t, pos, key, vals) matches Ok((st, p)) ==> pos <= p <= t.len(),
    decreases t.len() - pos,
{
    let p0 = skip_nl(t, pos);
    lemma_skip_nl(t, pos);
    let kind = peek_at(t, p0).kind;
    if !(kind is RBrace) {
        if let Some(v) = value_of(kind) {
            let p1 = skip_nl(t, adv(t, p0));
            lemma_skip_nl(t, adv(t, p0));
            let p2 = adv(t, p1);
            if peek_at(t, p1).kind is Comma && pos < p2 <= t.len() {
                lemma_table_bounds(t, p2, key, vals.push(v));
            }
        }
    }
}

pub proof fn lemma_stmt_bounds(t: Seq<Tok>, pos: nat, key: KeyV)
    requires
        parsable(t),
        pos <= t.len(),
    ensures
        parse_stmt(t, pos, key) matches Ok((st, p)) ==> pos <= p <= t.len(),
        pos == t.len() && value_of(t.last().kind) is Some ==> parse_stmt(t, pos, key) is Err,
{
    lemma_args_bounds(t, adv(t, pos), seq![]);
    lemma_table_bounds(t, adv(t, pos), key, seq![]);
    lemma_table_bounds(t, adv(t, adv(t, pos)), key, seq![]);
}

// ---------------------------------------------------------------------------
// Executable parser
// ---------------------------------------------------------------------------

pub open spec fn args_view(r: Result<(Vec<String>, usize), ParseError>) -> Result<
    (Seq<Seq<char>>, nat),
    ParseErr,
> {
    match r {
        Ok((v, p)) => Ok((strings_view(v@), p as nat)),
        Err(e) => Err(e@),
    }
}

pub open spec fn stmt_view(r: Result<(Statement, usize), ParseError>) -> Result<
    (StatementV, nat),
    ParseErr,
> {
    match r {
        Ok((s, p)) => Ok((s@, p as nat)),
        Err(e) => Err(e@),
    }
}

/// The token under the cursor.
fn peek(t: &[Token], pos: usize) -> (r: &Token)
    requires
        t@.len() > 0,
    ensures
        r@ == peek_at(toks_view(t@), pos as nat),
{
    if pos < t.len() {
        &t[pos]
    } else {
        &t[t.len() - 1]
    }
}

fn next(t: &[Token], pos: usize) -> (r: usize)
    ensures
        r == adv(toks_view(t@), pos as nat),
{
    if pos < t.len() {
        pos + 1
    } else {
        pos
    }
}

fn is_newline(tok: &Token) -> (b: bool)
    ensures
        b == tok@.kind is Newline,
{
    match tok.kind {
        TokenKind::Newline => true,
        _ => false,
    }
}

fn skip_newlines(t: &[Token], pos: usize) -> (r: usize)
    requires
        parsable(toks_view(t@)),
        pos <= t@.len(),
    ensures
        r == skip_nl(toks_view(t@), pos as nat),
{
    let ghost tv = toks_view(t@);
    let mut p = pos;
    while p < t.len() && is_newline(&t[p])
        invariant
            pos <= p <= t@.len(),
            tv == toks_view(t@),
            skip_nl(tv, pos as nat) == skip_nl(tv, p as nat),
        decreases t.len() - p,
    {
        p = p + 1;
    }
    p
}

/// The text of a string or identifier token.
fn token_value(k: &TokenKind) -> (r: Option<&String>)
    ensures
        (match r {
            Some(s) => Some(s@),
            None => None,
        }) == value_of(k@),
{
    match k {
        TokenKind::Str(v) => Some(v),
        TokenKind::Ident(v) => Some(v),
        _ => None,
    }
}

fn error_at(t: &[Token], pos: usize, message: String) -> (e: ParseError)
    requires
        t@.len() > 0,
    ensures
        e@ == err_at(toks_view(t@), pos as nat, message@),
{
    let tok = peek(t, pos);
    ParseError { message, line: tok.line, col: tok.col }
}

/// `prefix` followed by the description of a token kind.
fn message_found(prefix: &str, kind: &TokenKind) -> (m: String)
    ensures
        m@ == prefix@ + describe_kind(kind@),
{
    let mut m = String::from_str(prefix);
    let d = describe_token_kind(kind);
    push_str(&mut m, d.as_str());
    m
}

/// `prefix`, the key name, `middle`, then the description of a token kind.
fn message_key_found(prefix: &str, key: &Key, middle: &str, kind: &TokenKind) -> (m: String)
    ensures
        m@ == prefix@ + key_name(key@) + middle@ + describe_kind(kind@),
{
    let mut m = String::from_str(prefix);
    push_str(&mut m, key.as_str());
    push_str(&mut m, middle);
    let d = describe_token_kind(kind);
    push_str(&mut m, d.as_str());
    m
}

/// Stage 3 of the pipeline: applies grammar rules to the token stream.
pub struct Parser {
    tokens: Vec<Token>,
}

impl View for Parser {
    type V = Seq<Tok>;

    closed spec fn view(&self) -> Seq<Tok> {
        toks_view(self.tokens@)
    }
}

impl Parser {
    pub fn new(tokens: Vec<Token>) -> (p: Parser)
        ensures
            p@ == toks_view(tokens@),
    {
        Parser { tokens }
    }

    /// Parses every declaration. The stream must be non-empty and must not end
    /// with a newline token (on such a stream the declaration loop would not end).
    pub fn parse(self) -> (r: Result<Manifest, ParseError>)
        requires
            parsable(self@),
        ensures
            match (r, parse_tokens(self@)) {
                (Ok(m), Ok(mv)) => m@ == mv,
                (Err(e), Err(ev)) => e@ == ev,
                _ => false,
            },
    {
        let t = self.tokens.as_slice();
        let ghost tv = toks_view(t@);
        let mut statements: Vec<Statement> = Vec::new();
        let mut pos: usize = 0;
        proof {
            assert(statements_view(statements@) =~= seq![]);
        }
        loop
            invariant
                tv == toks_view(t@),
                tv == self@,
                parsable(tv),
                pos <= t@.len(),
                parse_all(tv, 0, seq![]) == parse_all(
                    tv,
                    pos as nat,
                    statements_view(statements@),
                ),
            ensures
                parse_all(tv, 0, seq![]) == Ok::<Seq<StatementV>, ParseErr>(
                    statements_view(statements@),
                ),
            decreases t@.len() - pos,
        {
            let ghost sv = statements_view(statements@);
            let p0 = skip_newlines(t, pos);
            proof {
                lemma_skip_nl(tv, pos as nat);
            }
            let tok = peek(t, p0);
            match &tok.kind {
                TokenKind::Eof => {
                    break;
                },
                TokenKind::Ident(name) => {
                    let key = Key::parse(name.as_str());
                    let q = next(t, p0);
                    proof {
                        lemma_stmt_bounds(tv, q as nat, key@);
                    }
                    match Self::parse_statement(t, q, key) {
                        Ok((st, p)) => {
                            statements.push(st);
                            proof {
                                assert(statements_view(statements@) =~= sv.push(st@));
                            }
                            pos = p;
                        },
                        Err(e) => {
                            return Err(e);
                        },
                    }
                },
                other => {
                    let m = message_found("expected a declaration key, found ", other);
                    return Err(error_at(t, p0, m));
                },
            }
        }
        Ok(Manifest::from_statements(statements))
    }

    fn end_of_statement(t: &[Token], r: Result<(Statement, usize), ParseError>) -> (o: Result<
        (Statement, usize),
        ParseError,
    >)
        requires
            t@.len() > 0,
        ensures
            stmt_view(o) == end_check(toks_view(t@), stmt_view(r)),
    {
        match r {
            Ok((st, p)) => {
                let tok = peek(t, p);
                match &tok.kind {
                    TokenKind::Newline => Ok((st, p)),
                    TokenKind::Eof => Ok((st, p)),
                    other => {
                        let m = message_found("expected end of line, found ", other);
                        Err(error_at(t, p, m))
                    },
                }
            },
            Err(e) => Err(e),
        }
    }

    fn parse_statement(t: &[Token], pos: usize, key: Key) -> (r: Result<
        (Statement, usize),
        ParseError,
    >)
        requires
            parsable(toks_view(t@)),
            pos <= t@.len(),
        ensures
            stmt_view(r) == parse_stmt(toks_view(t@), pos as nat, key@),
    {
        let ghost tv = toks_view(t@);
        let tok = peek(t, pos);
        match &tok.kind {
            TokenKind::LParen => {
                let args = Self::parse_call_args(t, next(t, pos));
                let r = match args {
                    Ok((values, p)) => {
                        if values.len() == 1 {
                            let ghost all = strings_view(values@);
                            let mut values = values;
                            let value = values.pop().unwrap();
                            proof {
                                assert(value@ == all[0]);
                            }
                            Ok((Statement::Scalar { key, value }, p))
                        } else {
                            Ok((Statement::Table { key, values }, p))
                        }
                    },
                    Err(e) => Err(e),
                };
                proof {
                    assert(stmt_view(r) == args_statement(
                        key@,
                        parse_args(tv, adv(tv, pos as nat), seq![]),
                    ));
                }
                Self::end_of_statement(t, r)
            },
            TokenKind::Equals => {
                let p1 = next(t, pos);
                let tok1 = peek(t, p1);
                match &tok1.kind {
                    TokenKind::LBrace => {
                        let r = Self::parse_table_body(t, next(t, p1), key);
                        Self::end_of_statement(t, r)
                    },
                    other => match token_value(other) {
                        Some(v) => {
                            let value = v.clone();
                            Self::end_of_statement(
                                t,
                                Ok((Statement::Scalar { key, value }, next(t, p1))),
                            )
                        },
                        None => {
                            let m = message_found(
                                "expected a value or '{' after '=', found ",
                                other,
                            );
                            Err(error_at(t, p1, m))
                        },
                    },
                }
            },
            TokenKind::LBrace => {
                let r = Self::parse_table_body(t, next(t, pos), key);
                Self::end_of_statement(t, r)
            },
            other => match token_value(other) {
                Some(v) => {
                    let value = v.clone();
                    Self::end_of_statement(t, Ok((Statement::Scalar { key, value }, next(t, pos))))
                },
                None => {
                    let m = message_key_found("declaration '", &key, "' has no value, found ", other);
                    Err(error_at(t, pos, m))
                },
            },
        }
    }

    /// Parses `( 'a', 'b', ... )` after the opening parenthesis.
    fn parse_call_args(t: &[Token], pos: usize) -> (r: Result<(Vec<String>, usize), ParseError>)
        requires
            parsable(toks_view(t@)),
            pos <= t@.len(),
        ensures
            args_view(r) == parse_args(toks_view(t@), pos as nat, seq![]),
    {
        let ghost tv = toks_view(t@);
        let ghost start = pos as nat;
        let mut values: Vec<String> = Vec::new();
        let mut cur = pos;
        proof {
            assert(strings_view(values@) =~= seq![]);
        }
        loop
            invariant
                tv == toks_view(t@),
                start == pos as nat,
                parsable(tv),
                cur <= t@.len(),
                parse_args(tv, start, seq![]) == parse_args(tv, cur as nat, strings_view(values@)),
            decreases t@.len() - cur,
        {
            let ghost vv = strings_view(values@);
            let tok = peek(t, cur);
            match &tok.kind {
                TokenKind::RParen => {
                    let r = Ok((values, next(t, cur)));
                    assert(args_view(r) == parse_args(tv, cur as nat, vv));
                    return r;
                },
                other => match token_value(other) {
                    Some(v) => {
                        let value = v.clone();
                        let p1 = next(t, cur);
                        values.push(value);
                        proof {
                            assert(strings_view(values@) =~= vv.push(v@));
                        }
                        let tok1 = peek(t, p1);
                        match &tok1.kind {
                            TokenKind::Comma => {
                                cur = next(t, p1);
                            },
                            TokenKind::RParen => {
                                let r = Ok((values, next(t, p1)));
                                assert(args_view(r) == parse_args(tv, cur as nat, vv));
                                return r;
                            },
                            other1 => {
                                let m = message_found(
                                    "expected ',' or ')' in argument list, found ",
                                    other1,
                                );
                                let r = Err(error_at(t, p1, m));
                                assert(args_view(r) == parse_args(tv, cur as nat, vv));
                                return r;
                            },
                        }
                    },
                    None => {
                        let m = message_found("expected a string argument, found ", other);
                        let r = Err(error_at(t, cur, m));
                        assert(args_view(r) == parse_args(tv, cur as nat, vv));
                        return r;
                    },
                },
            }
        }
    }

    /// Parses `{ 'a', 'b', ... }` up to and including the closing brace;
    /// newlines and trailing commas are allowed inside the table.
    fn parse_table_body(t: &[Token], pos: usize, key: Key) -> (r: Result<
        (Statement, usize),
        ParseError,
    >)
        requires
            parsable(toks_view(t@)),
            pos <= t@.len(),
        ensures
            stmt_view(r) == parse_table(toks_view(t@), pos as nat, key@, seq![]),
    {
        let ghost tv = toks_view(t@);
        let ghost start = pos as nat;
        let mut values: Vec<String> = Vec::new();
        let mut cur = pos;
        proof {
            assert(strings_view(values@) =~= seq![]);
        }
        loop
            invariant
                tv == toks_view(t@),
                start == pos as nat,
                parsable(tv),
                cur <= t@.len(),
                parse_table(tv, start, key@, seq![]) == parse_table(
                    tv,
                    cur as nat,
                    key@,
                    strings_view(values@),
                ),
            decreases t@.len() - cur,
        {
            let ghost vv = strings_view(values@);
            let p0 = skip_newlines(t, cur);
            proof {
                lemma_skip_nl(tv, cur as nat);
            }
            let tok = peek(t, p0);
            match &tok.kind {
                TokenKind::RBrace => {
                    let ghost kv = key@;
                    let r = Ok((Statement::Table { key, values }, next(t, p0)));
                    assert(stmt_view(r) == parse_table(tv, cur as nat, kv, vv));
                    return r;
                },
                other => match token_value(other) {
                    Some(v) => {
                        let value = v.clone();
                        values.push(value);
                        proof {
                            assert(strings_view(values@) =~= vv.push(v@));
                        }
                        let p1 = skip_newlines(t, next(t, p0));
                        proof {
                            lemma_skip_nl(tv, adv(tv, p0 as nat));
                        }
                        let tok1 = peek(t, p1);
                        match &tok1.kind {
                            TokenKind::Comma => {
                                cur = next(t, p1);
                            },
                            TokenKind::RBrace => {
                                let ghost kv = key@;
                                let r = Ok((Statement::Table { key, values }, next(t, p1)));
                                assert(stmt_view(r) == parse_table(tv, cur as nat, kv, vv));
                                return r;
                            },
                            other1 => {
                                let m = message_key_found(
                                    "expected ',' or '}' in table '",
                                    &key,
                                    "', found ",
                                    other1,
                                );
                                let ghost kv = key@;
                                let r = Err(error_at(t, p1, m));
                                assert(stmt_view(r) == parse_table(tv, cur as nat, kv, vv));
                                return r;
                            },
                        }
                    },
                    None => {
                        let m = message_key_found(
                            "expected a string in table '",
                            &key,
                            "', found ",
                            other,
                        );
                        let ghost kv = key@;
                        let r = Err(error_at(t, p0, m));
                        assert(stmt_view(r) == parse_table(tv, cur as nat, kv, vv));
                        return r;
                    },
                },
            }
        }
    }
}

// ---------------------------------------------------------------------------
// Call-form declarations
// ---------------------------------------------------------------------------

/// A call-form declaration with one argument, `key('v')` at the end of its
/// line, is a scalar declaration of `v`; the declaration ends after `)`.
pub proof fn lemma_call_with_one_argument(t: Seq<Tok>, pos: nat, key: KeyV, v: Seq<char>)
    requires
        pos + 3 < t.len(),
        t[pos as int].kind is LParen,
        t[pos + 1int].kind == TokKind::Str(v),
        t[pos + 2int].kind is RParen,
        t[pos + 3int].kind is Newline || t[pos + 3int].kind is Eof,
    ensures
        parse_stmt(t, pos, key) == Ok::<(StatementV, nat), ParseErr>(
            (StatementV::Scalar(key, v), pos + 3),
        ),
{
    assert(parse_args(t, pos + 1, seq![]) == Ok::<(Seq<Seq<char>>, nat), ParseErr>(
        (seq![v], pos + 3),
    ));
}

/// A bare declaration `key 'v'` at the end of its line is a scalar
/// declaration of `v`.
pub proof fn lemma_bare_declaration(t: Seq<Tok>, pos: nat, key: KeyV, v: Seq<char>)
    requires
        pos + 1 < t.len(),
        t[pos as int].kind == TokKind::Str(v),
        t[pos + 1int].kind is Newline || t[pos + 1int].kind is Eof,
    ensures
        parse_stmt(t, pos, key) == Ok::<(StatementV, nat), ParseErr>(
            (StatementV::Scalar(key, v), pos + 1),
        ),
{
}

/// `key('v')` and `key 'v'` declare the same thing.
pub proof fn lemma_call_same_as_bare(
    t1: Seq<Tok>,
    p1: nat,
    t2: Seq<Tok>,
    p2: nat,
    key: KeyV,
    v: Seq<char>,
)
    requires
        p1 + 3 < t1.len(),
        t1[p1 as int].kind is LParen,
        t1[p1 + 1int].kind == TokKind::Str(v),
        t1[p1 + 2int].kind is RParen,
        t1[p1 + 3int].kind is Newline || t1[p1 + 3int].kind is Eof,
        p2 + 1 < t2.len(),
        t2[p2 as int].kind == TokKind::Str(v),
        t2[p2 + 1int].kind is Newline || t2[p2 + 1int].kind is Eof,
    ensures
        parse_stmt(t1, p1, key) is Ok,
        parse_stmt(t2, p2, key) is Ok,
        parse_stmt(t1, p1, key)->Ok_0.0 == parse_stmt(t2, p2, key)->Ok_0.0,
{
    lemma_call_with_one_argument(t1, p1, key, v);
    lemma_bare_declaration(t2, p2, key, v);
}

/// A call-form declaration with no argument, `key()`, is an empty table.
pub proof fn lemma_call_without_arguments(t: Seq<Tok>, pos: nat, key: KeyV)
    requires
        pos + 2 < t.len(),
        t[pos as int].kind is LParen,
        t[pos + 1int].kind is RParen,
        t[pos + 2int].kind is Newline || t[pos + 2int].kind is Eof,
    ensures
        parse_stmt(t, pos, key) == Ok::<(StatementV, nat), ParseErr>(
            (StatementV::Table(key, seq![]), pos + 2),
        ),
{
}

/// A call-form declaration with two arguments, `key('a', 'b')`, is a table
/// of both, in order.
pub proof fn lemma_call_with_two_arguments(
    t: Seq<Tok>,
    pos: nat,
    key: KeyV,
    a: Seq<char>,
    b: Seq<char>,
)
    requires
        pos + 5 < t.len(),
        t[pos as int].kind is LParen,
        t[pos + 1int].kind == TokKind::Str(a),
        t[pos + 2int].kind is Comma,
        t[pos + 3int].kind == TokKind::Str(b),
        t[pos + 4int].kind is RParen,
        t[pos + 5int].kind is Newline || t[pos + 5int].kind is Eof,
    ensures
        parse_stmt(t, pos, key) == Ok::<(StatementV, nat), ParseErr>(
            (StatementV::Table(key, seq![a, b]), pos + 5),
        ),
{
    assert(seq![a].push(b) =~= seq![a, b]);
    assert(Seq::<Seq<char>>::empty().push(a) =~= seq![a]);
    assert(parse_args(t, pos + 3, seq![a]) == Ok::<(Seq<Seq<char>>, nat), ParseErr>(
        (seq![a, b], pos + 5),
    ));
    assert(parse_args(t, pos + 1, seq![]) == Ok::<(Seq<Seq<char>>, nat), ParseErr>(
        (seq![a, b], pos + 5),
    ));
}

/// An assignment `key = 'v'` at the end of its line is a scalar declaration
/// of `v`.
pub proof fn lemma_assignment_declaration(t: Seq<Tok>, pos: nat, key: KeyV, v: Seq<char>)
    requires
        pos + 2 < t.len(),
        t[pos as int].kind is Equals,
        t[pos + 1int].kind == TokKind::Str(v),
        t[pos + 2int].kind is Newline || t[pos + 2int].kind is Eof,
    ensures
        parse_stmt(t, pos, key) == Ok::<(StatementV, nat), ParseErr>(
            (StatementV::Scalar(key, v), pos + 2),
        ),
{
}

/// A braced table `key { 'a', 'b' }` at the end of its line is a table of
/// both values, in order.
pub proof fn lemma_braced_table(t: Seq<Tok>, pos: nat, key: KeyV, a: Seq<char>, b: Seq<char>)
    requires
        pos + 5 < t.len(),
        t[pos as int].kind is LBrace,
        t[pos + 1int].kind == TokKind::Str(a),
        t[pos + 2int].kind is Comma,
        t[pos + 3int].kind == TokKind::Str(b),
        t[pos + 4int].kind is RBrace,
        t[pos + 5int].kind is Newline || t[pos + 5int].kind is Eof,
    ensures
        parse_stmt(t, pos, key) == Ok::<(StatementV, nat), ParseErr>(
            (StatementV::Table(key, seq![a, b]), pos + 5),
        ),
{
    assert(seq![a].push(b) =~= seq![a, b]);
    assert(Seq::<Seq<char>>::empty().push(a) =~= seq![a]);
    assert(skip_nl(t, pos + 1) == pos + 1);
    assert(skip_nl(t, pos + 2) == pos + 2);
    assert(skip_nl(t, pos + 3) == pos + 3);
    assert(skip_nl(t, pos + 4) == pos + 4);
    assert(parse_table(t, pos + 3, key, seq![a]) == Ok::<(StatementV, nat), ParseErr>(
        (StatementV::Table(key, seq![a, b]), pos + 5),
    ));
    assert(parse_table(t, pos + 1, key, seq![]) == Ok::<(StatementV, nat), ParseErr>(
        (StatementV::Table(key, seq![a, b]), pos + 5),
    ));
}

/// A stream that holds the one declaration `name('v')` gives a manifest whose
/// one declaration is the scalar `v`: reading its key gives `v`, and when
/// the key is `fx_version` the manifest's `fx_version` is `v`.
pub proof fn lemma_single_call_manifest(t: Seq<Tok>, name: Seq<char>, v: Seq<char>)
    requires
        t.len() == 5,
        t[0].kind == TokKind::Ident(name),
        t[1].kind is LParen,
        t[2].kind == TokKind::Str(v),
        t[3].kind is RParen,
        t[4].kind is Eof,
    ensures
        parse_tokens(t) == Ok::<ManifestV, ParseErr>(
            manifest_of(seq![StatementV::Scalar(key_of(name), v)]),
        ),
        parse_tokens(t)->Ok_0.statements == seq![StatementV::Scalar(key_of(name), v)],
        crate::ast::first_scalar(parse_tokens(t)->Ok_0.statements, key_of(name)) == Some(v),
        key_of(name) == KeyV::FxVersion ==> parse_tokens(t)->Ok_0.fx_version == Some(v),
{
    let st = StatementV::Scalar(key_of(name), v);
    lemma_call_with_one_argument(t, 1, key_of(name), v);
    assert(skip_nl(t, 0) == 0);
    assert(skip_nl(t, 4) == 4);
    assert(parse_all(t, 4, seq![st]) == Ok::<Seq<StatementV>, ParseErr>(seq![st]));
    assert(parse_all(t, 0, seq![]) == Ok::<Seq<StatementV>, ParseErr>(seq![st]));
    let ss = seq![st];
    assert(ss.drop_first() =~= Seq::<StatementV>::empty());
    assert(ss.drop_last() =~= Seq::<StatementV>::empty());
}

/// The token stream of `n` lines `name_i('v_i')`, each ended by a newline,
/// then the end of input.
pub open spec fn call_lines(t: Seq<Tok>, names: Seq<Seq<char>>, vals: Seq<Seq<char>>) -> bool {
    let n = names.len() as int;
    &&& vals.len() == n
    &&& t.len() == 5 * n + 1
    &&& t[5 * n].kind is Eof
    &&& forall|i: int|
        0 <= i < n ==> {
            &&& (#[trigger] t[5 * i]).kind == TokKind::Ident(names[i])
            &&& t[5 * i + 1].kind is LParen
            &&& t[5 * i + 2].kind == TokKind::Str(vals[i])
            &&& t[5 * i + 3].kind is RParen
            &&& t[5 * i + 4].kind is Newline
        }
}

proof fn lemma_call_lines_from(
    t: Seq<Tok>,
    names: Seq<Seq<char>>,
    vals: Seq<Seq<char>>,
    i: int,
)
    requires
        call_lines(t, names, vals),
        0 <= i <= names.len(),
    ensures
        parse_all(t, (5 * i) as nat, Seq::new(i as nat, |k: int| StatementV::Scalar(key_of(names[k]), vals[k])))
            == Ok::<Seq<StatementV>, ParseErr>(
            Seq::new(names.len(), |k: int| StatementV::Scalar(key_of(names[k]), vals[k])),
        ),
    decreases names.len() - i,
{
    let n = names.len() as int;
    let f = |k: int| StatementV::Scalar(key_of(names[k]), vals[k]);
    let pos = (5 * i) as nat;
    if i == n {
        assert(skip_nl(t, pos) == pos);
        assert(Seq::new(i as nat, f) =~= Seq::new(names.len(), f));
    } else {
        assert(t[5 * i].kind == TokKind::Ident(names[i]));
        assert(skip_nl(t, pos) == pos);
        let key = key_of(names[i]);
        lemma_call_with_one_argument(t, pos + 1, key, vals[i]);
        let st = StatementV::Scalar(key, vals[i]);
        let next = (5 * (i + 1)) as nat;
        if i + 1 < n {
            assert(t[5 * (i + 1)].kind == TokKind::Ident(names[i + 1]));
        }
        assert(!(t[next as int].kind is Newline));
        assert(skip_nl(t, next) == next);
        assert(skip_nl(t, pos + 4) == next);
        let s1 = Seq::new(i as nat, f).push(st);
        assert(s1 =~= Seq::new((i + 1) as nat, f));
        lemma_call_lines_from(t, names, vals, i + 1);
        assert(parse_all(t, pos + 4, s1) == parse_all(t, next, s1));
    }
}

/// A manifest written as call-form declarations with one argument each,
/// `name_i('v_i')` on line `i`, declares the scalars `v_i` under those keys,
/// in order; so `fx_version('x')` sets the manifest's `fx_version` to `x`.
pub proof fn lemma_call_lines_manifest(t: Seq<Tok>, names: Seq<Seq<char>>, vals: Seq<Seq<char>>)
    requires
        call_lines(t, names, vals),
    ensures
        parse_tokens(t) == Ok::<ManifestV, ParseErr>(
            manifest_of(
                Seq::new(names.len(), |k: int| StatementV::Scalar(key_of(names[k]), vals[k])),
            ),
        ),
{
    lemma_call_lines_from(t, names, vals, 0);
    assert(Seq::new(0, |k: int| StatementV::Scalar(key_of(names[k]), vals[k])) =~= Seq::<
        StatementV,
    >::empty());
}

} // verus!
