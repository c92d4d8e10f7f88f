//! The manifest pipeline: `Source` → [`Lexer`] → [`Parser`] → [`Manifest`].
use crate::ast::{Manifest, ManifestV};
use crate::lexer::{
    ends_with_single_eof, lemma_lex_stream_shape, located_text, lex, LexErr, LexError, Lexer,
};
use crate::parser::{parsable, parse_tokens, ParseErr, ParseError, Parser};
use vstd::prelude::*;
use vstd::string::StringSliceAdditionalSpecFns;

verus! {

/// The raw manifest input managed by the first stage of the pipeline.
#[derive(Debug, Clone, PartialEq, Eq)]
pub struct Source<'a> {
    input: &'a str,
}

impl<'a> View for Source<'a> {
    type V = Seq<char>;

    closed spec fn view(&self) -> Seq<char> {
        self.input@
    }
}

impl<'a> Source<'a> {
    /// Wraps raw manifest text.
    pub fn new(input: &'a str) -> (s: Self)
        ensures
            s@ == input@,
    {
        Source { input }
    }

    pub fn as_str(&self) -> (r: &'a str)
        ensures
            r@ == self@,
    {
        self.input
    }

    /// The length of the text in bytes.
    pub fn len(&self) -> (n: usize)
        ensures
            n == vstd::utf8::encode_utf8(self@).len() as usize,
    {
        self.input.len()
    }

    pub fn is_empty(&self) -> (b: bool)
        ensures
            b == (self@.len() == 0),
    {
        self.input.is_empty()
    }
}

/// Any failure raised while running the pipeline.
#[derive(Debug, Clone, PartialEq, Eq)]
pub enum Error {
    Lex(LexError),
    Parse(ParseError),
}

pub enum ErrorV {
    Lex(LexErr),
    Parse(ParseErr),
}

impl View for Error {
    type V = ErrorV;

    open spec fn view(&self) -> ErrorV {
        match self {
            Error::Lex(e) => ErrorV::Lex(e@),
            Error::Parse(e) => ErrorV::Parse(e@),
        }
    }
}

impl Error {
    /// The 1-based line and column where the failure was detected, and its message.
    pub fn location(&self) -> (r: (usize, usize, String))
        ensures
            match self@ {
                ErrorV::Lex(e) => r.0 == e.line && r.1 == e.col && r.2@ == e.message,
                ErrorV::Parse(e) => r.0 == e.line && r.1 == e.col && r.2@ == e.message,
            },
    {
        match self {
            Error::Lex(e) => (e.line, e.col, e.message.clone()),
            Error::Parse(e) => (e.line, e.col, e.message.clone()),
        }
    }
}

impl Error {
    /// The failure as the stage, the location and the message.
    pub fn text(&self) -> (r: String)
        ensures
            r@ == match self@ {
                ErrorV::Lex(e) => located_text("lex"@, e.line, e.col, e.message),
                ErrorV::Parse(e) => located_text("parse"@, e.line, e.col, e.message),
            },
    {
        match self {
            Error::Lex(e) => e.text(),
            Error::Parse(e) => e.text(),
        }
    }
}

/// The manifest that a text denotes, or the first lexical or grammar error.
pub open spec fn parse_manifest(s: Seq<char>) -> Result<ManifestV, ErrorV> {
    match lex(s) {
        Err(e) => Err(ErrorV::Lex(e)),
        Ok(t) => match parse_tokens(t) {
            Ok(m) => Ok(m),
            Err(e) => Err(ErrorV::Parse(e)),
        },
    }
}

/// The pipeline over a text of any length: the text is lexed, every token
/// stream the lexer gives meets what the parser asks of its input, and the
/// stream is parsed; a failure of either stage comes back as that stage's
/// error.
pub proof fn lemma_pipeline(s: Seq<char>)
    ensures
        lex(s) matches Ok(t) ==> parsable(t) && ends_with_single_eof(t),
        parse_manifest(s) == match lex(s) {
            Err(e) => Err(ErrorV::Lex(e)),
            Ok(t) => match parse_tokens(t) {
                Ok(m) => Ok(m),
                Err(e) => Err(ErrorV::Parse(e)),
            },
        },
{
    lemma_lex_stream_shape(s);
}

/// Runs the full pipeline over raw manifest text and returns the AST.
pub fn parse(input: &str) -> (r: Result<Manifest, Error>)
    requires
        input@.len() < usize::MAX,
    ensures
        match (r, parse_manifest(input@)) {
            (Ok(m), Ok(mv)) => m@ == mv,
            (Err(e), Err(ev)) => e@ == ev,
            _ => false,
        },
{
    let lexer = Lexer::new(input);
    match lexer.tokenize() {
        Err(e) => Err(Error::Lex(e)),
        Ok(tokens) => {
            let parser = Parser::new(tokens);
            proof {
                assert(ends_with_single_eof(parser@));
                assert(parsable(parser@));
            }
            match parser.parse() {
                Ok(m) => Ok(m),
                Err(e) => Err(Error::Parse(e)),
            }
        },
    }
}

} // verus!
