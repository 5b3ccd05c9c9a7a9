//! Compiler from the pqlite lightweight markup language to HTML.
//!
//! A document is scanned into a syntax tree ([`Ast`]), the tree is rewritten by an
//! ordered pipeline of passes, and the result is serialised as escaped HTML.
//! Every stage is specified over `Seq<char>` and the mathematical tree
//! [`tree::Node`], and proved to compute exactly what its specification says.
use crate::chars::lemma_encode_injective;
use crate::parse::{parse_to_processed_ast, parsed};
use crate::print::{ast_to_unwrapped_html, ast_to_wrapped_html, html, wrapped_html};
use crate::sink::string_from_utf8;
use std::borrow::Cow;
use vstd::prelude::*;
use vstd::utf8::{encode_utf8, encode_utf8_valid_utf8};

pub mod chars;
pub mod escape;
pub mod invariants;
pub mod laws;
pub mod link;
pub mod parse;
pub mod print;
pub mod prune;
pub mod shorthand;
mod sink;
pub mod spoiler;
pub mod tooltip;
pub mod tree;

verus! {

/// The character that opens a quoted span.
pub const OPEN_QUOTE: char = '\u{2018}';

/// The character that closes a quoted span.
pub const CLOSE_QUOTE: char = '\u{2019}';

/// `std::io::Error`, carried through unopened.
#[verifier::external_type_specification]
#[verifier::external_body]
pub struct ExIoError(std::io::Error);

/// `std::string::FromUtf8Error`, carried through unopened.
#[verifier::external_type_specification]
#[verifier::external_body]
pub struct ExFromUtf8Error(std::string::FromUtf8Error);

/// Why a compilation did not produce output.
#[derive(Debug)]
pub enum PqLiteError {
    /// A triple-bracket comment was opened and never closed.
    UnmatchedOpen {
        /// Byte offset of the opener in the text that was being scanned.
        opening_at_index: usize,
        opening: &'static str,
        expected_close: &'static str,
    },
    /// The output sink failed.
    Io(std::io::Error),
    /// The rendered bytes were not valid UTF-8.
    Utf8(std::string::FromUtf8Error),
}

impl PqLiteError {
    /// True of the error reported for a comment opener at byte offset `at`.
    pub open spec fn is_unclosed_comment(self, at: int) -> bool {
        &&& self matches PqLiteError::UnmatchedOpen { opening_at_index, opening, expected_close }
        &&& opening_at_index == at
        &&& opening@ == "[[["@
        &&& expected_close@ == "]]]"@
    }

    /// The error for an opener `opening` at byte offset `opening_at_index`
    /// whose closer `expected_close` is missing.
    pub fn unmatched(
        opening_at_index: usize,
        opening: &'static str,
        expected_close: &'static str,
    ) -> (e: Self)
        ensures
            e == (PqLiteError::UnmatchedOpen { opening_at_index, opening, expected_close }),
    {
        PqLiteError::UnmatchedOpen { opening, opening_at_index, expected_close }
    }
}

impl From<std::io::Error> for PqLiteError {
    fn from(e: std::io::Error) -> (r: Self) {
        PqLiteError::Io(e)
    }
}

impl vstd::std_specs::convert::FromSpecImpl<std::io::Error> for PqLiteError {
    open spec fn obeys_from_spec() -> bool {
        true
    }

    open spec fn from_spec(e: std::io::Error) -> Self {
        PqLiteError::Io(e)
    }
}

impl From<std::string::FromUtf8Error> for PqLiteError {
    fn from(e: std::string::FromUtf8Error) -> (r: Self) {
        PqLiteError::Utf8(e)
    }
}

impl vstd::std_specs::convert::FromSpecImpl<std::string::FromUtf8Error> for PqLiteError {
    open spec fn obeys_from_spec() -> bool {
        true
    }

    open spec fn from_spec(e: std::string::FromUtf8Error) -> Self {
        PqLiteError::Utf8(e)
    }
}

/// A node of the syntax tree.
///
/// Text-bearing leaves are views into the compiled document; a [`Cow`] holds
/// text that had to be assembled afresh.
#[derive(Debug)]
#[allow(inconsistent_fields)]
pub enum Ast<'a> {
    Text(&'a str),
    CowText(Cow<'a, str>),
    NoBrText(&'a str),
    Root(Vec<Ast<'a>>),
    Quoted { original_text: &'a str, inner: Vec<Ast<'a>> },
    Bracketed(Vec<Ast<'a>>),
    CurlyBraced(Vec<Ast<'a>>),
    BlockQuoted(Vec<Ast<'a>>),
    CodeQuoted(Vec<Ast<'a>>),
    TooltipText(Cow<'a, str>),
    ProcessedPrefixSuffix(&'static str, Vec<Ast<'a>>, &'static str),
    /// A heading of level 1 to 6 and its content.
    Header(i32, Vec<Ast<'a>>),
    Tooltip { tooltip_text: Cow<'a, str>, inner: Vec<Ast<'a>> },
    Link { link_location: &'a str, tooltip_text: Option<Cow<'a, str>>, inner: Vec<Ast<'a>> },
}

/// The HTML that the document `s` compiles to, or the byte offset that the
/// failure reports.
pub open spec fn compiled(s: Seq<char>) -> Result<Seq<char>, int> {
    match parsed(s) {
        Ok(t) => Ok(html(t)),
        Err(at) => Err(at),
    }
}

/// Compiles a document and appends the whole HTML page, encoded as UTF-8, to
/// `output`. Nothing is appended where the compilation fails.
pub fn write_wrapped_html_from_pqlite(input: &str, output: &mut Vec<u8>) -> (r: Result<
    (),
    PqLiteError,
>)
    ensures
        match parsed(input@) {
            Ok(t) => r is Ok && final(output)@ == old(output)@ + encode_utf8(wrapped_html(t)),
            Err(at) => r matches Err(e) && e.is_unclosed_comment(at) && final(output)@ == old(
                output,
            )@,
        },
{
    let ast = match parse_to_processed_ast(input) {
        Ok(ast) => ast,
        Err(e) => {
            return Err(e);
        },
    };
    ast_to_wrapped_html(&ast, output)
}

/// Compiles a document to HTML.
pub fn pqlite_to_unwrapped_html_string(input: &str) -> (r: Result<String, PqLiteError>)
    ensures
        match compiled(input@) {
            Ok(h) => r matches Ok(s) && s@ == h,
            Err(at) => r matches Err(e) && e.is_unclosed_comment(at),
        },
{
    let ast = match parse_to_processed_ast(input) {
        Ok(ast) => ast,
        Err(e) => {
            return Err(e);
        },
    };
    let mut out: Vec<u8> = Vec::new();
    match ast_to_unwrapped_html(&ast, &mut out) {
        Ok(()) => {},
        Err(e) => {
            return Err(e);
        },
    }
    proof {
        assert(out@ =~= encode_utf8(html(ast@)));
        encode_utf8_valid_utf8(html(ast@));
    }
    match string_from_utf8(out) {
        Ok(s) => {
            proof {
                lemma_encode_injective(s@, html(ast@));
            }
            Ok(s)
        },
        Err(e) => Err(PqLiteError::from(e)),
    }
}

} // verus!
