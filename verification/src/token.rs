//! Token trees: the shape of source text that the scanner walks. A tree is an
//! ordered sequence of tokens; a token is an atomic leaf or a delimited group
//! that owns its children.

use proc_macro2::{TokenStream, TokenTree};
use vstd::prelude::*;

verus! {

/// How a group of tokens is enclosed.
#[derive(Clone, Copy, Debug, PartialEq, Eq, Structural)]
pub enum DelimiterKind {
    /// `( ... )`
    Parenthesis,
    /// `{ ... }`
    Brace,
    /// `[ ... ]`
    Bracket,
    /// A group without visible delimiters.
    Invisible,
}

/// One node of a token tree.
#[derive(Debug, PartialEq, Eq)]
pub enum Token {
    /// An identifier or keyword, as written.
    Ident(String),
    /// One punctuation character.
    Punct(char),
    /// A literal, as written in the source, and the 1-based line on which it
    /// starts; line 0 stands for an unknown line.
    Literal { text: String, line: usize },
    /// A delimited group and its children, in order.
    Group { delimiter: DelimiterKind, tokens: Vec<Token> },
}

#[verifier::external_type_specification]
#[verifier::external_body]
pub struct ExTokenStream(TokenStream);

#[verifier::external_type_specification]
#[verifier::external_body]
pub struct ExProcDelimiter(proc_macro2::Delimiter);

/// The token tree that the Rust parser reads from a whole source file, or
/// `None` for a text that it rejects.
pub uninterp spec fn parsed_tokens(source: Seq<char>) -> Option<Seq<Token>>;

/// The characters that a string literal written as `text` denotes, or `None`
/// for a text that is no string literal.
pub uninterp spec fn string_literal_value(text: Seq<char>) -> Option<Seq<char>>;

/// Tells the four delimiters of `proc_macro2::Delimiter` apart.
#[verifier::external_body]
fn delimiter_of(delimiter: proc_macro2::Delimiter) -> DelimiterKind {
    match delimiter {
        proc_macro2::Delimiter::Parenthesis => DelimiterKind::Parenthesis,
        proc_macro2::Delimiter::Brace => DelimiterKind::Brace,
        proc_macro2::Delimiter::Bracket => DelimiterKind::Bracket,
        proc_macro2::Delimiter::None => DelimiterKind::Invisible,
    }
}

/// Walks a `proc_macro2::TokenStream` and hands out each token tree as a
/// `Token`: an identifier and a literal by their `to_string`, a punctuation
/// mark by `as_char`, a literal's line by `span().start().line`, a group by
/// `delimiter()` and, in turn, its `stream()`.
#[verifier::external_body]
fn tokens_of_stream(stream: TokenStream) -> Vec<Token> {
    let mut tokens = Vec::new();
    for tree in stream {
        tokens.push(match tree {
            TokenTree::Group(g) => Token::Group {
                delimiter: delimiter_of(g.delimiter()),
                tokens: tokens_of_stream(g.stream()),
            },
            TokenTree::Ident(i) => Token::Ident(i.to_string()),
            TokenTree::Punct(p) => Token::Punct(p.as_char()),
            TokenTree::Literal(l) => Token::Literal { text: l.to_string(), line: l.span().start().line },
        });
    }
    tokens
}

/// Parses a source file with `syn::parse_file` and turns the file back into
/// tokens with `quote::ToTokens::into_token_stream`. The contract claims only
/// that the outcome is a function of the source text: the same text always
/// gives the same tokens, or is always rejected. That holds of a program of
/// its own, such as a command-line tool, where the line of a span is always
/// counted within the text parsed. It does not hold inside a procedural
/// macro, where the compiler keeps the spans and may not tell their lines:
/// this library is not for use there.
#[verifier::external_body]
pub(crate) fn parse_source(source: &str) -> (r: Option<Vec<Token>>)
    ensures
        match r {
            Some(tokens) => parsed_tokens(source@) == Some(tokens@),
            None => parsed_tokens(source@) is None,
        },
{
    match syn::parse_file(source) {
        Ok(file) => Some(tokens_of_stream(quote::ToTokens::into_token_stream(file))),
        Err(_) => None,
    }
}

/// Reads `text` as a string literal with `syn::parse_str::<syn::LitStr>` and
/// returns its `value()`. The contract claims only that the outcome is a
/// function of the text.
#[verifier::external_body]
pub(crate) fn parse_string_literal(text: &str) -> (r: Option<String>)
    ensures
        match r {
            Some(value) => string_literal_value(text@) == Some(value@),
            None => string_literal_value(text@) is None,
        },
{
    match syn::parse_str::<syn::LitStr>(text) {
        Ok(literal) => Some(literal.value()),
        Err(_) => None,
    }
}

} // verus!
