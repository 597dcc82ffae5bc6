//! The source scanner: finds the translation calls in a token tree and keeps
//! a table of the messages they name.

use crate::assoc::{
    distinct_keys, has_key, inserted, lemma_inserted, lemma_position, lookup, position,
};
use crate::text::{
    all_whitespace, chars_of, collapsed, joined, leading_end, leading_text_end,
    lemma_collapsed_run, lemma_collapsed_suffix, lemma_trimmed_collapsed, regex_replace_all,
    same_text, string_of, trailing_start, trim, trimmed, without_leading, without_leading_text,
    without_trailing, words, CharClass,
};
use crate::token::{
    parse_source, parse_string_literal, parsed_tokens, string_literal_value, DelimiterKind, Token,
};
use indexmap::IndexMap;
use std::path::PathBuf;
use vstd::prelude::*;

verus! {

#[verifier::external_type_specification]
#[verifier::external_body]
pub struct ExPathBuf(PathBuf);

pub assume_specification[ <PathBuf as Clone>::clone ](path: &PathBuf) -> (r: PathBuf)
    ensures
        r == *path,
;

/// The messages found so far, by key, in the order of discovery.
pub type Results = IndexMap<String, Message>;

/// A place in the source where a key occurs.
#[derive(Debug, Clone, PartialEq, Eq)]
pub struct Location {
    pub file: PathBuf,
    /// 1-based line number.
    pub line: usize,
}

/// A translatable message found in the source.
#[derive(Debug, Clone, Default, PartialEq, Eq)]
pub struct Message {
    /// The normalized lookup key.
    pub key: String,
    /// The default value given at the first call site, if any.
    pub val: Option<String>,
    /// First-seen ordinal.
    pub index: usize,
    /// Every occurrence, in traversal order.
    pub locations: Vec<Location>,
}

/// The mathematical content of a `Message`.
pub struct MessageView {
    pub key: Seq<char>,
    pub val: Option<Seq<char>>,
    pub index: nat,
    pub locations: Seq<Location>,
}

impl View for Message {
    type V = MessageView;

    open spec fn view(&self) -> MessageView {
        MessageView {
            key: self.key@,
            val: self.val.deep_view(),
            index: self.index as nat,
            locations: self.locations@,
        }
    }
}

impl MessageView {
    /// A message that has not been located yet.
    pub open spec fn fresh(key: Seq<char>, index: nat, val: Option<Seq<char>>) -> MessageView {
        MessageView { key, val, index, locations: Seq::empty() }
    }

    /// The same message with one more location.
    pub open spec fn located(self, location: Location) -> MessageView {
        MessageView { locations: self.locations.push(location), ..self }
    }
}

impl Message {
    /// A message without locations.
    pub fn new(key: &str, index: usize, val: Option<String>) -> (r: Self)
        ensures
            r@ == MessageView::fresh(key@, index as nat, val.deep_view()),
    {
        Self { key: key.to_owned(), val, index, locations: Vec::new() }
    }
}

/// The entries of a message table, in insertion order.
pub uninterp spec fn message_entries(results: Results) -> Seq<(Seq<char>, MessageView)>;

/// `IndexMap::len`: the number of entries.
#[verifier::external_body]
fn results_len(results: &Results) -> (n: usize)
    ensures
        n == message_entries(*results).len(),
{
    results.len()
}

/// `IndexMap::get`, handing out a copy of the message stored under `key`.
#[verifier::external_body]
fn results_get(results: &Results, key: &str) -> (r: Option<Message>)
    ensures
        match r {
            Some(message) => lookup(message_entries(*results), key@) == Some(message@),
            None => !has_key(message_entries(*results), key@),
        },
{
    results.get(key).cloned()
}

/// `IndexMap::get_index`, handing out a copy of the message at position
/// `index`.
#[verifier::external_body]
fn results_get_index(results: &Results, index: usize) -> (message: Message)
    requires
        index < message_entries(*results).len(),
    ensures
        message@ == message_entries(*results)[index as int].1,
{
    results.get_index(index).unwrap().1.clone()
}

/// `IndexMap::insert`: a key that is present keeps its place and takes the
/// new value; a new key is appended. The map holds each key once.
#[verifier::external_body]
fn results_insert(results: &mut Results, key: String, message: Message)
    ensures
        message_entries(*final(results)) == inserted(message_entries(*old(results)), key@, message@),
        distinct_keys(message_entries(*final(results))),
{
    results.insert(key, message);
}

/// The lookup key of a raw literal value: every run of whitespace becomes one
/// space, and whitespace at either end is dropped.
pub open spec fn normalized(raw: Seq<char>) -> Seq<char> {
    trimmed(collapsed(raw))
}

/// Turns the value of a literal into its lookup key.
pub fn format_message_key(key: &str) -> (r: String)
    ensures
        r@ == normalized(key@),
{
    let key = regex_replace_all("\\s+", key, " ");
    trim(key.as_str())
}

/// The value of a literal token, where it is a string literal.
pub fn literal_to_string(text: &str) -> (r: Option<String>)
    ensures
        r.deep_view() == string_literal_value(text@),
{
    parse_string_literal(text)
}

/// One call site found by the scanner: the key literal as written, the line it
/// stands on (0 where unknown) and the default value attached to it.
pub struct Occurrence {
    pub literal: Seq<char>,
    pub line: nat,
    pub default_value: Option<Seq<char>>,
}

/// The table after the key of the raw literal value `raw`, found in `file` on
/// `line`, is taken in. The message of the normalized key is created at the
/// end of the table if it is new, with the table's length as its index and
/// `default_value` as its value; a known message keeps its index and value. A
/// known line, one above 0, is added to the locations of the message.
pub open spec fn registered(
    table: Seq<(Seq<char>, MessageView)>,
    file: PathBuf,
    raw: Seq<char>,
    line: nat,
    default_value: Option<Seq<char>>,
) -> Seq<(Seq<char>, MessageView)> {
    let key = normalized(raw);
    let message = match lookup(table, key) {
        Some(known) => known,
        None => MessageView::fresh(key, table.len(), default_value),
    };
    if line > 0 {
        inserted(table, key, message.located(Location { file, line: line as usize }))
    } else {
        inserted(table, key, message)
    }
}

/// The table after one occurrence in `file` is taken in. A literal that is no
/// string literal leaves the table as it is; the value of a string literal is
/// registered.
pub open spec fn recorded(
    table: Seq<(Seq<char>, MessageView)>,
    file: PathBuf,
    occurrence: Occurrence,
) -> Seq<(Seq<char>, MessageView)> {
    match string_literal_value(occurrence.literal) {
        None => table,
        Some(raw) => registered(table, file, raw, occurrence.line, occurrence.default_value),
    }
}

/// The table after the occurrences are taken in, first to last.
pub open spec fn recorded_all(
    table: Seq<(Seq<char>, MessageView)>,
    file: PathBuf,
    occurrences: Seq<Occurrence>,
) -> Seq<(Seq<char>, MessageView)>
    decreases occurrences.len(),
{
    if occurrences.len() == 0 {
        table
    } else {
        recorded(recorded_all(table, file, occurrences.drop_last()), file, occurrences.last())
    }
}

/// Taking in `first + second` is taking in `first`, then `second`.
pub proof fn lemma_recorded_all_concat(
    table: Seq<(Seq<char>, MessageView)>,
    file: PathBuf,
    first: Seq<Occurrence>,
    second: Seq<Occurrence>,
)
    ensures
        recorded_all(table, file, first + second) == recorded_all(
            recorded_all(table, file, first),
            file,
            second,
        ),
    decreases second.len(),
{
    if second.len() == 0 {
        assert(first + second =~= first);
    } else {
        assert((first + second).drop_last() =~= first + second.drop_last());
        lemma_recorded_all_concat(table, file, first, second.drop_last());
    }
}

/// Taking in a single occurrence, or none.
pub proof fn lemma_recorded_all_site(
    table: Seq<(Seq<char>, MessageView)>,
    file: PathBuf,
    site: Option<Occurrence>,
)
    ensures
        recorded_all(table, file, site_seq(site)) == recorded_site(table, file, site),
{
    reveal_with_fuel(recorded_all, 2);
    if site is Some {
        assert(site_seq(site).drop_last() =~= Seq::<Occurrence>::empty());
    }
}

/// Takes the key of a raw literal value, found in the file `path` on `line`,
/// into the table.
pub fn register(results: &mut Results, path: &PathBuf, raw: &str, line: usize, val: Option<String>)
    ensures
        message_entries(*final(results)) == registered(
            message_entries(*old(results)),
            *path,
            raw@,
            line as nat,
            val.deep_view(),
        ),
{
    let message_key = format_message_key(raw);
    let index = results_len(results);
    let ghost table = message_entries(*results);
    match results_get(results, message_key.as_str()) {
        Some(known) => {
            if line > 0 {
                let mut message = known;
                message.locations.push(Location { file: path.clone(), line });
                results_insert(results, message_key, message);
            } else {
                proof {
                    let at = position(table, message_key@);
                    assert(table.update(at, (message_key@, known@)) =~= table);
                }
            }
        },
        None => {
            let mut message = Message::new(message_key.as_str(), index, val);
            if line > 0 {
                message.locations.push(Location { file: path.clone(), line });
            }
            results_insert(results, message_key, message);
        },
    }
}

/// Takes one literal into the table, where it is a string literal.
fn take_message_inner(
    results: &mut Results,
    path: &PathBuf,
    text: &str,
    line: usize,
    val: Option<String>,
)
    ensures
        message_entries(*final(results)) == recorded(
            message_entries(*old(results)),
            *path,
            Occurrence { literal: text@, line: line as nat, default_value: val.deep_view() },
        ),
{
    if let Some(key) = literal_to_string(text) {
        register(results, path, key.as_str(), line, val);
    }
}

/// The name whose macro-style calls are scanned: `t!( ... )`.
pub open spec fn macro_marker() -> Seq<char> {
    "t"@
}

/// The name whose function-style calls are scanned.
pub open spec fn function_marker() -> Seq<char> {
    "_rust_i18n_translate"@
}

/// The occurrence that a macro-style call with these arguments gives: its
/// first token, where that is a literal; it carries no default value.
pub open spec fn macro_site(args: Seq<Token>) -> Option<Occurrence> {
    if args.len() > 0 && args[0] is Literal {
        Some(
            Occurrence {
                literal: args[0]->text@,
                line: args[0]->line as nat,
                default_value: None,
            },
        )
    } else {
        None
    }
}

/// The text of a documentation comment, from the literal that holds it: the
/// literal is trimmed, loses a raw-string opening and its quotes, and is
/// trimmed again.
pub open spec fn comment_text(literal: Seq<char>) -> Seq<char> {
    trimmed(
        without_leading(
            without_trailing(
                without_leading_text(trimmed(literal), "r\""@),
                CharClass::Exactly('"'),
            ),
            CharClass::Exactly('"'),
        ),
    )
}

/// The comment of a documentation annotation, from the tokens between its
/// brackets: `doc`, `=`, and a literal; nothing for any other content.
pub open spec fn annotation_text(inner: Seq<Token>) -> Option<Seq<char>> {
    if inner.len() >= 3 && inner[0] is Ident && inner[0]->Ident_0@ == "doc"@ && inner[1]
        == Token::Punct('=') && inner[2] is Literal {
        Some(comment_text(inner[2]->text@))
    } else {
        None
    }
}

/// How far the scan of a call's arguments is into a documentation annotation.
#[derive(Clone, Copy, Debug, PartialEq, Eq, Structural)]
pub enum DocState {
    /// Outside any annotation.
    Idle,
    /// Just after a `#`.
    Hash,
    /// Just after a complete annotation.
    Comment,
}

/// What the scan of a call's arguments has gathered.
pub struct ArgumentScan {
    pub state: DocState,
    /// The last literal seen and its line.
    pub literal: Option<(Seq<char>, nat)>,
    /// The comment lines gathered, joined by `"\r\n"`.
    pub comment: Option<Seq<char>>,
}

/// The scan after one more token of the arguments.
pub open spec fn argument_step(scan: ArgumentScan, token: Token) -> ArgumentScan {
    match token {
        Token::Punct(c) if c == '#' && scan.state != DocState::Hash => ArgumentScan {
            state: DocState::Hash,
            ..scan
        },
        Token::Group { delimiter, tokens } if scan.state == DocState::Hash && delimiter
            == DelimiterKind::Bracket => match annotation_text(tokens@) {
            Some(text) => ArgumentScan {
                state: DocState::Comment,
                comment: Some(
                    match scan.comment {
                        Some(before) => before + "\r\n"@ + text,
                        None => text,
                    },
                ),
                ..scan
            },
            None => ArgumentScan { state: DocState::Idle, ..scan },
        },
        Token::Literal { text, line } => ArgumentScan {
            state: DocState::Idle,
            literal: Some((text@, line as nat)),
            comment: if scan.state == DocState::Comment {
                scan.comment
            } else {
                None
            },
        },
        _ => ArgumentScan { state: DocState::Idle, ..scan },
    }
}

/// The scan after all of `args`, first to last.
pub open spec fn argument_scan(args: Seq<Token>) -> ArgumentScan
    decreases args.len(),
{
    if args.len() == 0 {
        ArgumentScan { state: DocState::Idle, literal: None, comment: None }
    } else {
        argument_step(argument_scan(args.drop_last()), args.last())
    }
}

/// The occurrence that a function-style call with these arguments gives: the
/// last literal among them, with the comment that directly precedes it.
pub open spec fn function_site(args: Seq<Token>) -> Option<Occurrence> {
    let scan = argument_scan(args);
    match scan.literal {
        Some((literal, line)) => Some(Occurrence { literal, line, default_value: scan.comment }),
        None => None,
    }
}

/// The table after an occurrence, if there is one, is taken in.
pub open spec fn recorded_site(
    table: Seq<(Seq<char>, MessageView)>,
    file: PathBuf,
    site: Option<Occurrence>,
) -> Seq<(Seq<char>, MessageView)> {
    match site {
        Some(occurrence) => recorded(table, file, occurrence),
        None => table,
    }
}

/// Takes in the key of a macro-style call.
fn take_message_macro(results: &mut Results, path: &PathBuf, args: &Vec<Token>)
    ensures
        message_entries(*final(results)) == recorded_site(
            message_entries(*old(results)),
            *path,
            macro_site(args@),
        ),
{
    if args.len() > 0 {
        match &args[0] {
            Token::Literal { text, line } => {
                take_message_inner(results, path, text.as_str(), *line, None);
            },
            _ => {},
        }
    }
}

/// The text of a documentation comment, from the literal that holds it.
fn clean_comment(literal: &str) -> (r: String)
    ensures
        r@ == comment_text(literal@),
{
    let v = chars_of(literal);
    let opening = chars_of("r\"");
    let quote = CharClass::Exactly('"');
    assert(v@.subrange(0, v.len() as int) =~= v@);
    let a = leading_end(&v, 0, v.len(), CharClass::Whitespace);
    let b = trailing_start(&v, a, v.len(), CharClass::Whitespace);
    let c = leading_text_end(&v, a, b, &opening);
    let d = trailing_start(&v, c, b, quote);
    let e = leading_end(&v, c, d, quote);
    let f = leading_end(&v, e, d, CharClass::Whitespace);
    let g = trailing_start(&v, f, d, CharClass::Whitespace);
    string_of(&v, f, g)
}

/// The comment of a documentation annotation, from the tokens between its
/// brackets.
fn annotation_comment(inner: &Vec<Token>) -> (r: Option<String>)
    ensures
        r.deep_view() == annotation_text(inner@),
{
    if inner.len() < 3 {
        return None;
    }
    let named_doc = match &inner[0] {
        Token::Ident(name) => same_text(name.as_str(), "doc"),
        _ => false,
    };
    let assigned = match &inner[1] {
        Token::Punct(c) => *c == '=',
        _ => false,
    };
    if !named_doc || !assigned {
        return None;
    }
    match &inner[2] {
        Token::Literal { text, .. } => Some(clean_comment(text.as_str())),
        _ => None,
    }
}

/// Takes in the key of a function-style call.
fn take_message_fn(results: &mut Results, path: &PathBuf, args: &Vec<Token>)
    ensures
        message_entries(*final(results)) == recorded_site(
            message_entries(*old(results)),
            *path,
            function_site(args@),
        ),
{
    let mut state = DocState::Idle;
    let mut literal: Option<usize> = None;
    let mut comment: Option<String> = None;
    let mut i: usize = 0;
    assert(args@.take(0) =~= Seq::<Token>::empty());
    while i < args.len()
        invariant
            i <= args.len(),
            state == argument_scan(args@.take(i as int)).state,
            comment.deep_view() == argument_scan(args@.take(i as int)).comment,
            match literal {
                Some(at) => at < i && args@[at as int] is Literal && argument_scan(
                    args@.take(i as int),
                ).literal == Some((args@[at as int]->text@, args@[at as int]->line as nat)),
                None => argument_scan(args@.take(i as int)).literal is None,
            },
        decreases args.len() - i,
    {
        assert(args@.take(i + 1).drop_last() =~= args@.take(i as int));
        assert(args@.take(i + 1).last() == args@[i as int]);
        match &args[i] {
            Token::Punct(c) if *c == '#' && state != DocState::Hash => {
                state = DocState::Hash;
            },
            Token::Group { delimiter, tokens } if state == DocState::Hash && *delimiter
                == DelimiterKind::Bracket => {
                match annotation_comment(tokens) {
                    Some(text) => {
                        comment =
                        match comment {
                            Some(before) => Some(before.concat("\r\n").concat(text.as_str())),
                            None => Some(text),
                        };
                        state = DocState::Comment;
                    },
                    None => {
                        state = DocState::Idle;
                    },
                }
            },
            Token::Literal { .. } => {
                if state != DocState::Comment {
                    comment = None;
                }
                literal = Some(i);
                state = DocState::Idle;
            },
            _ => {
                state = DocState::Idle;
            },
        }
        i = i + 1;
    }
    assert(args@.take(args.len() as int) =~= args@);
    if let Some(at) = literal {
        match &args[at] {
            Token::Literal { text, line } => {
                take_message_inner(results, path, text.as_str(), *line, comment);
            },
            _ => {},
        }
    }
}

/// A call starts at an identifier: the identifier is the macro marker,
/// followed by `!` and then by a group at `next`, or it is the function
/// marker, followed directly by a group at `next`.
pub open spec fn is_call(name: Seq<char>, is_macro: bool, tokens: Seq<Token>, next: int) -> bool {
    &&& 0 <= next < tokens.len()
    &&& tokens[next] is Group
    &&& (name == macro_marker() && is_macro) || (name == function_marker() && !is_macro)
}

/// The occurrence that the call starting at an identifier gives, read from
/// its group of arguments at `next`; nothing where no call starts there.
pub open spec fn site_at(name: Seq<char>, is_macro: bool, tokens: Seq<Token>, next: int) -> Option<
    Occurrence,
> {
    if is_call(name, is_macro, tokens, next) {
        if is_macro {
            macro_site(tokens[next]->tokens@)
        } else {
            function_site(tokens[next]->tokens@)
        }
    } else {
        None
    }
}

/// An occurrence as a sequence of one, nothing as the empty sequence.
pub open spec fn site_seq(site: Option<Occurrence>) -> Seq<Occurrence> {
    match site {
        Some(occurrence) => seq![occurrence],
        None => Seq::empty(),
    }
}

/// The occurrences found in `tokens` from position `from` on, in document
/// order. An identifier directly followed by `!` swallows the `!`. Where a
/// call starts at an identifier, the group after it is read as the arguments
/// of the call and is not searched any further. Every other group is
/// searched through, whatever its delimiter and depth.
pub open spec fn occurrences(tokens: Seq<Token>, from: int) -> Seq<Occurrence>
    decreases tokens, tokens.len() - from,
{
    if from < 0 || from >= tokens.len() {
        Seq::empty()
    } else {
        match tokens[from] {
            Token::Group { tokens: inner, .. } => occurrences(inner@, 0) + occurrences(
                tokens,
                from + 1,
            ),
            Token::Ident(name) => {
                let is_macro = from + 1 < tokens.len() && tokens[from + 1] == Token::Punct('!');
                let next = if is_macro {
                    from + 2
                } else {
                    from + 1
                };
                let after = if is_call(name@, is_macro, tokens, next) {
                    next + 1
                } else {
                    next
                };
                site_seq(site_at(name@, is_macro, tokens, next)) + occurrences(tokens, after)
            },
            _ => occurrences(tokens, from + 1),
        }
    }
}

/// The table after all the calls found in `tokens` are taken in.
pub open spec fn scanned(
    table: Seq<(Seq<char>, MessageView)>,
    file: PathBuf,
    tokens: Seq<Token>,
) -> Seq<(Seq<char>, MessageView)> {
    recorded_all(table, file, occurrences(tokens, 0))
}

/// Walks a token tree and takes every call found into the table.
pub fn invoke(results: &mut Results, path: &PathBuf, tokens: &Vec<Token>)
    ensures
        message_entries(*final(results)) == scanned(message_entries(*old(results)), *path, tokens@),
    decreases tokens,
{
    let ghost start = message_entries(*results);
    let mut i: usize = 0;
    while i < tokens.len()
        invariant
            i <= tokens.len() + 1,
            recorded_all(message_entries(*results), *path, occurrences(tokens@, i as int))
                == recorded_all(start, *path, occurrences(tokens@, 0)),
        decreases tokens.len() + 1 - i,
    {
        let ghost before = message_entries(*results);
        let ghost rest = occurrences(tokens@, i as int);
        match &tokens[i] {
            Token::Group { tokens: inner, .. } => {
                proof {
                    lemma_recorded_all_concat(
                        before,
                        *path,
                        occurrences(inner@, 0),
                        occurrences(tokens@, i + 1),
                    );
                }
                invoke(results, path, inner);
                i = i + 1;
            },
            Token::Ident(name) => {
                let mut is_macro = false;
                if i + 1 < tokens.len() {
                    if let Token::Punct(c) = &tokens[i + 1] {
                        if *c == '!' {
                            is_macro = true;
                        }
                    }
                }
                let next: usize = if is_macro {
                    i + 2
                } else {
                    i + 1
                };
                let ghost site = site_at(name@, is_macro, tokens@, next as int);
                let ghost after = if is_call(name@, is_macro, tokens@, next as int) {
                    next + 1
                } else {
                    next as int
                };
                proof {
                    lemma_recorded_all_concat(
                        before,
                        *path,
                        site_seq(site),
                        occurrences(tokens@, after),
                    );
                    lemma_recorded_all_site(before, *path, site);
                }
                let mut swallowed = false;
                if next < tokens.len() {
                    if let Token::Group { tokens: args, .. } = &tokens[next] {
                        if is_macro && same_text(name.as_str(), "t") {
                            take_message_macro(results, path, args);
                            swallowed = true;
                        } else if !is_macro && same_text(name.as_str(), "_rust_i18n_translate") {
                            take_message_fn(results, path, args);
                            swallowed = true;
                        }
                    }
                }
                i = if swallowed {
                    next + 1
                } else {
                    next
                };
            },
            _ => {
                i = i + 1;
            },
        }
    }
}

/// Why a source could not be scanned.
#[derive(Clone, Copy, Debug, PartialEq, Eq)]
pub enum ExtractError {
    /// The text is no Rust source file.
    InvalidSource,
}

/// Scans `source`, the text of one file, and takes every call found in it
/// into the table. A text that is no Rust source file is refused, and the
/// table stays as it was.
pub fn extract(results: &mut Results, path: &PathBuf, source: &str) -> (r: Result<
    (),
    ExtractError,
>)
    ensures
        match r {
            Ok(_) => parsed_tokens(source@) is Some && message_entries(*final(results)) == scanned(
                message_entries(*old(results)),
                *path,
                parsed_tokens(source@)->0,
            ),
            Err(_) => parsed_tokens(source@) is None && *final(results) == *old(results),
        },
{
    match parse_source(source) {
        Some(tokens) => {
            invoke(results, path, &tokens);
            Ok(())
        },
        None => Err(ExtractError::InvalidSource),
    }
}

/// The key of a raw value is its words, joined by single spaces. So two raw
/// values that hold the same words in the same order have the same key,
/// whatever whitespace stands between the words, before them and after them.
pub proof fn lemma_key_is_words(raw: Seq<char>, other: Seq<char>)
    ensures
        normalized(raw) == joined(words(raw)),
        words(raw) == words(other) ==> normalized(raw) == normalized(other),
{
    lemma_trimmed_collapsed(raw);
    lemma_trimmed_collapsed(other);
}

/// Two raw values that differ only in a run of whitespace at one place have
/// the same key: it does not matter how long the run is, nor of which
/// whitespace characters it is made.
pub proof fn lemma_whitespace_invariance(
    before: Seq<char>,
    run: Seq<char>,
    other_run: Seq<char>,
    after: Seq<char>,
)
    requires
        run.len() > 0,
        other_run.len() > 0,
        all_whitespace(run),
        all_whitespace(other_run),
    ensures
        normalized(before + run + after) == normalized(before + other_run + after),
{
    lemma_collapsed_run(before, run);
    lemma_collapsed_run(before, other_run);
    assert((before + run).last() == run[run.len() - 1]);
    assert((before + other_run).last() == other_run[other_run.len() - 1]);
    lemma_collapsed_suffix(before + run, before + other_run, after);
}

/// A key that the table holds already: registering it again leaves the number
/// of messages, every other message, and the key, value and index of its own
/// message as they are, and adds the location where the line is known.
pub proof fn lemma_duplicate_occurrence(
    table: Seq<(Seq<char>, MessageView)>,
    file: PathBuf,
    raw: Seq<char>,
    line: nat,
    default_value: Option<Seq<char>>,
)
    requires
        distinct_keys(table),
        has_key(table, normalized(raw)),
    ensures
        ({
            let key = normalized(raw);
            let after = registered(table, file, raw, line, default_value);
            let known = lookup(table, key)->0;
            &&& after.len() == table.len()
            &&& distinct_keys(after)
            &&& forall|other: Seq<char>| other != key ==> lookup(after, other) == lookup(table, other)
            &&& lookup(after, key) is Some
            &&& lookup(after, key)->0.key == known.key
            &&& lookup(after, key)->0.val == known.val
            &&& lookup(after, key)->0.index == known.index
            &&& lookup(after, key)->0.locations == if line > 0 {
                known.locations.push(Location { file, line: line as usize })
            } else {
                known.locations
            }
        }),
{
    let key = normalized(raw);
    let known = lookup(table, key)->0;
    if line > 0 {
        lemma_inserted(table, key, known.located(Location { file, line: line as usize }));
    } else {
        lemma_inserted(table, key, known);
    }
}

/// A key that the table does not hold yet: registering it appends a message
/// whose index is the number of messages before it, with the default value
/// given, located where the line is known.
pub proof fn lemma_first_occurrence(
    table: Seq<(Seq<char>, MessageView)>,
    file: PathBuf,
    raw: Seq<char>,
    line: nat,
    default_value: Option<Seq<char>>,
)
    requires
        !has_key(table, normalized(raw)),
    ensures
        ({
            let key = normalized(raw);
            let fresh = MessageView::fresh(key, table.len(), default_value);
            registered(table, file, raw, line, default_value) == table.push(
                (
                    key,
                    if line > 0 {
                        fresh.located(Location { file, line: line as usize })
                    } else {
                        fresh
                    },
                ),
            )
        }),
{
}

/// `outer` is `inner` wrapped in `depth` groups, one inside the other.
pub open spec fn wraps(outer: Seq<Token>, inner: Seq<Token>, depth: nat) -> bool
    decreases depth,
{
    if depth == 0 {
        outer == inner
    } else {
        outer.len() == 1 && outer[0] is Group && wraps(outer[0]->tokens@, inner, (depth - 1) as nat)
    }
}

/// Calls are found at any depth: tokens wrapped in any number of groups, of
/// whatever delimiters, give the occurrences that they give unwrapped, and so
/// the same table.
pub proof fn lemma_nesting(
    table: Seq<(Seq<char>, MessageView)>,
    file: PathBuf,
    outer: Seq<Token>,
    inner: Seq<Token>,
    depth: nat,
)
    requires
        wraps(outer, inner, depth),
    ensures
        occurrences(outer, 0) == occurrences(inner, 0),
        scanned(table, file, outer) == scanned(table, file, inner),
    decreases depth,
{
    if depth > 0 {
        reveal_with_fuel(occurrences, 2);
        let within = outer[0]->tokens@;
        lemma_nesting(table, file, within, inner, (depth - 1) as nat);
        assert(occurrences(outer, 0) =~= occurrences(within, 0));
    }
}

/// The messages of the table, in the order of discovery.
pub fn messages(results: &Results) -> (found: Vec<Message>)
    ensures
        found@.len() == message_entries(*results).len(),
        forall|i: int| 0 <= i < found@.len() ==> (#[trigger] found@[i])@ == message_entries(*results)[i].1,
{
    let mut found: Vec<Message> = Vec::new();
    let count = results_len(results);
    let mut i: usize = 0;
    while i < count
        invariant
            i <= count == message_entries(*results).len(),
            found@.len() == i,
            forall|k: int| 0 <= k < i ==> (#[trigger] found@[k])@ == message_entries(*results)[k].1,
        decreases count - i,
    {
        found.push(results_get_index(results, i));
        i = i + 1;
    }
    found
}

/// A table as the scanner builds it: no key occurs twice, and each message is
/// stored under its own key with its position as its index.
pub open spec fn well_formed(table: Seq<(Seq<char>, MessageView)>) -> bool {
    &&& distinct_keys(table)
    &&& forall|i: int|
        0 <= i < table.len() ==> (#[trigger] table[i]).1.key == table[i].0 && table[i].1.index == i
}

/// Registering a key keeps the table well formed.
pub proof fn lemma_registered_well_formed(
    table: Seq<(Seq<char>, MessageView)>,
    file: PathBuf,
    raw: Seq<char>,
    line: nat,
    default_value: Option<Seq<char>>,
)
    requires
        well_formed(table),
    ensures
        well_formed(registered(table, file, raw, line, default_value)),
{
    let key = normalized(raw);
    let after = registered(table, file, raw, line, default_value);
    if has_key(table, key) {
        lemma_duplicate_occurrence(table, file, raw, line, default_value);
        let at = position(table, key);
        lemma_position(table, at);
        assert forall|i: int| 0 <= i < after.len() implies (#[trigger] after[i]).1.key
            == after[i].0 && after[i].1.index == i by {
            if i != at {
                assert(after[i] == table[i]);
            }
        }
    } else {
        lemma_first_occurrence(table, file, raw, line, default_value);
        assert forall|i: int, j: int| 0 <= i < j < after.len() implies (#[trigger] after[i]).0 != (
        #[trigger] after[j]).0 by {
            if j == table.len() {
                assert(table[i].0 != key);
            } else {
                assert(table[i].0 != table[j].0);
            }
        }
        assert forall|i: int| 0 <= i < after.len() implies (#[trigger] after[i]).1.key
            == after[i].0 && after[i].1.index == i by {
            if i < table.len() {
                assert(after[i] == table[i]);
            }
        }
    }
}

/// Taking in occurrences keeps the table well formed.
pub proof fn lemma_recorded_all_well_formed(
    table: Seq<(Seq<char>, MessageView)>,
    file: PathBuf,
    found: Seq<Occurrence>,
)
    requires
        well_formed(table),
    ensures
        well_formed(recorded_all(table, file, found)),
    decreases found.len(),
{
    if found.len() > 0 {
        let before = recorded_all(table, file, found.drop_last());
        lemma_recorded_all_well_formed(table, file, found.drop_last());
        let last = found.last();
        if string_literal_value(last.literal) is Some {
            lemma_registered_well_formed(
                before,
                file,
                string_literal_value(last.literal)->0,
                last.line,
                last.default_value,
            );
        }
    }
}

/// Scanning keeps the table well formed: the keys stay unique, and the index
/// of each message is its place in the order of discovery.
pub proof fn lemma_scanned_well_formed(
    table: Seq<(Seq<char>, MessageView)>,
    file: PathBuf,
    tokens: Seq<Token>,
)
    requires
        well_formed(table),
    ensures
        well_formed(scanned(table, file, tokens)),
{
    lemma_recorded_all_well_formed(table, file, occurrences(tokens, 0));
}

} // verus!
