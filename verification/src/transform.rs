//! What becomes of one file's content on its way out of the source tree.
//!
//! Bytes that are not UTF-8 pass as they are. A text that holds the start
//! marker, in a file that is not too large, goes through the templating
//! engine, which keeps of each marked block the case that fits this host.
//! After that every secret key in the text gives way to its value.

use crate::config::{Matchpick, Pair, Secrets};
use crate::fault::{Fault, FaultView};
use crate::secrets::{any_found, insert_secrets, substituted};
use crate::text::{contains, contains_str, texts_of};
use vstd::prelude::*;
use vstd::string::StrSliceExecFns;
use vstd::utf8::{decode_utf8, encode_utf8, valid_utf8};

verus! {

/// The error type of `anyhow`, in which the templating engine reports. Nothing
/// is known of what such an error holds but the words that it displays.
#[verifier::external_type_specification]
#[verifier::external_body]
pub struct ExAnyhowError(anyhow::Error);

/// What `matchpick::process` returns for a text, the tags to match against,
/// the start and end markers and the marker for lines to ignore: the text
/// that is left, or the words of its refusal.
pub uninterp spec fn engine_output(
    text: Seq<char>,
    tags: Seq<Seq<char>>,
    start: Seq<char>,
    end: Seq<char>,
    ignore: Option<Seq<char>>,
) -> Result<Seq<char>, Seq<char>>;

/// The words that an `anyhow::Error` displays.
pub uninterp spec fn failure_text(error: anyhow::Error) -> Seq<char>;

/// What the engine handed back, as text.
pub open spec fn outcome_of(picked: Result<String, anyhow::Error>) -> Result<Seq<char>, Seq<char>> {
    match picked {
        Ok(text) => Ok(text@),
        Err(error) => Err(failure_text(error)),
    }
}

/// The marker as text, where there is one.
pub open spec fn marker_of(marker: Option<String>) -> Option<Seq<char>> {
    match marker {
        Some(text) => Some(text@),
        None => None,
    }
}

/// Calls `matchpick::process`, which reads the text line by line as a state
/// machine over the marker lines and either returns the lines that are left
/// or refuses with the number of the offending line.
///
/// Taken on trust: the call returns for every input, and what it returns,
/// the words of a refusal too, depends on the arguments alone.
#[verifier::external_body]
fn run_engine(text: &str, tags: &Vec<String>, start: &str, end: &str, ignore: &Option<String>) -> (picked:
    Result<String, anyhow::Error>)
    ensures
        outcome_of(picked) == engine_output(
            text@,
            texts_of(tags@),
            start@,
            end@,
            marker_of(*ignore),
        ),
{
    matchpick::process(text, tags.clone(), start, end, ignore.clone())
}

/// Calls `to_string` on an `anyhow::Error`, which formats it with `Display`:
/// the words of the error itself, without the errors beneath it.
///
/// Taken on trust: the call returns, and the words depend on the error
/// alone. Both hold of every error that writes the same words whenever it is
/// displayed, as the errors of the engine do.
#[verifier::external_body]
fn failure_message(error: &anyhow::Error) -> (message: String)
    ensures
        message@ == failure_text(*error),
{
    error.to_string()
}

/// What is written for a file.
#[derive(Debug, PartialEq, Eq)]
pub enum Content {
    /// The file was text; this is the text after templating and secrets.
    Text(String),
    /// The file was not UTF-8; these are its bytes.
    Binary(Vec<u8>),
}

/// What a [`Content`] holds.
pub enum ContentView {
    Text(Seq<char>),
    Binary(Seq<u8>),
}

impl View for Content {
    type V = ContentView;

    open spec fn view(&self) -> ContentView {
        match self {
            Content::Text(text) => ContentView::Text(text@),
            Content::Binary(bytes) => ContentView::Binary(bytes@),
        }
    }
}

/// The bytes that are written for a content.
pub open spec fn bytes_of(content: ContentView) -> Seq<u8> {
    match content {
        ContentView::Text(text) => encode_utf8(text),
        ContentView::Binary(bytes) => bytes,
    }
}

impl Content {
    /// The bytes to write.
    pub fn into_bytes(self) -> (bytes: Vec<u8>)
        ensures
            bytes@ == bytes_of(self@),
    {
        match self {
            Content::Text(text) => text.as_str().as_bytes_vec(),
            Content::Binary(bytes) => bytes,
        }
    }
}

/// A file's content after its transformation, and what was done to it.
#[derive(Debug, PartialEq, Eq)]
pub struct Transformed {
    pub content: Content,
    /// Whether the text went through the templating engine.
    pub templated: bool,
    /// Whether a secret key was found in the text.
    pub inserted: bool,
}

/// What a [`Transformed`] holds.
pub struct TransformedView {
    pub content: ContentView,
    pub templated: bool,
    pub inserted: bool,
}

impl View for Transformed {
    type V = TransformedView;

    open spec fn view(&self) -> TransformedView {
        TransformedView {
            content: self.content@,
            templated: self.templated,
            inserted: self.inserted,
        }
    }
}

/// What a result of a transformation holds.
pub open spec fn result_of(result: Result<Transformed, Fault>) -> Result<
    TransformedView,
    FaultView,
> {
    match result {
        Ok(transformed) => Ok(transformed@),
        Err(error) => Err(error@),
    }
}

/// A text of a file of `size` bytes goes through the engine: the file is not
/// larger than the settings allow, and the text holds the start marker.
pub open spec fn is_templated(text: Seq<char>, size: u64, settings: Matchpick) -> bool {
    size <= settings.max_file_size && contains(text, settings.start_pattern@)
}

/// What becomes of a text once the engine has answered with `picked`, and
/// once it is known whether it went through the engine at all.
pub open spec fn completed(
    picked: Result<Seq<char>, Seq<char>>,
    templated: bool,
    table: Seq<Pair>,
) -> Result<TransformedView, FaultView> {
    match picked {
        Ok(text) => Ok(
            TransformedView {
                content: ContentView::Text(substituted(text, table)),
                templated,
                inserted: any_found(text, table),
            },
        ),
        Err(message) => Err(FaultView::Templating { message }),
    }
}

/// What becomes of a file's bytes.
pub open spec fn transformed(
    bytes: Seq<u8>,
    size: u64,
    settings: Matchpick,
    tags: Seq<Seq<char>>,
    table: Seq<Pair>,
) -> Result<TransformedView, FaultView> {
    if !valid_utf8(bytes) {
        Ok(TransformedView { content: ContentView::Binary(bytes), templated: false, inserted: false })
    } else if is_templated(decode_utf8(bytes), size, settings) {
        completed(
            engine_output(
                decode_utf8(bytes),
                tags,
                settings.start_pattern@,
                settings.end_pattern@,
                marker_of(settings.ignore_pattern),
            ),
            true,
            table,
        )
    } else {
        completed(Ok(decode_utf8(bytes)), false, table)
    }
}

/// Finishes a text that did not need the engine: its secrets are put in.
pub fn complete_plain(text: String, secrets: &Secrets) -> (transformed: Transformed)
    ensures
        Ok::<TransformedView, FaultView>(transformed@) == completed(Ok(text@), false, secrets@),
{
    let result = insert_secrets(text, secrets);
    Transformed { content: Content::Text(result.text), templated: false, inserted: result.inserted }
}

/// Finishes a text with what the engine handed back for it: a refusal ends
/// the transformation with the engine's words, a text has its secrets put in.
pub fn complete_templated(picked: Result<String, anyhow::Error>, secrets: &Secrets) -> (result:
    Result<Transformed, Fault>)
    ensures
        result_of(result) == completed(outcome_of(picked), true, secrets@),
{
    match picked {
        Ok(text) => {
            let result = insert_secrets(text, secrets);
            Ok(
                Transformed {
                    content: Content::Text(result.text),
                    templated: true,
                    inserted: result.inserted,
                },
            )
        },
        Err(error) => Err(Fault::Templating { message: failure_message(&error) }),
    }
}

/// Transforms the bytes of a file of `size` bytes for the hosts named by
/// `tags`.
///
/// Bytes that are not UTF-8 come back as they are. A text without the start
/// marker is never handed to the engine, whatever its size; with an empty
/// table of secrets it comes back as it is.
pub fn transform_content(
    bytes: Vec<u8>,
    size: u64,
    settings: &Matchpick,
    tags: &Vec<String>,
    secrets: &Secrets,
) -> (result: Result<Transformed, Fault>)
    ensures
        result_of(result) == transformed(bytes@, size, *settings, texts_of(tags@), secrets@),
        !valid_utf8(bytes@) ==> (result matches Ok(kept) && kept.content@ == ContentView::Binary(
            bytes@,
        )),
        valid_utf8(bytes@) && !contains(decode_utf8(bytes@), settings.start_pattern@) ==> (
        result matches Ok(kept) && !kept.templated && kept.content@ == ContentView::Text(
            substituted(decode_utf8(bytes@), secrets@),
        )),
        valid_utf8(bytes@) && !contains(decode_utf8(bytes@), settings.start_pattern@)
            && secrets@.len() == 0 ==> (result matches Ok(kept) && bytes_of(kept.content@)
            == bytes@),
{
    broadcast use vstd::utf8::decode_utf8_encode_utf8;

    let picked = match std::str::from_utf8(bytes.as_slice()) {
        Err(_) => { return Ok(
            Transformed { content: Content::Binary(bytes), templated: false, inserted: false },
        ); },
        Ok(text) => {
            if size <= settings.max_file_size && contains_str(
                text,
                settings.start_pattern.as_str(),
            ) {
                run_engine(
                    text,
                    tags,
                    settings.start_pattern.as_str(),
                    settings.end_pattern.as_str(),
                    &settings.ignore_pattern,
                )
            } else {
                let plain = text.to_owned();
                return Ok(complete_plain(plain, secrets));
            }
        },
    };
    complete_templated(picked, secrets)
}

} // verus!
