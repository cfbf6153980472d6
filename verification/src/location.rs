//! Identifiers of documents, and the resolution of a reference against a
//! base identifier.

use crate::error::ErrorKind;
use crate::outcome::Transport;
use crate::text::chars_of;
use crate::text::starts_with;
use url::ParseError;
use url::Url;
use vstd::prelude::*;

verus! {

/// The error of the `url` crate's parser. It is carried, never read.
#[verifier::external_type_specification]
#[verifier::external_body]
pub struct ExParseError(ParseError);

/// Whether `url::Url::parse` accepts `text`.
pub uninterp spec fn parses(text: Seq<char>) -> bool;

/// The serialization of the URL that `url::Url::join` makes of `reference`
/// on the URL that `url::Url::parse` makes of `base`; `None` where either
/// fails.
pub uninterp spec fn joined(base: Seq<char>, reference: Seq<char>) -> Option<Seq<char>>;

/// The serialization of the URL of `text` after
/// `url::Url::set_fragment(None)`; `None` where `text` does not parse.
pub uninterp spec fn without_fragment(text: Seq<char>) -> Option<Seq<char>>;

/// What `url::Url::fragment` returns for the URL of `text`; `None` where
/// `text` does not parse.
pub uninterp spec fn fragment_of(text: Seq<char>) -> Option<Option<Seq<char>>>;

/// What `url::Url::path` returns for the URL of `text`; `None` where
/// `text` does not parse.
pub uninterp spec fn path_of(text: Seq<char>) -> Option<Seq<char>>;

/// Calls `url::Url::parse` on `text` and drops the URL.
///
/// Believed, not proved: whether the call succeeds goes by `text` alone,
/// which is what `parses` names.
#[verifier::external_body]
fn parse_url(text: &str) -> (r: Result<(), ParseError>)
    ensures
        r is Ok == parses(text@),
{
    match Url::parse(text) {
        Ok(_) => Ok(()),
        Err(e) => Err(e),
    }
}

/// Calls `url::Url::join` with `reference` on the URL that `url::Url::parse`
/// makes of `base`, and hands out the serialization of the joined URL.
///
/// Believed, not proved: the outcome goes by `base` and `reference` alone,
/// which is what `joined` names; the call fails where parsing or joining
/// fails.
#[verifier::external_body]
fn join_url(base: &str, reference: &str) -> (r: Result<String, ParseError>)
    ensures
        match r {
            Ok(full) => joined(base@, reference@) == Some(full@),
            Err(_) => joined(base@, reference@) is None,
        },
{
    match Url::parse(base) {
        Ok(url) => match url.join(reference) {
            Ok(target) => Ok(String::from(target)),
            Err(e) => Err(e),
        },
        Err(e) => Err(e),
    }
}

/// Calls `url::Url::set_fragment(None)` on the URL that `url::Url::parse`
/// makes of `text`, and hands out the serialization that is left.
///
/// Believed, not proved: the outcome goes by `text` alone, which is what
/// `without_fragment` names; the call fails where parsing fails.
#[verifier::external_body]
fn strip_fragment(text: &str) -> (r: Result<String, ParseError>)
    ensures
        match r {
            Ok(document) => without_fragment(text@) == Some(document@),
            Err(_) => without_fragment(text@) is None,
        },
{
    match Url::parse(text) {
        Ok(mut url) => {
            url.set_fragment(None);
            Ok(String::from(url))
        },
        Err(e) => Err(e),
    }
}

/// Calls `url::Url::fragment` on the URL that `url::Url::parse` makes of
/// `text`.
///
/// Believed, not proved: the outcome goes by `text` alone, which is what
/// `fragment_of` names; the call fails where parsing fails.
#[verifier::external_body]
fn fragment_part(text: &str) -> (r: Result<Option<String>, ParseError>)
    ensures
        match r {
            Ok(Some(fragment)) => fragment_of(text@) == Some(Some(fragment@)),
            Ok(None) => fragment_of(text@) == Some(None::<Seq<char>>),
            Err(_) => fragment_of(text@) is None,
        },
{
    match Url::parse(text) {
        Ok(url) => match url.fragment() {
            Some(fragment) => Ok(Some(fragment.to_owned())),
            None => Ok(None),
        },
        Err(e) => Err(e),
    }
}

/// Calls `url::Url::path` on the URL that `url::Url::parse` makes of `text`.
///
/// Believed, not proved: the outcome goes by `text` alone, which is what
/// `path_of` names; the call fails where parsing fails.
#[verifier::external_body]
fn path_part(text: &str) -> (r: Result<String, ParseError>)
    ensures
        match r {
            Ok(path) => path_of(text@) == Some(path@),
            Err(_) => path_of(text@) is None,
        },
{
    match Url::parse(text) {
        Ok(url) => Ok(url.path().to_owned()),
        Err(e) => Err(e),
    }
}

/// Where a reference points.
#[derive(Debug, PartialEq, Eq)]
pub struct Target {
    /// The absolute identifier of the target, fragment included.
    pub full: String,
    /// The identifier of the document that holds the target.
    pub document: String,
    /// The pointer into that document, if the reference has one.
    pub fragment: Option<String>,
}

/// The model of a [`Target`].
pub struct Place {
    pub full: Seq<char>,
    pub document: Seq<char>,
    pub fragment: Option<Seq<char>>,
}

impl View for Target {
    type V = Place;

    open spec fn view(&self) -> Place {
        Place {
            full: self.full@,
            document: self.document@,
            fragment: match self.fragment {
                Some(f) => Some(f@),
                None => None,
            },
        }
    }
}

/// The place that `reference` names when it stands under `base`: the base
/// has to parse, the reference has to join onto it, and the joined
/// identifier is taken apart into its document and its fragment. A base
/// that does not parse is an invalid base; every other failure is an
/// invalid reference.
pub open spec fn locate(base: Seq<char>, reference: Seq<char>) -> Result<Place, ErrorKind> {
    if !parses(base) {
        Err(ErrorKind::InvalidBaseUri)
    } else {
        match joined(base, reference) {
            None => Err(ErrorKind::InvalidReference),
            Some(full) => match (without_fragment(full), fragment_of(full)) {
                (Some(document), Some(fragment)) => Ok(Place { full, document, fragment }),
                _ => Err(ErrorKind::InvalidReference),
            },
        }
    }
}

/// How the document named `identifier` is loaded, by the scheme with which
/// the identifier begins: `http` and `https` documents are fetched, `file`
/// documents are read, and no other is loaded at all.
pub open spec fn transport_of(identifier: Seq<char>) -> Option<Transport> {
    if seq!['h', 't', 't', 'p', ':'].is_prefix_of(identifier) || seq![
        'h',
        't',
        't',
        'p',
        's',
        ':',
    ].is_prefix_of(identifier) {
        Some(Transport::Http)
    } else if seq!['f', 'i', 'l', 'e', ':'].is_prefix_of(identifier) {
        Some(Transport::File)
    } else {
        None
    }
}

/// Decides [`transport_of`].
pub fn transport_for(identifier: &str) -> (r: Option<Transport>)
    ensures
        r == transport_of(identifier@),
{
    let text = chars_of(identifier);
    let http: Vec<char> = vec!['h', 't', 't', 'p', ':'];
    let https: Vec<char> = vec!['h', 't', 't', 'p', 's', ':'];
    let file: Vec<char> = vec!['f', 'i', 'l', 'e', ':'];
    assert(http@ == seq!['h', 't', 't', 'p', ':']);
    assert(https@ == seq!['h', 't', 't', 'p', 's', ':']);
    assert(file@ == seq!['f', 'i', 'l', 'e', ':']);
    if starts_with(&text, &http) || starts_with(&text, &https) {
        Some(Transport::Http)
    } else if starts_with(&text, &file) {
        Some(Transport::File)
    } else {
        None
    }
}

/// The path of the file that the identifier names.
pub fn file_path(identifier: &str) -> (r: Option<String>)
    ensures
        match r {
            Some(path) => path_of(identifier@) == Some(path@),
            None => path_of(identifier@) is None,
        },
{
    match path_part(identifier) {
        Ok(path) => Some(path),
        Err(_) => None,
    }
}

/// The identifier under which the document named by `text` is cached and
/// found again: `text` as the resolver writes it, without a fragment.
/// There is none where `text` is no absolute URI.
pub fn document_identifier(text: &str) -> (r: Option<String>)
    ensures
        match r {
            Some(identifier) => without_fragment(text@) == Some(identifier@),
            None => without_fragment(text@) is None,
        },
{
    match strip_fragment(text) {
        Ok(identifier) => Some(identifier),
        Err(_) => None,
    }
}

/// Resolves `reference` against `base`.
pub fn resolve_reference(base: &str, reference: &str) -> (r: Result<Target, ErrorKind>)
    ensures
        match r {
            Ok(target) => locate(base@, reference@) == Ok::<Place, ErrorKind>(target@),
            Err(kind) => locate(base@, reference@) == Err::<Place, ErrorKind>(kind),
        },
{
    if parse_url(base).is_err() {
        return Err(ErrorKind::InvalidBaseUri);
    }
    let full = match join_url(base, reference) {
        Ok(full) => full,
        Err(_) => {
            return Err(ErrorKind::InvalidReference);
        },
    };
    let document = match strip_fragment(full.as_str()) {
        Ok(document) => document,
        Err(_) => {
            return Err(ErrorKind::InvalidReference);
        },
    };
    let fragment = match fragment_part(full.as_str()) {
        Ok(fragment) => fragment,
        Err(_) => {
            return Err(ErrorKind::InvalidReference);
        },
    };
    Ok(Target { full, document, fragment })
}

} // verus!
