//! Boundary types: one parse at the protocol edge, no invalid state inside.

use std::path::Path;

use vstd::prelude::*;
use vstd::string::*;

use crate::error::ServerError;
use crate::path::{is_portable, is_under, path_parts, DocPath, Part};
use crate::text::{begins_with, joined, same_text, starts_with};

verus! {

/// What `Url::parse` makes of a text: the normal form of the address, or the
/// reason there is none.
pub uninterp spec fn parsed_url(text: Seq<char>) -> Result<Seq<char>, Seq<char>>;

/// The file path that `Url::to_file_path` makes of an address in normal form,
/// whatever its scheme, where it makes one.
pub uninterp spec fn url_file_path(url: Seq<char>) -> Option<Seq<char>>;

/// Calls `url::Url::parse`. The normal form, or the parser's message, is a
/// function of the text.
#[verifier::external_body]
fn parse_url(text: &str) -> (r: Result<String, String>)
    ensures
        match r {
            Ok(url) => parsed_url(text@) == Ok::<Seq<char>, Seq<char>>(url@),
            Err(reason) => parsed_url(text@) == Err::<Seq<char>, Seq<char>>(reason@),
        },
{
    match url::Url::parse(text) {
        Ok(url) => Ok(url.as_str().to_owned()),
        Err(reason) => Err(reason.to_string()),
    }
}

/// Calls `url::Url::to_file_path` on the address that a text spells. The path
/// is a function of the text, by the rules of the platform the crate is built
/// for; a path that is no text counts as none.
#[verifier::external_body]
fn file_path_of(url: &str) -> (r: Option<String>)
    ensures
        match r {
            Some(path) => url_file_path(url@) == Some(path@),
            None => url_file_path(url@) is None,
        },
{
    url::Url::parse(url).ok()?.to_file_path().ok()?.into_os_string().into_string().ok()
}

/// One document address, parsed once at the boundary; `to_path` yields a path
/// only for a file URI.
#[derive(Debug)]
pub struct DocUri {
    text: String,
    path: Option<DocPath>,
}

impl View for DocUri {
    type V = Seq<char>;

    /// The address in normal form.
    closed spec fn view(&self) -> Seq<char> {
        self.text@
    }
}

/// What a text says that is no document address.
pub open spec fn bad_uri_text(value: Seq<char>, reason: Seq<char>) -> Seq<char> {
    "document URI "@ + value + ": "@ + reason
}

/// The path that an address in normal form names: only a file URI names one.
pub open spec fn uri_path(url: Seq<char>) -> Option<Seq<char>> {
    if begins_with(url, "file:"@) {
        url_file_path(url)
    } else {
        None
    }
}

/// Whether an optional path is the path of an address.
pub open spec fn is_path_of(path: Option<DocPath>, url: Seq<char>) -> bool {
    match path {
        Some(path) => uri_path(url) == Some(path.spelling()) && path@ == path_parts(
            path.spelling(),
        ),
        None => uri_path(url) is None,
    }
}

/// The components of the path that an address names.
pub open spec fn uri_parts(url: Seq<char>) -> Option<Seq<Part>> {
    match uri_path(url) {
        Some(text) => Some(path_parts(text)),
        None => None,
    }
}

impl DocUri {
    #[verifier::type_invariant]
    spec fn resolved(&self) -> bool {
        is_path_of(self.path, self.text@)
    }

    /// Parse an address; anything that is no address is invalid params.
    pub fn try_from(value: &str) -> (r: Result<DocUri, ServerError>)
        ensures
            match parsed_url(value@) {
                Ok(url) => r matches Ok(uri) && uri@ == url,
                Err(reason) => r matches Err(ServerError::InvalidParams(detail)) && detail@
                    == bad_uri_text(value@, reason),
            },
    {
        match parse_url(value) {
            Ok(text) => Ok(DocUri::from_normal_form(text)),
            Err(reason) => {
                let mut detail: String = joined("document URI ", value);
                detail.append(": ");
                detail.append(reason.as_str());
                Err(ServerError::InvalidParams(detail))
            },
        }
    }

    /// The address whose normal form is at hand.
    fn from_normal_form(text: String) -> (r: DocUri)
        ensures
            r@ == text@,
    {
        if !starts_with(text.as_str(), "file:") {
            return DocUri { text, path: None };
        }
        let path: Option<DocPath> = match file_path_of(text.as_str()) {
            Some(path) => Some(DocPath::new(path)),
            None => None,
        };
        DocUri { text, path }
    }

    /// The address in normal form.
    pub fn as_str(&self) -> (r: &str)
        ensures
            r@ == self@,
    {
        self.text.as_str()
    }

    /// Path of a file URI. `None` for any other scheme.
    pub fn to_path(&self) -> (r: Option<&DocPath>)
        ensures
            match r {
                Some(path) => uri_path(self@) == Some(path.spelling()) && path@ == path_parts(
                    path.spelling(),
                ),
                None => uri_path(self@) is None,
            },
    {
        proof {
            use_type_invariant(self);
        }
        match &self.path {
            Some(path) => Some(path),
            None => None,
        }
    }

    /// Whether two addresses have one normal form.
    pub fn same(&self, other: &DocUri) -> (r: bool)
        ensures
            r == (self@ == other@),
    {
        self.text == other.text
    }
}

impl Clone for DocUri {
    fn clone(&self) -> (r: DocUri)
        ensures
            r@ == self@,
    {
        proof {
            use_type_invariant(self);
        }
        let path: Option<DocPath> = match &self.path {
            Some(path) => Some(path.clone()),
            None => None,
        };
        DocUri { text: self.text.clone(), path }
    }
}

/// Document version the client sent; the buffer store keeps it strictly
/// increasing.
#[derive(Clone, Copy, Debug, PartialEq, Eq, Structural)]
pub struct DocVersion(pub i32);

impl DocVersion {
    pub fn get(self) -> (r: i32)
        ensures
            r == self.0,
    {
        self.0
    }

    pub fn is_newer_than(self, other: Self) -> (r: bool)
        ensures
            r == (self.0 > other.0),
    {
        self.0 > other.0
    }
}

impl From<i32> for DocVersion {
    fn from(value: i32) -> (r: Self) {
        DocVersion(value)
    }
}

impl vstd::std_specs::convert::FromSpecImpl<i32> for DocVersion {
    open spec fn obeys_from_spec() -> bool {
        true
    }

    open spec fn from_spec(value: i32) -> Self {
        DocVersion(value)
    }
}

/// What `dunce::simplified` makes of a text that not every platform splits
/// alike.
pub uninterp spec fn simplified_path(path: Seq<char>) -> Seq<char>;

/// The plainest spelling of a path.
pub open spec fn plain_spelling(path: Seq<char>) -> Seq<char> {
    if is_portable(path) {
        path
    } else {
        simplified_path(path)
    }
}

/// Calls `dunce::simplified`, which takes the verbatim prefix off a Windows
/// path where it can and leaves every other path as it is: a portable path has
/// no such prefix.
#[verifier::external_body]
pub(crate) fn simplify_path(path: &str) -> (r: String)
    ensures
        r@ == (if is_portable(path@) {
            path@
        } else {
            simplified_path(path@)
        }),
{
    dunce::simplified(Path::new(path)).to_string_lossy().into_owned()
}

/// Canonical project root: an existing directory, in the spelling buffers and
/// watch paths use.
#[derive(Debug)]
pub struct RootDir {
    path: DocPath,
}

impl View for RootDir {
    type V = Seq<Part>;

    closed spec fn view(&self) -> Seq<Part> {
        self.path@
    }
}

impl RootDir {
    /// The spelling of the root.
    pub closed spec fn spelling(&self) -> Seq<char> {
        self.path.spelling()
    }

    /// Take a path as root. `is_directory` says whether an existing directory
    /// is there; nothing else can be a root.
    pub fn try_from(path: &DocPath, is_directory: bool) -> (r: Result<RootDir, String>)
        ensures
            match r {
                Ok(root) => is_directory && root.spelling() == plain_spelling(path.spelling())
                    && root@ == path_parts(root.spelling()),
                Err(reason) => !is_directory && reason@
                    == "workspace folder is not an existing directory: "@ + path.spelling(),
            },
    {
        if !is_directory {
            return Err(
                joined("workspace folder is not an existing directory: ", path.as_str()),
            );
        }
        Ok(RootDir { path: DocPath::new(simplify_path(path.as_str())) })
    }

    pub fn as_path(&self) -> (r: &DocPath)
        ensures
            r@ == self@,
            r.spelling() == self.spelling(),
            self@ == path_parts(self.spelling()),
    {
        let _ = self.path.as_str();
        &self.path
    }

    /// Whether a path lies at or below the root.
    pub fn contains(&self, path: &DocPath) -> (r: bool)
        ensures
            r == is_under(path@, self@),
    {
        path.starts_with(&self.path)
    }
}

impl Clone for RootDir {
    fn clone(&self) -> (r: RootDir)
        ensures
            r@ == self@,
            r.spelling() == self.spelling(),
    {
        RootDir { path: self.path.clone() }
    }
}

#[derive(Clone, Copy, Debug, PartialEq, Eq, Structural)]
pub enum LogLevel {
    Error,
    Warn,
    Info,
    Debug,
    Trace,
}

/// A text in quotes, as `{:?}` writes it.
pub uninterp spec fn debug_text(text: Seq<char>) -> Seq<char>;

/// Calls `<str as std::fmt::Debug>::fmt` through `format!`. The quoted text is a
/// function of the text.
#[verifier::external_body]
pub(crate) fn quoted(text: &str) -> (r: String)
    ensures
        r@ == debug_text(text@),
{
    format!("{text:?}")
}

impl LogLevel {
    /// The name of the level.
    pub open spec fn name(self) -> Seq<char> {
        match self {
            LogLevel::Error => "error"@,
            LogLevel::Warn => "warn"@,
            LogLevel::Info => "info"@,
            LogLevel::Debug => "debug"@,
            LogLevel::Trace => "trace"@,
        }
    }

    /// The name of the level.
    pub fn as_str(self) -> (r: &'static str)
        ensures
            r@ == self.name(),
    {
        match self {
            LogLevel::Error => "error",
            LogLevel::Warn => "warn",
            LogLevel::Info => "info",
            LogLevel::Debug => "debug",
            LogLevel::Trace => "trace",
        }
    }

    /// The level of that name.
    pub fn try_from(value: &str) -> (r: Result<LogLevel, String>)
        ensures
            match r {
                Ok(level) => level.name() == value@,
                Err(reason) => {
                    &&& reason@ == "unknown log level "@ + debug_text(value@)
                    &&& forall|level: LogLevel| (#[trigger] level.name()) != value@
                },
            },
    {
        if same_text(value, "error") {
            Ok(LogLevel::Error)
        } else if same_text(value, "warn") {
            Ok(LogLevel::Warn)
        } else if same_text(value, "info") {
            Ok(LogLevel::Info)
        } else if same_text(value, "debug") {
            Ok(LogLevel::Debug)
        } else if same_text(value, "trace") {
            Ok(LogLevel::Trace)
        } else {
            Err(joined("unknown log level ", quoted(value).as_str()))
        }
    }
}

/// Only a file URI has a path, whatever another scheme holds.
pub proof fn only_file_addresses_have_paths(uri: DocUri, path: Option<&DocPath>)
    requires
        call_ensures(DocUri::to_path, (&uri,), path),
        !begins_with(uri@, "file:"@),
    ensures
        path is None,
        uri_parts(uri@) is None,
{
}

/// The names tell the levels apart, so parsing a level's name gives the level.
pub proof fn level_names_are_distinct(a: LogLevel, b: LogLevel)
    ensures
        a.name() == b.name() ==> a == b,
{
    reveal_strlit("error");
    reveal_strlit("warn");
    reveal_strlit("info");
    reveal_strlit("debug");
    reveal_strlit("trace");
    assert("warn"@.len() == 4 && "info"@.len() == 4);
    assert("warn"@[0] == 'w' && "info"@[0] == 'i');
    assert("error"@[0] == 'e' && "debug"@[0] == 'd' && "trace"@[0] == 't');
}

} // verus!
