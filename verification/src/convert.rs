//! Maps between the engine's values and the protocol's.

use std::path::Path;

use vstd::prelude::*;
use vstd::string::*;

use crate::model::{Diagnostic, Severity, SymbolKind};
use crate::path::{is_portable, path_parts, DocPath, Part};
use crate::position::{byte_column_range, range_in, range_without_text, Encoding, SourceFile};
use crate::protocol::{
    CompletionKindCode, DiagnosticSeverity, LspDiagnostic, Position, Range, SymbolKindCode,
};
use crate::text::{byte_len, text_len};
use crate::types::{parsed_url, plain_spelling, simplify_path, uri_parts};

verus! {

/// Name of the diagnostic source shown to the client.
pub const DIAGNOSTIC_SOURCE: &'static str = "meta-ast";

/// The file address of a path, where it has one.
pub uninterp spec fn file_url(path: Seq<char>) -> Option<Seq<char>>;

/// Whether the protocol's address type takes a text.
pub uninterp spec fn is_lsp_uri(text: Seq<char>) -> bool;

/// A path that its address spells out: no part of it has a meaning of its own in
/// an address, as `..`, a drive letter and the backslash do.
pub open spec fn is_plain(path: Seq<char>) -> bool {
    is_portable(path) && !path.contains('|') && !path_parts(path).contains(Part::Parent)
}

/// Calls `url::Url::from_file_path`. The address is a function of the path, by
/// the rules of the platform the crate is built for. The address of a plain path
/// is in normal form, so `url::Url::parse` leaves it as it is, and
/// `url::Url::to_file_path` gives back a path of the same components.
#[verifier::external_body]
fn url_of_path(path: &str) -> (r: Option<String>)
    ensures
        match r {
            Some(url) => {
                &&& file_url(path@) == Some(url@)
                &&& is_plain(path@) ==> parsed_url(url@) == Ok::<Seq<char>, Seq<char>>(url@)
                    && uri_parts(url@) == Some(path_parts(path@))
            },
            None => file_url(path@) is None,
        },
{
    url::Url::from_file_path(Path::new(path)).ok().map(|url| url.as_str().to_owned())
}

/// Calls `<lsp_types::Uri as std::str::FromStr>::from_str`. Whether it takes the
/// text is a function of the text. It panics on a text that is longer than
/// `i32::MAX` bytes.
#[verifier::external_body]
fn takes_uri(text: &str) -> (r: bool)
    requires
        byte_len(text@) <= i32::MAX,
    ensures
        r == is_lsp_uri(text@),
{
    text.parse::<lsp_types::Uri>().is_ok()
}

/// The protocol's address of a path, where it has one: no address is longer than
/// `i32::MAX` bytes.
pub open spec fn uri_of_path(path: Seq<char>) -> Option<Seq<char>> {
    match file_url(plain_spelling(path)) {
        Some(url) => if byte_len(url) <= i32::MAX && is_lsp_uri(url) {
            Some(url)
        } else {
            None
        },
        None => None,
    }
}

/// The protocol's address of a path; a relative path has none. The address of a
/// plain path is a document address that leads back to the path.
pub fn path_to_uri(path: &DocPath) -> (r: Option<String>)
    ensures
        match r {
            Some(uri) => {
                &&& uri_of_path(path.spelling()) == Some(uri@)
                &&& is_plain(path.spelling()) ==> parsed_url(uri@) == Ok::<Seq<char>, Seq<char>>(
                    uri@,
                ) && uri_parts(uri@) == Some(path@)
            },
            None => uri_of_path(path.spelling()) is None,
        },
{
    let plain: String = simplify_path(path.as_str());
    match url_of_path(plain.as_str()) {
        Some(url) => if text_len(url.as_str()) <= i32::MAX as usize && takes_uri(url.as_str()) {
            Some(url)
        } else {
            None
        },
        None => None,
    }
}

/// Protocol kinds of an engine kind. The protocol has no completion kind for an
/// object, which completes as a module.
pub open spec fn kinds_of(kind: SymbolKind) -> (SymbolKindCode, CompletionKindCode) {
    match kind {
        SymbolKind::Function => (SymbolKindCode::Function, CompletionKindCode::Function),
        SymbolKind::Method => (SymbolKindCode::Method, CompletionKindCode::Method),
        SymbolKind::Class => (SymbolKindCode::Class, CompletionKindCode::Class),
        SymbolKind::Struct => (SymbolKindCode::Struct, CompletionKindCode::Struct),
        SymbolKind::Interface => (SymbolKindCode::Interface, CompletionKindCode::Interface),
        SymbolKind::Trait => (SymbolKindCode::Interface, CompletionKindCode::Interface),
        SymbolKind::Enum => (SymbolKindCode::Enum, CompletionKindCode::Enum),
        SymbolKind::Object => (SymbolKindCode::Object, CompletionKindCode::Module),
        SymbolKind::Constant => (SymbolKindCode::Constant, CompletionKindCode::Constant),
        SymbolKind::Module => (SymbolKindCode::Module, CompletionKindCode::Module),
        SymbolKind::Namespace => (SymbolKindCode::Namespace, CompletionKindCode::Module),
        SymbolKind::TypeAlias => (SymbolKindCode::TypeParameter, CompletionKindCode::TypeParameter),
        SymbolKind::Static => (SymbolKindCode::Variable, CompletionKindCode::Variable),
        SymbolKind::Declaration => (SymbolKindCode::Variable, CompletionKindCode::Variable),
    }
}

/// Protocol kind pair of an engine kind.
pub fn kind_pair(kind: SymbolKind) -> (r: (SymbolKindCode, CompletionKindCode))
    ensures
        r == kinds_of(kind),
{
    match kind {
        SymbolKind::Function => (SymbolKindCode::Function, CompletionKindCode::Function),
        SymbolKind::Method => (SymbolKindCode::Method, CompletionKindCode::Method),
        SymbolKind::Class => (SymbolKindCode::Class, CompletionKindCode::Class),
        SymbolKind::Struct => (SymbolKindCode::Struct, CompletionKindCode::Struct),
        SymbolKind::Interface => (SymbolKindCode::Interface, CompletionKindCode::Interface),
        SymbolKind::Trait => (SymbolKindCode::Interface, CompletionKindCode::Interface),
        SymbolKind::Enum => (SymbolKindCode::Enum, CompletionKindCode::Enum),
        SymbolKind::Object => (SymbolKindCode::Object, CompletionKindCode::Module),
        SymbolKind::Constant => (SymbolKindCode::Constant, CompletionKindCode::Constant),
        SymbolKind::Module => (SymbolKindCode::Module, CompletionKindCode::Module),
        SymbolKind::Namespace => (SymbolKindCode::Namespace, CompletionKindCode::Module),
        SymbolKind::TypeAlias => (SymbolKindCode::TypeParameter, CompletionKindCode::TypeParameter),
        SymbolKind::Static => (SymbolKindCode::Variable, CompletionKindCode::Variable),
        SymbolKind::Declaration => (SymbolKindCode::Variable, CompletionKindCode::Variable),
    }
}

pub fn symbol_kind(kind: SymbolKind) -> (r: SymbolKindCode)
    ensures
        r == kinds_of(kind).0,
{
    kind_pair(kind).0
}

pub fn completion_kind(kind: SymbolKind) -> (r: CompletionKindCode)
    ensures
        r == kinds_of(kind).1,
{
    kind_pair(kind).1
}

/// Display word for one engine symbol kind.
pub open spec fn word_of(kind: SymbolKind) -> Seq<char> {
    match kind {
        SymbolKind::Function => "function"@,
        SymbolKind::Method => "method"@,
        SymbolKind::Class => "class"@,
        SymbolKind::Struct => "struct"@,
        SymbolKind::Interface => "interface"@,
        SymbolKind::Trait => "trait"@,
        SymbolKind::Enum => "enum"@,
        SymbolKind::Object => "object"@,
        SymbolKind::Constant => "constant"@,
        SymbolKind::Module => "module"@,
        SymbolKind::Namespace => "namespace"@,
        SymbolKind::TypeAlias => "type alias"@,
        SymbolKind::Static => "variable"@,
        SymbolKind::Declaration => "variable"@,
    }
}

/// Display word for one engine symbol kind; kept beside `kind_pair` so the two
/// cannot drift.
pub fn kind_word(kind: SymbolKind) -> (r: &'static str)
    ensures
        r@ == word_of(kind),
{
    match kind {
        SymbolKind::Function => "function",
        SymbolKind::Method => "method",
        SymbolKind::Class => "class",
        SymbolKind::Struct => "struct",
        SymbolKind::Interface => "interface",
        SymbolKind::Trait => "trait",
        SymbolKind::Enum => "enum",
        SymbolKind::Object => "object",
        SymbolKind::Constant => "constant",
        SymbolKind::Module => "module",
        SymbolKind::Namespace => "namespace",
        SymbolKind::TypeAlias => "type alias",
        SymbolKind::Static => "variable",
        SymbolKind::Declaration => "variable",
    }
}

/// How grave the protocol calls an engine severity.
pub open spec fn severity_of(severity: Severity) -> DiagnosticSeverity {
    match severity {
        Severity::Error => DiagnosticSeverity::Error,
        Severity::Warning => DiagnosticSeverity::Warning,
    }
}

pub fn severity(own: Severity) -> (r: DiagnosticSeverity)
    ensures
        r == severity_of(own),
{
    match own {
        Severity::Error => DiagnosticSeverity::Error,
        Severity::Warning => DiagnosticSeverity::Warning,
    }
}

/// The range a diagnostic is shown at: its own, by the text where that is at
/// hand; the head of the file where it has none.
pub open spec fn diagnostic_range(
    text: Option<Seq<char>>,
    diagnostic: Diagnostic,
    encoding: Encoding,
) -> Range {
    match diagnostic.source_range {
        Some(range) => match text {
            Some(text) => range_in(text, range, encoding),
            None => byte_column_range(range),
        },
        None => Range {
            start: Position { line: 0, character: 0 },
            end: Position { line: 0, character: 1 },
        },
    }
}

/// A protocol diagnostic shows one of the engine.
pub open spec fn shows_diagnostic(
    shown: LspDiagnostic,
    text: Option<Seq<char>>,
    diagnostic: Diagnostic,
    encoding: Encoding,
) -> bool {
    &&& shown.range == diagnostic_range(text, diagnostic, encoding)
    &&& shown.severity == severity_of(diagnostic.severity)
    &&& shown.source@ == DIAGNOSTIC_SOURCE@
    &&& shown.message@ == diagnostic.message@
}

pub fn diagnostic_to_lsp(
    source: Option<&SourceFile>,
    diagnostic: &Diagnostic,
    encoding: Encoding,
) -> (r: LspDiagnostic)
    ensures
        shows_diagnostic(
            r,
            match source {
                Some(source) => Some(source@),
                None => None,
            },
            *diagnostic,
            encoding,
        ),
{
    let range: Range = match &diagnostic.source_range {
        Some(range) => match source {
            Some(source) => source.range(range, encoding),
            None => range_without_text(range),
        },
        None => Range {
            start: Position { line: 0, character: 0 },
            end: Position { line: 0, character: 1 },
        },
    };
    LspDiagnostic {
        range,
        severity: severity(diagnostic.severity),
        source: DIAGNOSTIC_SOURCE.to_owned(),
        message: diagnostic.message.clone(),
    }
}

} // verus!
