//! Plain values of the language server protocol.

use vstd::prelude::*;
use vstd::string::*;

verus! {

/// A line and a column in the negotiated encoding, both counted from zero.
#[derive(Clone, Copy, Debug, PartialEq, Eq, Structural)]
pub struct Position {
    pub line: u32,
    pub character: u32,
}

/// A half-open range of positions.
#[derive(Clone, Copy, Debug, PartialEq, Eq, Structural)]
pub struct Range {
    pub start: Position,
    pub end: Position,
}

/// What the client said it can do, as far as the server reads it.
#[derive(Debug)]
pub struct ClientCapabilities {
    /// Column encodings the client offers, most preferred first.
    pub position_encodings: Option<Vec<String>>,
    /// The client shows work-done progress that the server starts.
    pub work_done_progress: bool,
    /// The client accepts a definition answer with link ranges.
    pub definition_link_support: bool,
    /// The client accepts a registration for watched files.
    pub watched_files_registration: bool,
    /// The client pulls diagnostics.
    pub pull_diagnostics: bool,
}

impl Default for ClientCapabilities {
    fn default() -> (r: Self)
        ensures
            r.position_encodings is None,
            !r.work_done_progress,
            !r.definition_link_support,
            !r.watched_files_registration,
            !r.pull_diagnostics,
    {
        ClientCapabilities {
            position_encodings: None,
            work_done_progress: false,
            definition_link_support: false,
            watched_files_registration: false,
            pull_diagnostics: false,
        }
    }
}

/// A request's id: a number or a text.
#[derive(Debug)]
pub enum RequestId {
    Number(i32),
    Text(String),
}

/// A request id as a value.
pub enum IdView {
    Number(i32),
    Text(Seq<char>),
}

impl View for RequestId {
    type V = IdView;

    open spec fn view(&self) -> IdView {
        match self {
            RequestId::Number(n) => IdView::Number(*n),
            RequestId::Text(t) => IdView::Text(t@),
        }
    }
}

impl RequestId {
    /// Whether two ids are the same.
    pub fn same(&self, other: &RequestId) -> (r: bool)
        ensures
            r == (self@ == other@),
    {
        match (self, other) {
            (RequestId::Number(a), RequestId::Number(b)) => *a == *b,
            (RequestId::Text(a), RequestId::Text(b)) => *a == *b,
            _ => false,
        }
    }
}

impl Clone for RequestId {
    fn clone(&self) -> (r: Self)
        ensures
            r@ == self@,
    {
        match self {
            RequestId::Number(n) => RequestId::Number(*n),
            RequestId::Text(t) => RequestId::Text(t.clone()),
        }
    }
}

/// An error answer to a request.
#[derive(Debug)]
pub struct ErrorReply {
    pub id: RequestId,
    pub code: i32,
    pub message: String,
}

/// What the protocol calls a symbol.
#[derive(Clone, Copy, Debug, PartialEq, Eq, Structural)]
pub enum SymbolKindCode {
    Function,
    Method,
    Class,
    Struct,
    Interface,
    Enum,
    Object,
    Constant,
    Module,
    Namespace,
    TypeParameter,
    Variable,
}

/// What the protocol calls a completed name.
#[derive(Clone, Copy, Debug, PartialEq, Eq, Structural)]
pub enum CompletionKindCode {
    Function,
    Method,
    Class,
    Struct,
    Interface,
    Enum,
    Module,
    Constant,
    TypeParameter,
    Variable,
}

/// How grave the protocol calls a diagnostic.
#[derive(Clone, Copy, Debug, PartialEq, Eq, Structural)]
pub enum DiagnosticSeverity {
    Error,
    Warning,
}

/// A range of a document.
#[derive(Debug)]
pub struct Location {
    pub uri: String,
    pub range: Range,
}

/// A definition with the ranges a client shows for it.
#[derive(Debug)]
pub struct LocationLink {
    pub origin_selection_range: Option<Range>,
    pub target_uri: String,
    pub target_range: Range,
    pub target_selection_range: Range,
}

/// Where a name is defined: plain locations, or links for a client that takes
/// them.
#[derive(Debug)]
pub enum Definition {
    Array(Vec<Location>),
    Link(Vec<LocationLink>),
}

/// Markdown shown for a symbol, and the symbol's range.
#[derive(Debug)]
pub struct Hover {
    pub value: String,
    pub range: Range,
}

/// One symbol of a document.
#[derive(Debug)]
pub struct DocumentSymbol {
    pub name: String,
    pub detail: Option<String>,
    pub kind: SymbolKindCode,
    pub range: Range,
    pub selection_range: Range,
}

/// One symbol of the workspace.
#[derive(Debug)]
pub struct WorkspaceSymbol {
    pub name: String,
    pub kind: SymbolKindCode,
    pub location: Location,
}

/// One completed name.
#[derive(Debug)]
pub struct CompletionItem {
    pub label: String,
    pub kind: CompletionKindCode,
    pub detail: Option<String>,
    pub filter_text: String,
    pub sort_text: String,
}

/// One diagnostic of a document.
#[derive(Debug)]
pub struct LspDiagnostic {
    pub range: Range,
    pub severity: DiagnosticSeverity,
    pub source: String,
    pub message: String,
}

/// The text of an optional string.
pub open spec fn optional_text(text: Option<String>) -> Option<Seq<char>> {
    match text {
        Some(text) => Some(text@),
        None => None,
    }
}

/// A copy of an optional string.
pub fn copy_text(text: &Option<String>) -> (r: Option<String>)
    ensures
        r == *text,
{
    match text {
        Some(text) => Some(text.clone()),
        None => None,
    }
}

/// What a request is answered with.
#[derive(Debug)]
pub enum Reply {
    DocumentSymbols(Vec<DocumentSymbol>),
    Hover(Option<Hover>),
    Definition(Option<Definition>),
    References(Vec<Location>),
    WorkspaceSymbols(Vec<WorkspaceSymbol>),
    Completion(Vec<CompletionItem>),
    /// The diagnostics are those of the report with this id.
    DiagnosticsUnchanged { result_id: String },
    DiagnosticsFull { result_id: String, items: Vec<LspDiagnostic> },
    /// The answer to a shutdown.
    Null,
}

/// One message to the client.
#[derive(Debug)]
pub enum Outgoing {
    /// Ask the client to show progress under a token.
    CreateProgress { id: RequestId, token: String },
    ProgressBegin { token: String },
    ProgressEnd { token: String },
    ShowWarning { message: String },
    /// A request's result.
    Answer { id: RequestId, reply: Reply },
    /// A request's error.
    Refuse(ErrorReply),
}

/// How a client sends edits.
#[derive(Clone, Copy, Debug, PartialEq, Eq, Structural)]
pub enum SyncKind {
    Full,
    Incremental,
}

/// What the server says it can do.
#[derive(Debug)]
pub struct ServerCapabilities {
    pub position_encoding: String,
    pub open_close: bool,
    pub change: SyncKind,
    pub save_includes_text: bool,
    pub document_symbol: bool,
    pub hover: bool,
    pub definition: bool,
    pub references: bool,
    pub workspace_symbol: bool,
    pub completion_triggers: Vec<String>,
    pub diagnostic_identifier: String,
    pub inter_file_dependencies: bool,
    pub workspace_diagnostics: bool,
}

/// What a client sends to begin.
#[derive(Debug)]
pub struct InitializeParams {
    /// Addresses of the workspace folders.
    pub workspace_folders: Option<Vec<String>>,
    pub capabilities: ClientCapabilities,
}

} // verus!
