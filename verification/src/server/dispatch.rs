//! Request dispatch and notification handling.

use std::sync::Arc;

use vstd::prelude::*;
use vstd::string::*;

use super::capabilities::{is_resolver_config, names_resolver_config};
use super::session::{
    refusal, session_gives, unavailable, DiskText, IndexState, Session, SessionText,
};
use crate::buffers::{edited, is_language_of, ContentChange, DocView, OpenOutcome};
use crate::cancel::{after_cancel, parted_share, Cancellation};
use crate::error::{ErrorView, ServerError};
use crate::handlers::complete::{completion_at, completion_offers, shows_offers};
use crate::handlers::diagnostics::{diagnostics_about, diagnostics_for, shows_diagnostics};
use crate::handlers::goto::{
    answers_definition, definition_at, referenced_places, references_at, shows_places,
};
use crate::handlers::hover::{hover_at, hover_text};
use crate::handlers::symbol::{
    addressed, capped, document_symbols, ordered_matches, shows_symbols, shows_workspace_symbols,
    symbols_in, workspace_symbols, CAP_WORKSPACE_SYMBOLS,
};
use crate::handlers::{cursor_of, has_looked, range_by, QueryCtx, Texts};
use crate::index::query::{innermost_symbol, resolution_in};
use crate::index::snapshot::{belongs, IndexSnapshot};
use crate::index::{gives, version_of, Analysis, SourceText};
use crate::model::{detect_language, is_file_of, LangId};
use crate::path::{is_under, name_of, path_parts, DocPath, Part};
use crate::position::Encoding;
use crate::protocol::{optional_text, IdView, Outgoing, Position, Reply, RequestId};
use crate::text::{
    decimal, decimal_text, joined, lemma_decimal_digits, lemma_decimal_injective,
    lemma_signed_injective, same_text, signed_decimal, signed_text,
};
use crate::types::{
    bad_uri_text, parsed_url, uri_parts, uri_path, DocUri, DocVersion,
};

verus! {

// ---------------------------------------------------------------------------
// Requests

/// What a request method asks for.
#[derive(Clone, Copy, Debug, PartialEq, Eq, Structural)]
pub enum RequestKind {
    DocumentSymbol,
    Hover,
    Definition,
    References,
    WorkspaceSymbol,
    Completion,
    Diagnostic,
    Shutdown,
}

impl RequestKind {
    /// The method of the protocol.
    pub open spec fn method(self) -> Seq<char> {
        match self {
            RequestKind::DocumentSymbol => "textDocument/documentSymbol"@,
            RequestKind::Hover => "textDocument/hover"@,
            RequestKind::Definition => "textDocument/definition"@,
            RequestKind::References => "textDocument/references"@,
            RequestKind::WorkspaceSymbol => "workspace/symbol"@,
            RequestKind::Completion => "textDocument/completion"@,
            RequestKind::Diagnostic => "textDocument/diagnostic"@,
            RequestKind::Shutdown => "shutdown"@,
        }
    }
}

/// What a request method asks for, where the server knows it.
pub fn request_kind(method: &str) -> (r: Option<RequestKind>)
    ensures
        match r {
            Some(kind) => kind.method() == method@,
            None => forall|kind: RequestKind| (#[trigger] kind.method()) != method@,
        },
{
    if same_text(method, "textDocument/documentSymbol") {
        Some(RequestKind::DocumentSymbol)
    } else if same_text(method, "textDocument/hover") {
        Some(RequestKind::Hover)
    } else if same_text(method, "textDocument/definition") {
        Some(RequestKind::Definition)
    } else if same_text(method, "textDocument/references") {
        Some(RequestKind::References)
    } else if same_text(method, "workspace/symbol") {
        Some(RequestKind::WorkspaceSymbol)
    } else if same_text(method, "textDocument/completion") {
        Some(RequestKind::Completion)
    } else if same_text(method, "textDocument/diagnostic") {
        Some(RequestKind::Diagnostic)
    } else if same_text(method, "shutdown") {
        Some(RequestKind::Shutdown)
    } else {
        None
    }
}

/// One request, its parameters taken out of their wire form.
#[derive(Debug)]
pub enum Query {
    DocumentSymbol { uri: String },
    Hover { uri: String, position: Position },
    Definition { uri: String, position: Position },
    References { uri: String, position: Position, include_declaration: bool },
    WorkspaceSymbol { query: String },
    Completion { uri: String, position: Position },
    Diagnostic { uri: String, previous_result_id: Option<String> },
    /// The parameters are not those of the method.
    Malformed { detail: String },
    /// The server does not know the method.
    Unknown { method: String },
}

/// The document that a query is about.
pub open spec fn query_uri(query: Query) -> Option<Seq<char>> {
    match query {
        Query::DocumentSymbol { uri } => Some(uri@),
        Query::Hover { uri, .. } => Some(uri@),
        Query::Definition { uri, .. } => Some(uri@),
        Query::References { uri, .. } => Some(uri@),
        Query::Completion { uri, .. } => Some(uri@),
        Query::Diagnostic { uri, .. } => Some(uri@),
        _ => None,
    }
}

/// Why a query about a document gets no result, if it gets none.
pub open spec fn document_refusal(session: Session, uri: Seq<char>) -> Option<ErrorView> {
    match parsed_url(uri) {
        Err(reason) => Some(ErrorView::InvalidParams(bad_uri_text(uri, reason))),
        Ok(url) => refusal(session, url),
    }
}

/// Why a query gets no result, if it gets none.
pub open spec fn query_refusal(session: Session, query: Query) -> Option<ErrorView> {
    match query {
        Query::Malformed { detail } => Some(ErrorView::InvalidParams(detail@)),
        Query::Unknown { method } => Some(ErrorView::MethodNotFound(method@)),
        Query::WorkspaceSymbol { .. } => unavailable(session.index),
        _ => document_refusal(session, query_uri(query)->0),
    }
}

/// The id of a pull report: generation, plus the version for an open document.
pub open spec fn report_id(a: Analysis, url: Seq<char>) -> Seq<char> {
    let head = "meta-ast:"@ + decimal_text(a.generation as nat);
    let version = match uri_parts(url) {
        Some(path) => version_of(a.versions@, path),
        None => None,
    };
    match version {
        Some(version) => head + ":"@ + signed_text(version.0 as int),
        None => head,
    }
}

/// Result id of one pull report: generation, plus the version for an open
/// document.
pub fn diagnostic_result_id(snapshot: &IndexSnapshot, uri: &DocUri) -> (r: String)
    ensures
        r@ == report_id(snapshot@, uri@),
{
    let mut id: String = joined("meta-ast:", decimal(snapshot.generation() as u64).as_str());
    let version: Option<DocVersion> = match uri.to_path() {
        Some(path) => snapshot.document_version(path),
        None => None,
    };
    if let Some(version) = version {
        id.append(":");
        id.append(signed_decimal(version.get()).as_str());
    }
    id
}

/// Every text is one that the session gives over the disk.
pub open spec fn given<D: DiskText>(session: Session, disk: D, texts: Texts) -> bool {
    forall|path: Seq<Part>| #[trigger]
        texts.contains_key(path) ==> session_gives(session, disk, path, texts[path])
}

/// A reply answers a query about the document at `url`, by the texts at hand.
pub open spec fn answers_document(
    reply: Reply,
    a: Analysis,
    texts: Texts,
    url: Seq<char>,
    query: Query,
    encoding: Encoding,
    definition_links: bool,
) -> bool {
    &&& has_looked(a, texts, url) || query is DocumentSymbol || query is Diagnostic
    &&& match query {
        Query::DocumentSymbol { .. } => reply matches Reply::DocumentSymbols(entries)
            && shows_symbols(entries@, texts, symbols_in(a, url), encoding),
        Query::Hover { position, .. } => reply matches Reply::Hover(hover) && match cursor_of(
            a,
            texts,
            url,
            position,
            encoding,
        ) {
            Some((file, byte)) => match innermost_symbol(file, byte) {
                Some(symbol) => hover matches Some(shown) && shown.value@ == hover_text(symbol)
                    && shown.range == range_by(texts, file.path@, symbol.source_range, encoding),
                None => hover is None,
            },
            None => hover is None,
        },
        Query::Definition { position, .. } => reply matches Reply::Definition(definition)
            && match cursor_of(a, texts, url, position, encoding) {
            Some((file, byte)) => answers_definition(
                definition,
                a,
                texts,
                file,
                byte,
                definition_links,
                encoding,
            ),
            None => definition is None,
        },
        Query::References { position, include_declaration, .. } => reply matches Reply::References(
            locations,
        ) && match cursor_of(a, texts, url, position, encoding) {
            Some((file, byte)) => shows_places(
                locations@,
                texts,
                referenced_places(a, resolution_in(a, file, byte), include_declaration),
                encoding,
            ),
            None => locations@.len() == 0,
        },
        Query::Completion { position, .. } => reply matches Reply::Completion(items)
            && match cursor_of(a, texts, url, position, encoding) {
            Some((file, byte)) => shows_offers(
                items@,
                a,
                completion_offers(a, texts, file, byte),
            ),
            None => items@.len() == 0,
        },
        Query::Diagnostic { previous_result_id, .. } => match reply {
            Reply::DiagnosticsUnchanged { result_id } => {
                &&& result_id@ == report_id(a, url)
                &&& previous_result_id matches Some(previous) && previous@ == report_id(a, url)
            },
            Reply::DiagnosticsFull { result_id, items } => {
                &&& result_id@ == report_id(a, url)
                &&& previous_result_id matches Some(previous) ==> previous@ != report_id(a, url)
                &&& shows_diagnostics(items@, texts, diagnostics_about(a, url), encoding)
            },
            _ => false,
        },
        _ => false,
    }
}

/// A reply answers a query, by the texts at hand.
pub open spec fn answers_query(
    reply: Reply,
    a: Analysis,
    texts: Texts,
    query: Query,
    encoding: Encoding,
    definition_links: bool,
) -> bool {
    match query {
        Query::WorkspaceSymbol { query } => reply matches Reply::WorkspaceSymbols(entries)
            && shows_workspace_symbols(
            entries@,
            texts,
            addressed(capped(ordered_matches(a, query@), CAP_WORKSPACE_SYMBOLS as nat)),
            encoding,
        ),
        Query::Malformed { .. } => false,
        Query::Unknown { .. } => false,
        _ => parsed_url(query_uri(query)->0) matches Ok(url) && answers_document(
            reply,
            a,
            texts,
            url,
            query,
            encoding,
            definition_links,
        ),
    }
}

/// A reply answers a query by texts that the session has over the disk.
pub open spec fn answered<D: DiskText>(
    reply: Reply,
    session: Session,
    disk: D,
    query: Query,
) -> bool {
    session.index matches IndexState::Ready(snapshot) && exists|texts: Texts| #[trigger]
        given(session, disk, texts) && answers_query(
            reply,
            snapshot@,
            texts,
            query,
            session.encoding,
            session.definition_links,
        )
}

proof fn lemma_session_gives<'a, D: DiskText>(sources: SessionText<'a, D>, texts: Texts)
    requires
        forall|path: Seq<Part>| #[trigger]
            texts.contains_key(path) ==> gives(sources, path, texts[path]),
    ensures
        given(*sources.session, *sources.disk, texts),
{
    assert forall|path: Seq<Part>| #[trigger] texts.contains_key(path) implies session_gives(
        *sources.session,
        *sources.disk,
        path,
        texts[path],
    ) by {
        assert(gives(sources, path, texts[path]));
        let (at, out) = choose|at: DocPath, out: Option<String>|
            at@ == path && optional_text(out) == texts[path] && #[trigger] call_ensures(
                <SessionText<'a, D>>::source,
                (&sources, &at),
                out,
            );
        assert(call_ensures(<SessionText<'a, D>>::source, (&sources, &at), out));
    }
}

fn parse_uri(value: &String) -> (r: Result<DocUri, ServerError>)
    ensures
        match parsed_url(value@) {
            Ok(url) => r matches Ok(uri) && uri@ == url,
            Err(reason) => r matches Err(error) && error@ == ErrorView::InvalidParams(
                bad_uri_text(value@, reason),
            ),
        },
{
    DocUri::try_from(value.as_str())
}

/// Run one document query; the index must describe the version the client sent.
fn query_document<D: DiskText>(session: &Session, disk: &D, url: &String, query: &Query) -> (r: Result<
    Reply,
    ServerError,
>)
    requires
        query_uri(*query) == Some(url@),
    ensures
        match r {
            Err(error) => document_refusal(*session, url@) == Some(error@),
            Ok(reply) => document_refusal(*session, url@) is None && answered(
                reply,
                *session,
                *disk,
                *query,
            ),
        },
{
    let uri: DocUri = match parse_uri(url) {
        Ok(uri) => uri,
        Err(error) => {
            return Err(error);
        },
    };
    let snapshot: &Arc<IndexSnapshot> = match session.ready_for(&uri) {
        Ok(snapshot) => snapshot,
        Err(error) => {
            return Err(error);
        },
    };
    let sources = SessionText { session, disk };
    let mut ctx = QueryCtx::new(&**snapshot, &sources, session.encoding);
    let ghost fresh = ctx;
    let reply: Reply = match query {
        Query::DocumentSymbol { .. } => Reply::DocumentSymbols(document_symbols(&mut ctx, &uri)),
        Query::Hover { position, .. } => Reply::Hover(hover_at(&mut ctx, &uri, *position)),
        Query::Definition { position, .. } => Reply::Definition(
            definition_at(&mut ctx, &uri, *position, session.definition_links),
        ),
        Query::References { position, include_declaration, .. } => Reply::References(
            references_at(&mut ctx, &uri, *position, *include_declaration),
        ),
        Query::Completion { position, .. } => Reply::Completion(
            completion_at(&mut ctx, &uri, *position),
        ),
        Query::Diagnostic { previous_result_id, .. } => {
            let result_id: String = diagnostic_result_id(snapshot, &uri);
            let unchanged: bool = match previous_result_id {
                Some(previous) => *previous == result_id,
                None => false,
            };
            if unchanged {
                Reply::DiagnosticsUnchanged { result_id }
            } else {
                Reply::DiagnosticsFull { result_id, items: diagnostics_for(&mut ctx, &uri) }
            }
        },
        Query::WorkspaceSymbol { .. } => Reply::Null,
        Query::Malformed { .. } => Reply::Null,
        Query::Unknown { .. } => Reply::Null,
    };
    proof {
        let texts = ctx.texts();
        assert(ctx.findings() == snapshot@);
        lemma_session_gives(sources, texts);
        assert(answers_query(
            reply,
            snapshot@,
            texts,
            *query,
            session.encoding,
            session.definition_links,
        ));
    }
    Ok(reply)
}

/// The answer to one request, or why there is none.
pub fn dispatch_request<D: DiskText>(session: &Session, disk: &D, query: &Query) -> (r: Result<
    Reply,
    ServerError,
>)
    ensures
        match r {
            Err(error) => query_refusal(*session, *query) == Some(error@),
            Ok(reply) => query_refusal(*session, *query) is None && answered(
                reply,
                *session,
                *disk,
                *query,
            ),
        },
{
    match query {
        Query::DocumentSymbol { uri } => query_document(session, disk, uri, query),
        Query::Hover { uri, .. } => query_document(session, disk, uri, query),
        Query::Definition { uri, .. } => query_document(session, disk, uri, query),
        Query::References { uri, .. } => query_document(session, disk, uri, query),
        Query::Completion { uri, .. } => query_document(session, disk, uri, query),
        Query::Diagnostic { uri, .. } => query_document(session, disk, uri, query),
        Query::WorkspaceSymbol { query: wanted } => {
            let snapshot: &Arc<IndexSnapshot> = match session.ready() {
                Ok(snapshot) => snapshot,
                Err(error) => {
                    return Err(error);
                },
            };
            let sources = SessionText { session, disk };
            let mut ctx = QueryCtx::new(&**snapshot, &sources, session.encoding);
            let entries = workspace_symbols(&mut ctx, wanted.as_str());
            proof {
                lemma_session_gives(sources, ctx.texts());
            }
            Ok(Reply::WorkspaceSymbols(entries))
        },
        Query::Malformed { detail } => Err(ServerError::InvalidParams(detail.clone())),
        Query::Unknown { method } => Err(ServerError::MethodNotFound(method.clone())),
    }
}

/// A message answers the request `id` with an error.
pub open spec fn refuses(message: Outgoing, id: IdView, error: ErrorView) -> bool {
    message matches Outgoing::Refuse(reply) && reply.id@ == id && reply.code == error.code()
        && reply.message@ == error.text()
}

/// What one request is answered with: an error if it was cancelled while in
/// flight, else the answer to the query.
pub fn handle_request<D: DiskText>(
    session: &Session,
    cancel: &mut Cancellation,
    disk: &D,
    id: RequestId,
    query: &Query,
) -> (r: Outgoing)
    ensures
        final(cancel)@ == old(cancel)@.remove(id@),
        forall|k: int|
            0 <= k < old(cancel).shares().len() ==> (#[trigger] final(cancel).shares()[k])
                == parted_share(old(cancel).shares()[k], id@),
        if old(cancel)@.contains_key(id@) && old(cancel)@[id@] {
            refuses(r, id@, ErrorView::Cancelled)
        } else {
            match query_refusal(*session, *query) {
                Some(error) => refuses(r, id@, error),
                None => r matches Outgoing::Answer { id: to, reply } && to@ == id@ && answered(
                    reply,
                    *session,
                    *disk,
                    *query,
                ),
            }
        },
{
    let registration = cancel.register(&id);
    let outcome: Result<Reply, ServerError> = if registration.is_cancelled(cancel) {
        Err(ServerError::Cancelled)
    } else {
        dispatch_request(session, disk, query)
    };
    cancel.release(registration);
    proof {
        assert(old(cancel)@.insert(id@, false).remove(id@) =~= old(cancel)@.remove(id@));
    }
    match outcome {
        Ok(reply) => Outgoing::Answer { id, reply },
        Err(error) => Outgoing::Refuse(error.to_response(id)),
    }
}

// ---------------------------------------------------------------------------
// Notifications

/// What a notification method tells.
#[derive(Clone, Copy, Debug, PartialEq, Eq, Structural)]
pub enum NotificationKind {
    DidOpen,
    DidChange,
    DidClose,
    DidSave,
    Cancel,
    WatchedFiles,
    Exit,
}

impl NotificationKind {
    /// The method of the protocol.
    pub open spec fn method(self) -> Seq<char> {
        match self {
            NotificationKind::DidOpen => "textDocument/didOpen"@,
            NotificationKind::DidChange => "textDocument/didChange"@,
            NotificationKind::DidClose => "textDocument/didClose"@,
            NotificationKind::DidSave => "textDocument/didSave"@,
            NotificationKind::Cancel => "$/cancelRequest"@,
            NotificationKind::WatchedFiles => "workspace/didChangeWatchedFiles"@,
            NotificationKind::Exit => "exit"@,
        }
    }
}

/// What a notification method tells, where the server knows it.
pub fn notification_kind(method: &str) -> (r: Option<NotificationKind>)
    ensures
        match r {
            Some(kind) => kind.method() == method@,
            None => forall|kind: NotificationKind| (#[trigger] kind.method()) != method@,
        },
{
    if same_text(method, "textDocument/didOpen") {
        Some(NotificationKind::DidOpen)
    } else if same_text(method, "textDocument/didChange") {
        Some(NotificationKind::DidChange)
    } else if same_text(method, "textDocument/didClose") {
        Some(NotificationKind::DidClose)
    } else if same_text(method, "textDocument/didSave") {
        Some(NotificationKind::DidSave)
    } else if same_text(method, "$/cancelRequest") {
        Some(NotificationKind::Cancel)
    } else if same_text(method, "workspace/didChangeWatchedFiles") {
        Some(NotificationKind::WatchedFiles)
    } else if same_text(method, "exit") {
        Some(NotificationKind::Exit)
    } else {
        None
    }
}

/// One notification, its parameters taken out of their wire form.
#[derive(Debug)]
pub enum Notification {
    DidOpen { uri: String, language_id: String, version: i32, text: String },
    DidChange { uri: String, version: i32, changes: Vec<ContentChange> },
    DidClose { uri: String },
    DidSave { uri: String, saved: Option<String> },
    Cancel { id: RequestId },
    /// Addresses of files that changed.
    WatchedFiles { uris: Vec<String> },
    /// Anything unactionable: an unknown method, or parameters that are not those
    /// of the method.
    Ignored,
}

/// Some language is that of a document.
pub open spec fn has_language(url: Seq<char>, language_id: Seq<char>) -> bool {
    exists|lang: LangId| #[trigger] is_language_of(url, language_id, lang)
}

/// The documents after an open: one of a known language is held at its version.
pub open spec fn opened(
    before: Map<Seq<char>, DocView>,
    after: Map<Seq<char>, DocView>,
    url: Seq<char>,
    version: DocVersion,
    language_id: Seq<char>,
    text: Seq<char>,
) -> bool {
    if has_language(url, language_id) {
        exists|lang: LangId| #[trigger]
            is_language_of(url, language_id, lang) && after == before.insert(
                url,
                DocView { version, lang, text, path: uri_parts(url) },
            )
    } else {
        after == before
    }
}

/// A change is taken: the document is open and the version is newer.
pub open spec fn takes_change(open: Map<Seq<char>, DocView>, url: Seq<char>, version: DocVersion) -> bool {
    open.contains_key(url) && version.0 > open[url].version.0
}

/// The documents after a change.
pub open spec fn after_change(
    open: Map<Seq<char>, DocView>,
    url: Seq<char>,
    version: DocVersion,
    changes: Seq<ContentChange>,
    encoding: Encoding,
) -> Map<Seq<char>, DocView> {
    if takes_change(open, url, version) {
        open.insert(
            url,
            DocView { version, text: edited(open[url].text, changes, encoding), ..open[url] },
        )
    } else {
        open
    }
}

/// The documents after a save that may carry the text.
pub open spec fn after_save(
    open: Map<Seq<char>, DocView>,
    url: Seq<char>,
    text: Option<Seq<char>>,
) -> Map<Seq<char>, DocView> {
    match text {
        Some(text) => if open.contains_key(url) {
            open.insert(url, DocView { text, ..open[url] })
        } else {
            open
        },
        None => open,
    }
}

/// What watched-file events leave behind.
pub struct WatchView {
    /// Names of the resolver configs warned of.
    pub warned: Seq<Seq<char>>,
    /// A source file changed.
    pub changed: bool,
    /// Warnings to show.
    pub warnings: Seq<Seq<char>>,
}

/// The warning for a changed resolver config.
pub open spec fn warning_text(path: Seq<char>) -> Seq<char> {
    path + " changed. Restart the server to apply the new resolver configuration."@
}

/// The path of an address, where it has one.
pub open spec fn event_path(uri: Seq<char>) -> Option<Seq<char>> {
    match parsed_url(uri) {
        Ok(url) => uri_path(url),
        Err(_) => None,
    }
}

/// The effect of one watched-file event: a source file under the root is a change,
/// a resolver config warns once for each name.
pub open spec fn after_event(root: Seq<Part>, state: WatchView, uri: Seq<char>) -> WatchView {
    match event_path(uri) {
        Some(spelling) => {
            let path = path_parts(spelling);
            if !is_under(path, root) {
                state
            } else if exists|lang: LangId| is_file_of(path, lang) {
                WatchView { changed: true, ..state }
            } else if names_resolver_config(path) && !state.warned.contains(name_of(path)->0) {
                WatchView {
                    warned: state.warned.push(name_of(path)->0),
                    warnings: state.warnings.push(warning_text(spelling)),
                    ..state
                }
            } else {
                state
            }
        },
        None => state,
    }
}

/// The effect of a list of watched-file events.
pub open spec fn after_events(root: Seq<Part>, state: WatchView, uris: Seq<String>) -> WatchView
    decreases uris.len(),
{
    if uris.len() == 0 {
        state
    } else {
        after_event(root, after_events(root, state, uris.drop_last()), uris.last()@)
    }
}

/// The texts of strings.
pub open spec fn name_views(names: Seq<String>) -> Seq<Seq<char>> {
    names.map_values(|name: String| name@)
}

/// A message shows a warning.
pub open spec fn shows_warning(message: Outgoing, warning: Seq<char>) -> bool {
    message matches Outgoing::ShowWarning { message } && message@ == warning
}

/// Messages show warnings, one for one.
pub open spec fn shows_warnings(messages: Seq<Outgoing>, warnings: Seq<Seq<char>>) -> bool {
    &&& messages.len() == warnings.len()
    &&& forall|i: int|
        0 <= i < messages.len() ==> shows_warning(#[trigger] messages[i], warnings[i])
}

/// What a notification does to a session, to the requests in flight, and to the
/// client.
pub open spec fn notified(
    notification: Notification,
    before: Session,
    after: Session,
    in_flight: Map<IdView, bool>,
    still: Map<IdView, bool>,
    messages: Seq<Outgoing>,
) -> bool {
    match notification {
        Notification::DidOpen { uri, language_id, version, text } => {
            &&& still == in_flight
            &&& messages.len() == 0
            &&& match parsed_url(uri@) {
                Err(_) => after == before,
                Ok(url) => {
                    &&& after == (Session {
                        buffers: after.buffers,
                        dirty: before.dirty || has_language(url, language_id@) && belongs(
                            url,
                            before.root@,
                        ),
                        ..before
                    })
                    &&& opened(
                        before.buffers@,
                        after.buffers@,
                        url,
                        DocVersion(version),
                        language_id@,
                        text@,
                    )
                },
            }
        },
        Notification::DidChange { uri, version, changes } => {
            &&& still == in_flight
            &&& messages.len() == 0
            &&& match parsed_url(uri@) {
                Err(_) => after == before,
                Ok(url) => {
                    &&& after == (Session {
                        buffers: after.buffers,
                        dirty: before.dirty || takes_change(
                            before.buffers@,
                            url,
                            DocVersion(version),
                        ) && belongs(url, before.root@),
                        ..before
                    })
                    &&& after.buffers@ == after_change(
                        before.buffers@,
                        url,
                        DocVersion(version),
                        changes@,
                        before.encoding,
                    )
                },
            }
        },
        Notification::DidClose { uri } => {
            &&& still == in_flight
            &&& messages.len() == 0
            &&& match parsed_url(uri@) {
                Err(_) => after == before,
                Ok(url) => {
                    &&& after == (Session {
                        buffers: after.buffers,
                        dirty: before.dirty || before.buffers@.contains_key(url) && belongs(
                            url,
                            before.root@,
                        ),
                        ..before
                    })
                    &&& after.buffers@ == before.buffers@.remove(url)
                },
            }
        },
        Notification::DidSave { uri, saved } => {
            &&& still == in_flight
            &&& messages.len() == 0
            &&& match parsed_url(uri@) {
                Err(_) => after == before,
                Ok(url) => {
                    &&& after == (Session {
                        buffers: after.buffers,
                        dirty: before.dirty || belongs(url, before.root@),
                        ..before
                    })
                    &&& after.buffers@ == after_save(
                        before.buffers@,
                        url,
                        optional_text(saved),
                    )
                },
            }
        },
        Notification::Cancel { id } => {
            &&& still == after_cancel(in_flight, id@)
            &&& messages.len() == 0
            &&& after == before
        },
        Notification::WatchedFiles { uris } => {
            let state = after_events(
                before.root@,
                WatchView {
                    warned: name_views(before.warned_resolvers@),
                    changed: false,
                    warnings: Seq::empty(),
                },
                uris@,
            );
            &&& still == in_flight
            &&& after == (Session {
                warned_resolvers: after.warned_resolvers,
                dirty: before.dirty || state.changed,
                ..before
            })
            &&& name_views(after.warned_resolvers@) == state.warned
            &&& shows_warnings(messages, state.warnings)
        },
        Notification::Ignored => {
            &&& still == in_flight
            &&& messages.len() == 0
            &&& after == before
        },
    }
}

/// Take note of a resolver config; says whether it is new. Keyed by name, so
/// directories share one warning.
fn resolver_unwarned(warned: &mut Vec<String>, name: &str) -> (r: bool)
    ensures
        r == !name_views(old(warned)@).contains(name@),
        name_views(final(warned)@) == (if r {
            name_views(old(warned)@).push(name@)
        } else {
            name_views(old(warned)@)
        }),
{
    let mut i: usize = 0;
    while i < warned.len()
        invariant
            warned@ == old(warned)@,
            i <= warned@.len(),
            forall|k: int| 0 <= k < i ==> (#[trigger] warned@[k])@ != name@,
        decreases warned.len() - i,
    {
        if same_text(warned[i].as_str(), name) {
            assert(name_views(warned@)[i as int] == name@);
            return false;
        }
        i += 1;
    }
    proof {
        if name_views(warned@).contains(name@) {
            let k = choose|k: int| 0 <= k < warned@.len() && name_views(warned@)[k] == name@;
            assert(warned@[k]@ == name@);
        }
    }
    let ghost before = warned@;
    let owned: String = name.to_owned();
    warned.push(owned);
    assert(name_views(warned@) =~= name_views(before).push(name@));
    true
}

/// Reindex on source changes. Warn once per resolver config change.
fn handle_watched_files(session: &mut Session, uris: &Vec<String>) -> (r: Vec<Outgoing>)
    ensures
        ({
            let state = after_events(
                old(session).root@,
                WatchView {
                    warned: name_views(old(session).warned_resolvers@),
                    changed: false,
                    warnings: Seq::empty(),
                },
                uris@,
            );
            &&& *final(session) == (Session {
                warned_resolvers: final(session).warned_resolvers,
                dirty: old(session).dirty || state.changed,
                ..*old(session)
            })
            &&& name_views(final(session).warned_resolvers@) == state.warned
            &&& shows_warnings(r@, state.warnings)
        }),
{
    let ghost start = WatchView {
        warned: name_views(session.warned_resolvers@),
        changed: false,
        warnings: Seq::empty(),
    };
    let ghost root = session.root@;
    let mut messages: Vec<Outgoing> = Vec::new();
    let mut source_changed: bool = false;
    let mut i: usize = 0;
    assert(uris@.take(0) =~= Seq::empty());
    while i < uris.len()
        invariant
            i <= uris@.len(),
            root == old(session).root@,
            *session == (Session {
                warned_resolvers: session.warned_resolvers,
                ..*old(session)
            }),
            ({
                let state = after_events(root, start, uris@.take(i as int));
                &&& name_views(session.warned_resolvers@) == state.warned
                &&& source_changed == state.changed
                &&& shows_warnings(messages@, state.warnings)
            }),
        decreases uris.len() - i,
    {
        let ghost state = after_events(root, start, uris@.take(i as int));
        assert(uris@.take(i as int + 1).drop_last() =~= uris@.take(i as int));
        assert(uris@.take(i as int + 1).last() == uris@[i as int]);
        let value = &uris[i];
        i += 1;
        let ghost next = after_event(root, state, value@);
        assert(after_events(root, start, uris@.take(i as int)) == next);
        let uri: DocUri = match parse_uri(value) {
            Ok(uri) => uri,
            Err(_) => {
                continue;
            },
        };
        let path: &DocPath = match uri.to_path() {
            Some(path) => path,
            None => {
                continue;
            },
        };
        if !session.root.contains(path) {
            continue;
        }
        if detect_language(path).is_some() {
            // The worker compares fingerprints; the event only marks the workspace dirty.
            source_changed = true;
        } else if is_resolver_config(path) {
            if let Some(name) = path.file_name() {
                let ghost held = messages@;
                if resolver_unwarned(&mut session.warned_resolvers, name) {
                    let message: String = joined(
                        path.as_str(),
                        " changed. Restart the server to apply the new resolver configuration.",
                    );
                    messages.push(Outgoing::ShowWarning { message });
                    assert forall|k: int| 0 <= k < messages@.len() implies shows_warning(
                        #[trigger] messages@[k],
                        next.warnings[k],
                    ) by {
                        if k < held.len() {
                            assert(messages@[k] == held[k]);
                        }
                    }
                }
            }
        }
    }
    assert(uris@.take(i as int) =~= uris@);
    if source_changed {
        session.mark_dirty();
    }
    messages
}

/// Handle one notification: no response; anything unactionable is dropped.
pub fn handle_notification(
    session: &mut Session,
    cancel: &mut Cancellation,
    notification: &Notification,
) -> (r: Vec<Outgoing>)
    ensures
        notified(
            *notification,
            *old(session),
            *final(session),
            old(cancel)@,
            final(cancel)@,
            r@,
        ),
{
    match notification {
        Notification::DidOpen { uri, language_id, version, text } => {
            if let Ok(uri) = parse_uri(uri) {
                let outcome: OpenOutcome = session.buffers.open(
                    &uri,
                    DocVersion(*version),
                    language_id.as_str(),
                    text.clone(),
                );
                if outcome == OpenOutcome::Indexed {
                    // Untitled and out-of-root buffers never enter the index, so no pass.
                    if session.indexable(&uri) {
                        session.mark_dirty();
                    }
                }
            }
            Vec::new()
        },
        Notification::DidChange { uri, version, changes } => {
            if let Ok(uri) = parse_uri(uri) {
                let taken: bool = session.buffers.change(
                    &uri,
                    DocVersion(*version),
                    changes,
                    session.encoding,
                );
                if taken && session.indexable(&uri) {
                    session.mark_dirty();
                }
            }
            Vec::new()
        },
        Notification::DidClose { uri } => {
            if let Ok(uri) = parse_uri(uri) {
                if session.buffers.close(&uri) && session.indexable(&uri) {
                    session.mark_dirty();
                }
            }
            Vec::new()
        },
        Notification::DidSave { uri, saved } => {
            if let Ok(uri) = parse_uri(uri) {
                match saved {
                    Some(text) => session.on_save(&uri, Some(text.as_str())),
                    None => session.on_save(&uri, None),
                }
            }
            Vec::new()
        },
        Notification::Cancel { id } => {
            cancel.cancel(id);
            Vec::new()
        },
        Notification::WatchedFiles { uris } => handle_watched_files(session, uris),
        Notification::Ignored => Vec::new(),
    }
}

// ---------------------------------------------------------------------------
// Laws

/// The version that a snapshot holds of a document.
pub open spec fn reported_version(a: Analysis, url: Seq<char>) -> Option<DocVersion> {
    match uri_parts(url) {
        Some(path) => version_of(a.versions@, path),
        None => None,
    }
}

proof fn lemma_split_at_colon(a: Seq<char>, x: Seq<char>, b: Seq<char>, y: Seq<char>)
    requires
        !a.contains(':'),
        !b.contains(':'),
        x.len() > 0 ==> x[0] == ':',
        y.len() > 0 ==> y[0] == ':',
        a + x == b + y,
    ensures
        a == b,
        x == y,
{
    let s = a + x;
    let t = b + y;
    if a.len() < b.len() {
        assert(t[a.len() as int] == b[a.len() as int]);
        assert(b.contains(b[a.len() as int]));
        assert(x.len() > 0);
        assert(s[a.len() as int] == x[0]);
    } else if b.len() < a.len() {
        assert(s[b.len() as int] == a[b.len() as int]);
        assert(a.contains(a[b.len() as int]));
        assert(y.len() > 0);
        assert(t[b.len() as int] == y[0]);
    }
    assert(a =~= s.take(a.len() as int));
    assert(b =~= t.take(b.len() as int));
    assert(x =~= s.skip(a.len() as int));
    assert(y =~= t.skip(b.len() as int));
}

/// A report id tells the generation and the version: reports of different passes or
/// of different versions never share one, so an echoed id means that nothing
/// changed.
pub proof fn report_ids_tell_reports_apart(a: Analysis, b: Analysis, url: Seq<char>)
    requires
        report_id(a, url) == report_id(b, url),
    ensures
        a.generation == b.generation,
        reported_version(a, url) == reported_version(b, url),
{
    reveal_strlit("meta-ast:");
    reveal_strlit(":");
    let head = "meta-ast:"@;
    let (m, n) = (decimal_text(a.generation as nat), decimal_text(b.generation as nat));
    let x = match reported_version(a, url) {
        Some(version) => ":"@ + signed_text(version.0 as int),
        None => Seq::empty(),
    };
    let y = match reported_version(b, url) {
        Some(version) => ":"@ + signed_text(version.0 as int),
        None => Seq::empty(),
    };
    lemma_decimal_digits(a.generation as nat);
    lemma_decimal_digits(b.generation as nat);
    assert(report_id(a, url) =~= head + (m + x));
    assert(report_id(b, url) =~= head + (n + y));
    assert((head + (m + x)).skip(head.len() as int) =~= m + x);
    assert((head + (n + y)).skip(head.len() as int) =~= n + y);
    assert(!m.contains(':')) by {
        if m.contains(':') {
            let i = choose|i: int| 0 <= i < m.len() && m[i] == ':';
            assert('0' <= m[i] <= '9');
        }
    }
    assert(!n.contains(':')) by {
        if n.contains(':') {
            let i = choose|i: int| 0 <= i < n.len() && n[i] == ':';
            assert('0' <= n[i] <= '9');
        }
    }
    lemma_split_at_colon(m, x, n, y);
    lemma_decimal_injective(a.generation as nat, b.generation as nat);
    match (reported_version(a, url), reported_version(b, url)) {
        (Some(v), Some(w)) => {
            assert(x.skip(1) =~= signed_text(v.0 as int));
            assert(y.skip(1) =~= signed_text(w.0 as int));
            lemma_signed_injective(v.0 as int, w.0 as int);
        },
        (Some(_), None) => {
            assert(x.len() > 0);
        },
        (None, Some(_)) => {
            assert(y.len() > 0);
        },
        (None, None) => {},
    }
}

/// Versions only grow while a document is open, and a change that is not taken
/// leaves every document as it was.
pub proof fn changes_only_grow_versions(
    open: Map<Seq<char>, DocView>,
    url: Seq<char>,
    version: DocVersion,
    changes: Seq<ContentChange>,
    encoding: Encoding,
    other: Seq<char>,
)
    requires
        open.contains_key(other),
    ensures
        ({
            let after = after_change(open, url, version, changes, encoding);
            &&& after.contains_key(other)
            &&& open[other].version.0 <= after[other].version.0
            &&& other != url ==> after[other] == open[other]
            &&& takes_change(open, url, version) ==> after[url].version == version
                && open[url].version.0 < version.0
            &&& !takes_change(open, url, version) ==> after == open
        }),
{
}

/// Warnings come once for each name: after one, the same name warns no more,
/// wherever the file lies.
pub proof fn a_resolver_config_warns_once(root: Seq<Part>, state: WatchView, first: Seq<char>, second: Seq<char>)
    requires
        event_path(first) is Some,
        event_path(second) is Some,
        name_of(path_parts(event_path(first)->0)) is Some,
        name_of(path_parts(event_path(first)->0)) == name_of(path_parts(event_path(second)->0)),
        after_event(root, state, first).warnings.len() > state.warnings.len(),
    ensures
        after_event(root, after_event(root, state, first), second).warnings == after_event(
            root,
            state,
            first,
        ).warnings,
{
    let name = name_of(path_parts(event_path(first)->0))->0;
    let after = after_event(root, state, first);
    assert(after.warned == state.warned.push(name));
    assert(after.warned[state.warned.len() as int] == name);
    assert(after.warned.contains(name));
}

/// Whatever is watched, the names warned of are distinct, and no name is forgotten.
pub proof fn warned_names_stay_distinct(root: Seq<Part>, state: WatchView, uri: Seq<char>)
    requires
        state.warned.no_duplicates(),
    ensures
        after_event(root, state, uri).warned.no_duplicates(),
        forall|name: Seq<char>|
            state.warned.contains(name) ==> after_event(root, state, uri).warned.contains(name),
{
    let after = after_event(root, state, uri).warned;
    assert forall|name: Seq<char>| state.warned.contains(name) implies after.contains(name) by {
        let i = choose|i: int| 0 <= i < state.warned.len() && state.warned[i] == name;
        assert(after[i] == name);
    }
}

} // verus!
