use std::collections::HashMap;
use std::sync::Arc;

use meta_call_lsp::buffers::{BufferStore, ContentChange, OpenOutcome};
use meta_call_lsp::cancel::Cancellation;
use meta_call_lsp::convert::path_to_uri;
use meta_call_lsp::error::{ReindexError, ServerError};
use meta_call_lsp::index::{Analysis, ContentHash, IndexSnapshot, PathVersion, SourceText};
use meta_call_lsp::model::{
    Diagnostic, FileExtraction, FileNode, FileScope, Fingerprint, LangId, LineColumn, Severity,
    SourceRange, Symbol, SymbolKind,
};
use meta_call_lsp::path::DocPath;
use meta_call_lsp::position::Encoding;
use meta_call_lsp::protocol::{
    ClientCapabilities, InitializeParams, Outgoing, Position, Reply, RequestId, SyncKind,
};
use meta_call_lsp::reindex::{latest_request, ReindexReq, ReindexResp};
use meta_call_lsp::server::capabilities::{
    capabilities, is_resolver_config, plan_initialize, root_from_params,
    supports_pull_diagnostics, supports_watched_files, watched_globs,
};
use meta_call_lsp::server::dispatch::{
    diagnostic_result_id, dispatch_request, handle_notification, handle_request,
    notification_kind, request_kind, Notification, NotificationKind, Query, RequestKind,
};
use meta_call_lsp::server::ids::{
    reindex_progress_ack, reindex_progress_token, watched_files_request_id,
};
use meta_call_lsp::server::progress::{Progress, ProgressTracker};
use meta_call_lsp::server::scheduler::{Scheduler, SendOutcome};
use meta_call_lsp::server::session::{DiskText, IndexState, Session, SessionText};
use meta_call_lsp::server::{
    exit_status, handle_client_message, reject_initialize, ClientMessage, LoopControl,
};
use meta_call_lsp::types::{DocUri, DocVersion, RootDir};

fn path(text: &str) -> DocPath {
    DocPath::new(text.to_string())
}

fn doc_uri(value: &str) -> DocUri {
    DocUri::try_from(value).expect("document URI")
}

fn uri_text(text: &str) -> String {
    path_to_uri(&path(text)).expect("uri")
}

fn root() -> RootDir {
    RootDir::try_from(&path("/w"), true).expect("root")
}

/// Files as a disk would hold them.
struct Disk {
    files: HashMap<String, Vec<u8>>,
}

impl DiskText for Disk {
    fn read(&self, path: &DocPath) -> Option<Vec<u8>> {
        self.files.get(path.as_str()).cloned()
    }
}

fn disk(files: &[(&str, &str)]) -> Disk {
    Disk {
        files: files
            .iter()
            .map(|(name, text)| (name.to_string(), text.as_bytes().to_vec()))
            .collect(),
    }
}

fn range(start: usize, end: usize) -> SourceRange {
    SourceRange {
        byte_start: start,
        byte_end: end,
        start: LineColumn {
            line: 0,
            column: start,
        },
        end: LineColumn {
            line: 0,
            column: end,
        },
    }
}

const GREET: &str = "def greet(): pass\n";

fn analysis(versions: &[(&str, i32)]) -> Analysis {
    Analysis {
        extractions: vec![FileExtraction {
            path: path("/w/a.py"),
            symbols: vec![Symbol {
                id: 1,
                name: "greet".to_string(),
                kind: SymbolKind::Function,
                language: LangId::Python,
                file_path: path("/w/a.py"),
                source_range: range(0, 17),
                name_range: Some(range(4, 9)),
                signature: None,
                docstring: None,
            }],
            references: vec![],
            call_sites: vec![],
        }],
        references: vec![],
        client_calls: vec![],
        edges: vec![],
        files: vec![FileNode {
            id: 1,
            path: path("/w/a.py"),
        }],
        scope: vec![FileScope {
            file_id: 1,
            names: vec![],
        }],
        diagnostics: vec![Diagnostic {
            path: path("/w/a.py"),
            severity: Severity::Error,
            message: "broken".to_string(),
            source_range: None,
        }],
        content_hashes: vec![ContentHash {
            path: path("/w/a.py"),
            hash: Fingerprint {
                bytes: *meta_ast::Fingerprint::of(GREET.as_bytes()).as_bytes(),
            },
        }],
        versions: versions
            .iter()
            .map(|(name, version)| PathVersion {
                path: path(name),
                version: DocVersion::from(*version),
            })
            .collect(),
        generation: 4,
    }
}

fn session_at(versions: &[(&str, i32)], progress: bool) -> Session {
    Session::new(
        root(),
        Encoding::Utf16,
        Arc::new(IndexSnapshot::new(analysis(versions))),
        progress,
    )
}

fn session() -> Session {
    session_at(&[], false)
}

fn did_open(uri: &str, language_id: &str) -> Notification {
    Notification::DidOpen {
        uri: uri.to_string(),
        language_id: language_id.to_string(),
        version: 1,
        text: "x = 1\n".to_string(),
    }
}

fn did_close(uri: &str) -> Notification {
    Notification::DidClose {
        uri: uri.to_string(),
    }
}

fn did_save(uri: &str, text: Option<&str>) -> Notification {
    Notification::DidSave {
        uri: uri.to_string(),
        saved: text.map(|text| text.to_string()),
    }
}

fn watched(uri: &str) -> Notification {
    Notification::WatchedFiles {
        uris: vec![uri.to_string()],
    }
}

fn notify(session: &mut Session, notification: Notification) -> Vec<Outgoing> {
    let mut cancel = Cancellation::default();
    handle_notification(session, &mut cancel, &notification)
}

fn error_of(message: &Outgoing) -> (i32, &str) {
    match message {
        Outgoing::Refuse(reply) => (reply.code, reply.message.as_str()),
        other => panic!("expected an error response, got {other:?}"),
    }
}

fn warning_of(message: &Outgoing) -> &str {
    match message {
        Outgoing::ShowWarning { message } => message,
        other => panic!("expected a warning, got {other:?}"),
    }
}

// ---------------------------------------------------------------------------
// Capabilities

#[test]
fn capabilities_watched_globs_cover_supported_extensions() {
    let globs = watched_globs();
    assert!(globs.iter().any(|glob| glob == "**/*.py"));
    assert!(globs.iter().any(|glob| glob == "**/*.ts"));
}

#[test]
fn server_watched_globs_cover_supported_extensions() {
    let globs = watched_globs();
    assert!(globs.iter().any(|glob| glob == "**/*.py"));
    assert!(globs.iter().any(|glob| glob == "**/*.ts"));
}

#[test]
fn capabilities_watched_globs_cover_resolver_configs() {
    let globs = watched_globs();
    assert!(globs.iter().any(|glob| glob == "**/tsconfig.json"));
    assert!(globs.iter().any(|glob| glob == "**/go.mod"));
}

#[test]
fn server_watched_globs_cover_resolver_configs() {
    let globs = watched_globs();
    assert!(globs.iter().any(|glob| glob == "**/tsconfig.json"));
    assert!(globs.iter().any(|glob| glob == "**/go.mod"));
}

#[test]
fn watched_globs_are_sorted_and_distinct() {
    let globs = watched_globs();
    let mut sorted = globs.clone();
    sorted.sort();
    sorted.dedup();
    assert_eq!(globs, sorted);
    let count: usize = meta_ast::LangId::all()
        .into_iter()
        .map(|lang| meta_ast::language::spec_for(lang).extensions.len())
        .sum();
    assert_eq!(globs.len(), count + 5);
}

fn params(folders: Option<Vec<&str>>) -> InitializeParams {
    InitializeParams {
        workspace_folders: folders
            .map(|list| list.into_iter().map(|uri| uri.to_string()).collect()),
        capabilities: ClientCapabilities {
            pull_diagnostics: true,
            ..ClientCapabilities::default()
        },
    }
}

#[test]
fn a_missing_workspace_folder_is_an_error() {
    let error = root_from_params(&params(None)).unwrap_err();
    assert!(error.contains("workspaceFolders"));
}

#[test]
fn the_first_usable_workspace_folder_wins() {
    let first = root_from_params(&params(Some(vec!["file:///first", "file:///second"]))).unwrap();
    assert_eq!(first.as_str(), "/first");
    let second =
        root_from_params(&params(Some(vec!["untitled:x", "file:///second"]))).unwrap();
    assert_eq!(second.as_str(), "/second");
}

#[test]
fn a_non_file_workspace_folder_is_rejected() {
    let error = root_from_params(&params(Some(vec!["untitled:Untitled-1"]))).unwrap_err();
    assert_eq!(error, "no workspace folder resolves to a file path");
    assert!(root_from_params(&params(Some(vec![]))).is_err());
}

#[test]
fn a_nonexistent_workspace_folder_is_rejected() {
    let candidate = root_from_params(&params(Some(vec!["file:///gone"]))).unwrap();
    let root = RootDir::try_from(&candidate, false);
    let error = plan_initialize(&params(Some(vec!["file:///gone"])), root).unwrap_err();
    assert!(error.contains("not an existing directory"));
}

#[test]
fn a_workspace_folder_that_is_a_file_is_rejected() {
    let file = params(Some(vec!["file:///w/a.py"]));
    let candidate = root_from_params(&file).unwrap();
    assert_eq!(candidate.as_str(), "/w/a.py");
    let error = plan_initialize(&file, RootDir::try_from(&candidate, false)).unwrap_err();
    assert!(
        error.contains("not an existing directory"),
        "a file is not a workspace root, and the parent is never guessed: {error}"
    );
}

#[test]
fn pull_diagnostics_require_the_client_capability() {
    let mut caps = ClientCapabilities::default();
    assert!(!supports_pull_diagnostics(&caps));
    caps.pull_diagnostics = true;
    assert!(supports_pull_diagnostics(&caps));
    assert!(!supports_watched_files(&caps));
}

#[test]
fn capabilities_advertise_pull_diagnostics() {
    let caps = capabilities(Encoding::Utf16);
    assert_eq!(caps.diagnostic_identifier, "meta-ast");
    assert!(!caps.inter_file_dependencies);
    assert!(!caps.workspace_diagnostics);
    assert_eq!(caps.change, SyncKind::Incremental);
    assert_eq!(caps.position_encoding, "utf-16");
    assert_eq!(caps.completion_triggers, [".", ":", "/"]);
    assert!(caps.hover && caps.definition && caps.references && caps.open_close);
}

#[test]
fn initialize_without_pull_diagnostics_is_rejected() {
    let mut params = params(Some(vec!["file:///w"]));
    params.capabilities.pull_diagnostics = false;
    let error = plan_initialize(&params, Ok(root())).unwrap_err();
    assert_eq!(
        error,
        "client must support textDocument/diagnostic; this server is pull only"
    );
    let reply = reject_initialize(RequestId::Number(1), &error);
    assert_eq!(reply.code, -32602);
    assert_eq!(reply.message, error);
}

#[test]
fn initialize_without_workspace_folders_is_rejected() {
    let params = params(None);
    let Err(reason) = root_from_params(&params) else {
        panic!("no folder is no root");
    };
    let error = plan_initialize(&params, Err(reason)).unwrap_err();
    assert!(error.contains("workspaceFolders"));
}

#[test]
fn an_accepted_client_gets_what_it_asked_for() {
    let mut params = params(Some(vec!["file:///w"]));
    params.capabilities.position_encodings = Some(vec!["utf-8".to_string()]);
    params.capabilities.work_done_progress = true;
    params.capabilities.definition_link_support = true;
    params.capabilities.watched_files_registration = true;
    let plan = plan_initialize(&params, Ok(root())).unwrap();
    assert_eq!(plan.encoding, Encoding::Utf8);
    assert_eq!(plan.capabilities.position_encoding, "utf-8");
    assert!(plan.progress_supported);
    assert!(plan.definition_links);
    assert_eq!(plan.watch, Some(watched_globs()));
    params.capabilities.watched_files_registration = false;
    assert_eq!(plan_initialize(&params, Ok(root())).unwrap().watch, None);
}

#[test]
fn resolver_configs_go_by_file_name() {
    assert!(is_resolver_config(&path("/w/sub/tsconfig.json")));
    assert!(is_resolver_config(&path("package.json")));
    assert!(!is_resolver_config(&path("/w/tsconfig.json/x")));
    assert!(!is_resolver_config(&path("/w/my-tsconfig.json")));
    assert!(!is_resolver_config(&path("/")));
}

// ---------------------------------------------------------------------------
// Notifications

#[test]
fn dispatch_did_open_unknown_language_skips_reindex() {
    let mut session = session();
    notify(&mut session, did_open("file:///notes.txt", "plaintext"));
    assert!(session.buffers.get(&doc_uri("file:///notes.txt")).is_none());
    assert!(session.flush_batch().is_none(), "no reindex expected");
}

#[test]
fn server_did_open_unknown_language_skips_reindex() {
    let mut session = session();
    notify(&mut session, did_open("file:///w/notes.txt", "plaintext"));
    assert!(session
        .buffers
        .get(&doc_uri("file:///w/notes.txt"))
        .is_none());
    assert!(session.flush_batch().is_none(), "no reindex expected");
}

#[test]
fn dispatch_did_open_supported_language_requests_reindex() {
    let mut session = session();
    let uri = uri_text("/w/a.py");
    notify(&mut session, did_open(&uri, "python"));
    assert!(session.buffers.get(&doc_uri(&uri)).is_some());
    assert!(session.flush_batch().is_some(), "reindex expected");
}

#[test]
fn server_did_open_supported_language_requests_reindex() {
    let mut session = session();
    let uri = uri_text("/w/a.py");
    notify(&mut session, did_open(&uri, "python"));
    let req = session.flush_batch().expect("reindex expected");
    assert_eq!(req.seq, 1);
    assert_eq!(req.overlays[0].uri, uri);
    assert_eq!(req.root.as_path().as_str(), "/w");
}

#[test]
fn a_document_outside_the_root_is_held_but_not_indexed() {
    let mut session = session();
    for uri in ["file:///elsewhere/a.py", "untitled:draft"] {
        notify(&mut session, did_open(uri, "python"));
        assert!(session.buffers.get(&doc_uri(uri)).is_some());
        assert!(session.flush_batch().is_none());
    }
}

#[test]
fn did_close_drops_only_tracked_documents() {
    let mut session = session();
    notify(&mut session, did_open("file:///a.py", "python"));
    notify(&mut session, did_close("file:///a.py"));
    assert!(session.buffers.get(&doc_uri("file:///a.py")).is_none());

    notify(&mut session, did_close("file:///notes.txt"));
    assert!(session.buffers.get(&doc_uri("file:///notes.txt")).is_none());
    assert!(session.flush_batch().is_none());
}

#[test]
fn watched_source_event_requests_a_pass() {
    let mut session = session();
    notify(&mut session, watched(&uri_text("/w/a.py")));
    assert!(
        session.flush_batch().is_some(),
        "a watched source event must request a pass"
    );
}

#[test]
fn watched_deletion_of_indexed_file_reindexes() {
    // The notification carries the address alone: a deleted file is one that no
    // disk text can be had for.
    let mut session = session();
    notify(&mut session, watched(&uri_text("/w/a.py")));
    assert!(
        session.flush_batch().is_some(),
        "a deletion must trigger a reindex"
    );
}

#[test]
fn watched_source_change_requests_reindex() {
    let mut session = session();
    notify(&mut session, watched(&uri_text("/w/new.ts")));
    assert!(session.flush_batch().is_some());
}

#[test]
fn dispatch_watched_change_outside_root_is_ignored() {
    let mut session = session();
    notify(&mut session, watched("file:///elsewhere/a.py"));
    assert!(session.flush_batch().is_none(), "no reindex expected");
}

#[test]
fn server_watched_change_outside_root_is_ignored() {
    let mut session = session();
    notify(&mut session, watched("file:///elsewhere/a.py"));
    assert!(session.flush_batch().is_none(), "no reindex expected");
}

#[test]
fn dispatch_watched_change_for_unsupported_extension_is_ignored() {
    let mut session = session();
    let messages = notify(&mut session, watched(&uri_text("/w/README.md")));
    assert!(messages.is_empty());
    assert!(session.flush_batch().is_none(), "no reindex expected");
}

#[test]
fn server_watched_change_for_unsupported_extension_is_ignored() {
    let mut session = session();
    notify(&mut session, watched(&uri_text("/w/README.md")));
    assert!(session.flush_batch().is_none(), "no reindex expected");
}

#[test]
fn dispatch_watched_resolver_change_warns_once() {
    let mut session = session();
    let messages = notify(&mut session, watched(&uri_text("/w/tsconfig.json")));
    assert!(
        session.flush_batch().is_none(),
        "resolver change must not reindex"
    );
    assert_eq!(messages.len(), 1);
    assert_eq!(
        warning_of(&messages[0]),
        "/w/tsconfig.json changed. Restart the server to apply the new resolver configuration."
    );

    assert!(
        notify(&mut session, watched(&uri_text("/w/tsconfig.json"))).is_empty(),
        "second change must not warn again"
    );
    assert!(
        notify(&mut session, watched(&uri_text("/w/sub/tsconfig.json"))).is_empty(),
        "a second config path of the same kind must not warn again"
    );
    let messages = notify(&mut session, watched(&uri_text("/w/go.mod")));
    assert!(warning_of(&messages[0]).contains("go.mod"));
}

#[test]
fn server_watched_resolver_change_warns_once() {
    let mut session = session();
    let event = Notification::WatchedFiles {
        uris: vec![
            uri_text("/w/tsconfig.json"),
            "not a uri".to_string(),
            uri_text("/w/tsconfig.json"),
            uri_text("/w/a.py"),
        ],
    };
    let messages = notify(&mut session, event);
    assert_eq!(messages.len(), 1);
    assert!(warning_of(&messages[0]).contains("tsconfig.json"));
    assert!(session.flush_batch().is_some());
}

#[test]
fn did_save_with_changed_text_reindexes_now() {
    let mut session = session();
    let uri = uri_text("/w/a.py");
    session.buffers.open(
        &doc_uri(&uri),
        DocVersion::from(1),
        "python",
        "def one(): pass\n".to_string(),
    );

    notify(&mut session, did_save(&uri, Some("def two(): pass\n")));

    let req = session
        .flush_batch()
        .expect("save marks the workspace dirty and the batch sends");
    assert_eq!(req.overlays.len(), 1);
    assert_eq!(req.overlays[0].text, "def two(): pass\n");
}

#[test]
fn did_save_carries_the_newest_buffer_into_the_batch() {
    let mut session = session();
    let uri = uri_text("/w/a.py");
    session.buffers.open(
        &doc_uri(&uri),
        DocVersion::from(1),
        "python",
        "def one(): pass\n".to_string(),
    );
    assert!(session.buffers.change(
        &doc_uri(&uri),
        DocVersion::from(2),
        &vec![ContentChange {
            range: None,
            text: "def two(): pass\n".to_string()
        }],
        session.encoding,
    ));
    session.mark_dirty();

    notify(&mut session, did_save(&uri, Some("def two(): pass\n")));

    let req = session.flush_batch().expect("the batch sends one request");
    assert_eq!(req.overlays[0].text, "def two(): pass\n");
}

#[test]
fn a_save_without_text_only_marks_the_workspace() {
    let mut session = session();
    notify(&mut session, did_save(&uri_text("/w/unopened.py"), None));
    assert!(session.dirty);
    let mut other = session_at(&[], false);
    notify(&mut other, did_save("file:///elsewhere/x.py", Some("x")));
    assert!(!other.dirty);
}

#[test]
fn a_change_needs_an_open_document_and_a_newer_version() {
    let mut session = session();
    let uri = uri_text("/w/a.py");
    notify(&mut session, did_open(&uri, "python"));
    session.dirty = false;
    let change = |version: i32| Notification::DidChange {
        uri: uri.clone(),
        version,
        changes: vec![ContentChange {
            range: None,
            text: format!("v{version}"),
        }],
    };
    notify(&mut session, change(1));
    assert!(!session.dirty, "a stale change is dropped");
    notify(&mut session, change(2));
    assert!(session.dirty);
    assert_eq!(session.buffers.get(&doc_uri(&uri)).unwrap().text, "v2");
}

#[test]
fn unactionable_notifications_change_nothing() {
    let mut session = session();
    for notification in [
        Notification::Ignored,
        did_open("not a uri", "python"),
        did_close("not a uri"),
        did_save("not a uri", Some("x")),
        Notification::DidChange {
            uri: "not a uri".to_string(),
            version: 9,
            changes: vec![],
        },
    ] {
        assert!(notify(&mut session, notification).is_empty());
        assert!(!session.dirty);
        assert!(session.buffers.iter().is_empty());
    }
}

#[test]
fn methods_name_their_kinds() {
    let requests = [
        ("textDocument/documentSymbol", RequestKind::DocumentSymbol),
        ("textDocument/hover", RequestKind::Hover),
        ("textDocument/definition", RequestKind::Definition),
        ("textDocument/references", RequestKind::References),
        ("workspace/symbol", RequestKind::WorkspaceSymbol),
        ("textDocument/completion", RequestKind::Completion),
        ("textDocument/diagnostic", RequestKind::Diagnostic),
        ("shutdown", RequestKind::Shutdown),
    ];
    for (method, kind) in requests {
        assert_eq!(request_kind(method), Some(kind));
    }
    assert_eq!(request_kind("textDocument/Hover"), None);
    let notifications = [
        ("textDocument/didOpen", NotificationKind::DidOpen),
        ("textDocument/didChange", NotificationKind::DidChange),
        ("textDocument/didClose", NotificationKind::DidClose),
        ("textDocument/didSave", NotificationKind::DidSave),
        ("$/cancelRequest", NotificationKind::Cancel),
        (
            "workspace/didChangeWatchedFiles",
            NotificationKind::WatchedFiles,
        ),
        ("exit", NotificationKind::Exit),
    ];
    for (method, kind) in notifications {
        assert_eq!(notification_kind(method), Some(kind));
    }
    assert_eq!(notification_kind("initialized"), None);
}

// ---------------------------------------------------------------------------
// Requests

fn symbols_query(uri: &str) -> Query {
    Query::DocumentSymbol {
        uri: uri.to_string(),
    }
}

#[test]
fn a_cancelled_in_flight_request_returns_request_cancelled() {
    let session = session();
    let mut cancel = Cancellation::default();
    let id = RequestId::Number(2);
    // The handle keeps the request in flight while the cancel arrives.
    let in_flight = cancel.register(&id);
    cancel.cancel(&id);

    let message = handle_request(
        &session,
        &mut cancel,
        &disk(&[]),
        id.clone(),
        &Query::Malformed {
            detail: "null".to_string(),
        },
    );

    let Outgoing::Refuse(reply) = &message else {
        panic!("expected a cancelled response");
    };
    assert!(reply.id.same(&id));
    assert_eq!(error_of(&message), (-32800, "request cancelled"));
    cancel.release(in_flight);
    assert!(cancel.is_empty());
}

#[test]
fn precancelled_request_returns_request_cancelled() {
    let session = session();
    let mut cancel = Cancellation::default();
    let id = RequestId::Text("q".to_string());
    let _in_flight = cancel.register(&id);
    cancel.cancel(&id);
    let message = handle_request(
        &session,
        &mut cancel,
        &disk(&[]),
        id,
        &symbols_query(&uri_text("/w/a.py")),
    );
    assert_eq!(error_of(&message).0, -32800);
}

#[test]
fn a_cancel_for_an_unknown_id_leaves_no_state() {
    let mut session = session();
    let mut cancel = Cancellation::default();
    handle_notification(
        &mut session,
        &mut cancel,
        &Notification::Cancel {
            id: RequestId::Number(77),
        },
    );
    assert!(cancel.is_empty(), "an unknown id must not be remembered");

    let message = handle_request(
        &session,
        &mut cancel,
        &disk(&[("/w/a.py", GREET)]),
        RequestId::Number(77),
        &symbols_query(&uri_text("/w/a.py")),
    );
    let Outgoing::Answer {
        id,
        reply: Reply::DocumentSymbols(symbols),
    } = message
    else {
        panic!("an unknown-id cancel must not affect the request");
    };
    assert!(id.same(&RequestId::Number(77)));
    assert_eq!(symbols[0].name, "greet");
    assert!(cancel.is_empty());
}

#[test]
fn unknown_method_returns_method_not_found() {
    let session = session();
    let mut cancel = Cancellation::default();
    let message = handle_request(
        &session,
        &mut cancel,
        &disk(&[]),
        RequestId::Number(9),
        &Query::Unknown {
            method: "no/suchMethod".to_string(),
        },
    );
    assert_eq!(
        error_of(&message),
        (-32601, "method not found: no/suchMethod")
    );
}

#[test]
fn malformed_parameters_and_addresses_are_invalid_params() {
    let session = session();
    let disk = disk(&[]);
    let bad = dispatch_request(
        &session,
        &disk,
        &Query::Malformed {
            detail: "missing field".to_string(),
        },
    )
    .unwrap_err();
    assert_eq!(bad.message(), "protocol: missing field");
    let address = dispatch_request(&session, &disk, &symbols_query("nowhere")).unwrap_err();
    assert!(matches!(address, ServerError::InvalidParams(_)));
}

#[test]
fn every_query_is_answered_in_its_shape() {
    let session = session();
    let disk = disk(&[("/w/a.py", GREET)]);
    let uri = uri_text("/w/a.py");
    let position = Position {
        line: 0,
        character: 5,
    };
    let hover = dispatch_request(
        &session,
        &disk,
        &Query::Hover {
            uri: uri.clone(),
            position,
        },
    )
    .unwrap();
    assert!(matches!(hover, Reply::Hover(Some(_))));
    let definition = dispatch_request(
        &session,
        &disk,
        &Query::Definition {
            uri: uri.clone(),
            position,
        },
    )
    .unwrap();
    assert!(matches!(definition, Reply::Definition(Some(_))));
    let references = dispatch_request(
        &session,
        &disk,
        &Query::References {
            uri: uri.clone(),
            position,
            include_declaration: true,
        },
    )
    .unwrap();
    assert!(matches!(references, Reply::References(list) if list.len() == 1));
    let symbols = dispatch_request(
        &session,
        &disk,
        &Query::WorkspaceSymbol {
            query: "GREET".to_string(),
        },
    )
    .unwrap();
    assert!(matches!(symbols, Reply::WorkspaceSymbols(list) if list.len() == 1));
    let completion = dispatch_request(&session, &disk, &Query::Completion { uri, position }).unwrap();
    assert!(matches!(completion, Reply::Completion(list) if list.is_empty()));
}

#[test]
fn the_pull_diagnostic_id_names_generation_and_version() {
    let mut session = session_at(&[("/w/a.py", 1)], false);
    let uri = uri_text("/w/a.py");
    notify(&mut session, did_open(&uri, "python"));
    let snapshot = session.ready().unwrap();
    let open_id = diagnostic_result_id(snapshot, &doc_uri(&uri));
    assert_eq!(
        open_id, "meta-ast:4:1",
        "an open document carries the version that produced the report"
    );
    assert_eq!(
        diagnostic_result_id(snapshot, &doc_uri(&uri_text("/w/missing.py"))),
        "meta-ast:4",
        "a document with no version carries the generation alone"
    );

    let disk = disk(&[]);
    let echoed = dispatch_request(
        &session,
        &disk,
        &Query::Diagnostic {
            uri: uri.clone(),
            previous_result_id: Some(open_id.clone()),
        },
    )
    .unwrap();
    let Reply::DiagnosticsUnchanged { result_id } = echoed else {
        panic!("an echo is answered unchanged");
    };
    assert_eq!(result_id, open_id, "an echo is answered unchanged");

    let full = dispatch_request(
        &session,
        &disk,
        &Query::Diagnostic {
            uri,
            previous_result_id: None,
        },
    )
    .unwrap();
    let Reply::DiagnosticsFull { result_id, items } = full else {
        panic!("a first pull is answered in full");
    };
    assert_eq!(result_id, open_id);
    assert_eq!(items.len(), 1);
    assert_eq!(items[0].message, "broken");
}

// ---------------------------------------------------------------------------
// Progress

fn launch(seq: u64) -> (ProgressTracker, RequestId) {
    let mut tracker = ProgressTracker::new(true);
    tracker.token = "meta-ast-reindex-1".to_string();
    let ack = RequestId::Text(format!("meta-ast-progress-{seq}"));
    tracker.progress = Progress::Launching {
        ack: ack.clone(),
        seq,
    };
    (tracker, ack)
}

#[test]
fn arming_reports_every_request_when_supported() {
    let mut tracker = ProgressTracker::new(true);
    tracker.arm(7);
    assert_eq!(tracker.armed, Some(7));
    tracker.arm(8);
    assert_eq!(tracker.armed, Some(8));
}

#[test]
fn unsupported_clients_never_arm() {
    let mut tracker = ProgressTracker::new(false);
    tracker.arm(7);
    assert_eq!(tracker.armed, None);
    assert!(tracker.pump().is_none());
}

#[test]
fn acked_create_reports_begin_with_the_launched_token() {
    let (mut tracker, ack) = launch(7);
    let message = tracker.on_ack(&ack, true, 0);
    assert!(matches!(tracker.progress, Progress::Active { seq: 7 }));
    assert!(matches!(
        message,
        Some(Outgoing::ProgressBegin { token }) if token == "meta-ast-reindex-1"
    ));
}

#[test]
fn a_pumped_request_launches_under_its_own_token() {
    let mut tracker = ProgressTracker::new(true);
    tracker.arm(7);
    let Some(Outgoing::CreateProgress { id, token }) = tracker.pump() else {
        panic!("an armed request is created");
    };
    assert_eq!(token, "meta-ast-reindex-1");
    assert!(id.same(&RequestId::Text("meta-ast-progress-1".to_string())));
    assert_eq!(tracker.armed, None);
    assert!(tracker.pump().is_none(), "one operation at a time");
    let begin = tracker.on_ack(&id, true, 0);
    assert!(matches!(begin, Some(Outgoing::ProgressBegin { token: own }) if own == token));
}

#[test]
fn declined_create_reports_nothing() {
    let (mut tracker, ack) = launch(7);
    assert!(tracker.on_ack(&ack, false, 0).is_none());
    assert!(matches!(tracker.progress, Progress::Idle));
}

#[test]
fn ack_for_finished_work_reports_nothing() {
    let (mut tracker, ack) = launch(5);
    assert!(tracker.finish(5).is_none());
    assert!(tracker.on_ack(&ack, true, 5).is_none());
    assert!(matches!(tracker.progress, Progress::Idle));
}

#[test]
fn a_response_covers_its_own_and_older_seqs() {
    let (mut tracker, _) = launch(5);
    assert!(tracker.finish(6).is_none());
    assert!(
        matches!(tracker.progress, Progress::Idle),
        "a newer response proves the armed request was merged"
    );
}

#[test]
fn active_progress_ends_with_the_token_it_launched() {
    let (mut tracker, ack) = launch(2);
    let Some(Outgoing::ProgressBegin { token }) = tracker.on_ack(&ack, true, 0) else {
        panic!("begin");
    };
    let Some(Outgoing::ProgressEnd { token: ended }) = tracker.finish(2) else {
        panic!("end");
    };
    assert!(matches!(tracker.progress, Progress::Idle));
    assert_eq!(ended, token);
}

#[test]
fn ack_for_already_applied_work_reports_nothing() {
    let (mut tracker, ack) = launch(5);
    assert!(tracker.on_ack(&ack, true, 5).is_none());
    assert!(matches!(tracker.progress, Progress::Idle));
}

#[test]
fn stale_responses_close_nothing() {
    let (mut tracker, ack) = launch(5);
    tracker.on_ack(&ack, true, 0);
    assert!(tracker.finish(3).is_none());
    assert!(matches!(tracker.progress, Progress::Active { seq: 5 }));
}

#[test]
fn abandon_ends_active_but_not_launching() {
    let (mut tracker, _) = launch(4);
    assert!(tracker.abandon().is_none());
    assert!(matches!(tracker.progress, Progress::Idle));

    tracker.progress = Progress::Active { seq: 4 };
    assert!(matches!(
        tracker.abandon(),
        Some(Outgoing::ProgressEnd { .. })
    ));
    assert!(matches!(tracker.progress, Progress::Idle));
}

#[test]
fn a_foreign_response_is_no_ack() {
    let (mut tracker, _) = launch(4);
    assert!(tracker.on_ack(&RequestId::Number(4), true, 0).is_none());
    assert!(matches!(tracker.progress, Progress::Launching { .. }));
}

#[test]
fn a_finished_request_disarms() {
    let mut tracker = ProgressTracker::new(true);
    tracker.arm(4);
    assert!(tracker.finish(3).is_none());
    assert_eq!(tracker.armed, Some(4));
    assert!(tracker.finish(4).is_none());
    assert_eq!(tracker.armed, None);
}

#[test]
fn identifiers_have_one_spelling() {
    assert_eq!(reindex_progress_token(12), "meta-call-lsp-reindex-12");
    assert!(reindex_progress_ack(12)
        .same(&RequestId::Text("meta-call-lsp-progress-12".to_string())));
    assert!(watched_files_request_id().same(&RequestId::Text(
        "meta-call-lsp-register-watched-files".to_string()
    )));
}

// ---------------------------------------------------------------------------
// Scheduler

fn buffers(text: &str) -> BufferStore {
    let mut buffers = BufferStore::default();
    open(&mut buffers, 1, text);
    buffers
}

fn open(buffers: &mut BufferStore, version: i32, text: &str) {
    assert_eq!(
        buffers.open(
            &doc_uri(&uri_text("/w/a.py")),
            DocVersion::from(version),
            "python",
            text.to_string()
        ),
        OpenOutcome::Indexed
    );
}

#[test]
fn a_full_channel_keeps_the_newest_seq_for_the_next_submit() {
    let buffers = buffers(GREET);
    let mut scheduler = Scheduler::new();

    let first = scheduler.submit(&root(), &buffers).expect("first request");
    assert_eq!(first.seq, 1);
    assert_eq!(scheduler.sent(1, SendOutcome::Sent), Some(1));
    let second = scheduler.submit(&root(), &buffers).expect("second request");
    assert_eq!(scheduler.sent(second.seq, SendOutcome::Full), None);
    assert_eq!(scheduler.queued, Some(2));

    let retried = scheduler.submit(&root(), &buffers).expect("retried request");
    assert_eq!(retried.seq, 2);
    assert_eq!(scheduler.sent(2, SendOutcome::Sent), Some(2));
    assert!(scheduler.queued.is_none());
    assert_eq!(scheduler.submit(&root(), &buffers).unwrap().seq, 3);
}

#[test]
fn a_retry_carries_the_buffers_of_its_own_send_time() {
    let mut buffers = buffers(GREET);
    let mut scheduler = Scheduler::new();
    let first = scheduler.submit(&root(), &buffers).unwrap();
    assert_eq!(first.overlays[0].text, GREET);
    assert_eq!(scheduler.sent(first.seq, SendOutcome::Full), None);

    open(&mut buffers, 2, "def second(): pass\n");

    let retried = scheduler.submit(&root(), &buffers).unwrap();
    assert_eq!(retried.seq, 1);
    assert_eq!(
        retried.overlays[0].text, "def second(): pass\n",
        "a retry must carry buffers of its own send time"
    );
}

#[test]
fn a_disconnected_worker_stops_submitting() {
    let buffers = buffers(GREET);
    let mut scheduler = Scheduler::new();
    let req = scheduler.submit(&root(), &buffers).unwrap();
    assert_eq!(scheduler.sent(req.seq, SendOutcome::Disconnected), None);
    assert!(scheduler.is_gone());
    assert!(scheduler.submit(&root(), &buffers).is_none());
}

#[test]
fn resetting_forgets_the_queued_seq() {
    let buffers = buffers(GREET);
    let mut scheduler = Scheduler::new();
    let req = scheduler.submit(&root(), &buffers).unwrap();
    scheduler.sent(req.seq, SendOutcome::Full);
    scheduler.reset();
    assert_eq!(scheduler.submit(&root(), &buffers).unwrap().seq, 2);
}

#[test]
fn burst_coalesces_to_latest() {
    let buffers = buffers(GREET);
    let req = |seq: u64| ReindexReq {
        seq,
        root: root(),
        overlays: meta_call_lsp::index::collect_inputs(&root(), &buffers),
    };
    assert_eq!(latest_request(req(2), vec![]).seq, 2);
    assert_eq!(latest_request(req(2), vec![req(3), req(4)]).seq, 4);
}

// ---------------------------------------------------------------------------
// Session

fn response(seq: u64, result: Result<Arc<IndexSnapshot>, ReindexError>) -> ReindexResp {
    ReindexResp {
        seq,
        elapsed_ms: 1,
        result,
    }
}

#[test]
fn cold_start_builds_the_index() {
    let session = session();
    let snapshot = session.ready().expect("index");
    let data = snapshot.tables().findings();
    assert_eq!(data.extractions.len(), 1);
    assert!(data.extractions[0]
        .symbols
        .iter()
        .any(|symbol| symbol.name == "greet"));
}

#[test]
fn an_out_of_root_open_document_is_request_failed() {
    let mut session = session();
    let uri = uri_text("/outside/b.py");
    notify(&mut session, did_open(&uri, "python"));

    let error = session
        .ready_for(&doc_uri(&uri))
        .err()
        .expect("an out-of-root document cannot be indexed");

    assert!(
        matches!(error, ServerError::RequestFailed(_)),
        "a permanent condition must not ask the client to retry: {error:?}"
    );
    assert_eq!(
        error.message(),
        "request failed: document is outside the indexed root: file:///outside/b.py"
    );
}

#[test]
fn a_lost_worker_makes_the_index_unavailable() {
    let mut session = session();
    let mut cancel = Cancellation::default();
    assert!(session.worker_lost().is_none());
    let message = handle_request(
        &session,
        &mut cancel,
        &disk(&[("/w/a.py", GREET)]),
        RequestId::Number(1),
        &symbols_query(&uri_text("/w/a.py")),
    );
    assert_eq!(
        error_of(&message),
        (
            -32803,
            "request failed: index unavailable: reindex worker gone"
        )
    );
}

#[test]
fn a_failed_pass_makes_the_index_unavailable() {
    let mut session = session();
    session.on_reindex_response(response(
        2,
        Err(ReindexError::Engine("failed reindex".to_string())),
    ));
    assert_eq!(session.applied_seq, 2);
    assert!(session.ready().is_err());
    let Err(error) = session.ready() else {
        panic!("unavailable");
    };
    assert_eq!(
        error.message(),
        "request failed: index unavailable: engine reanalysis failed: failed reindex"
    );
}

#[test]
fn stale_reindex_responses_are_dropped() {
    let mut session = session();
    session.applied_seq = 5;
    session.on_reindex_response(response(3, Err(ReindexError::Exhausted)));
    assert_eq!(session.applied_seq, 5, "stale responses change nothing");
    assert!(
        session.ready().is_ok(),
        "stale responses change no index"
    );
}

#[test]
fn a_newer_snapshot_replaces_the_index() {
    let mut session = session();
    session.on_reindex_response(response(2, Err(ReindexError::Exhausted)));
    let next = Arc::new(IndexSnapshot::new(analysis(&[])));
    session.on_reindex_response(response(3, Ok(next.clone())));
    assert!(Arc::ptr_eq(session.ready().unwrap(), &next));
}

#[test]
fn stale_reindex_response_ends_progress() {
    let mut session = session_at(&[], true);
    session.progress.token = "meta-ast-reindex-3".to_string();
    session.progress.progress = Progress::Active { seq: 3 };
    let message = session.on_reindex_response(response(
        3,
        Ok(Arc::new(IndexSnapshot::new(analysis(&[])))),
    ));
    assert!(matches!(
        message,
        Some(Outgoing::ProgressEnd { token }) if token == "meta-ast-reindex-3"
    ));
}

#[test]
fn worker_disconnect_ends_progress() {
    let mut session = session_at(&[], true);
    session.progress.token = "meta-ast-reindex-3".to_string();
    session.progress.progress = Progress::Active { seq: 3 };
    assert!(matches!(
        session.worker_lost(),
        Some(Outgoing::ProgressEnd { .. })
    ));
    assert!(session.shutdown().is_none());
}

#[test]
fn an_open_document_requires_its_indexed_version() {
    let mut session = session();
    let uri = uri_text("/w/a.py");
    session.buffers.open(
        &doc_uri(&uri),
        DocVersion::from(2),
        "python",
        "x = 1\n".to_string(),
    );
    let Err(error) = session.ready_for(&doc_uri(&uri)) else {
        panic!("a buffer newer than the snapshot must not be answered");
    };
    let text = error.message();
    assert_eq!(text.split(':').next(), Some("content modified"));
    assert_eq!(
        text,
        "content modified: file:///w/a.py at version 2 was not indexed by snapshot 4"
    );
    assert_eq!(error.to_response(RequestId::Number(1)).code, -32801);
}

#[test]
fn an_unknown_document_is_not_indexed() {
    let session = session();
    let Err(error) = session.ready_for(&doc_uri(&uri_text("/w/missing.py"))) else {
        panic!("a document outside the snapshot must not be answered");
    };
    assert_eq!(error.message().split(':').next(), Some("request failed"));
    assert_eq!(error.to_response(RequestId::Number(1)).code, -32803);
    let Err(untitled) = session.ready_for(&doc_uri("untitled:draft")) else {
        panic!("a document without a path is not indexed");
    };
    assert_eq!(
        untitled.message(),
        "request failed: document is not indexed: untitled:draft"
    );
}

#[test]
fn one_batch_sends_one_request() {
    let mut session = session();
    session.mark_dirty();
    let req = session.flush_batch().expect("one request for the batch");
    assert_eq!(req.seq, 1);
    session.request_sent(req.seq, SendOutcome::Sent);
    assert!(
        session.flush_batch().is_none(),
        "a drained batch sends once"
    );
}

#[test]
fn a_full_worker_leaves_the_batch_dirty() {
    let mut session = session_at(&[], true);
    session.mark_dirty();
    let req = session.flush_batch().unwrap();
    session.request_sent(req.seq, SendOutcome::Full);
    assert!(session.dirty);
    assert_eq!(session.progress.armed, None);
    let retried = session.flush_batch().unwrap();
    assert_eq!(retried.seq, req.seq);
    session.request_sent(retried.seq, SendOutcome::Sent);
    assert!(!session.dirty);
    assert_eq!(session.progress.armed, Some(1));
}

#[test]
fn a_gone_worker_clears_the_batch() {
    let mut session = session();
    session.mark_dirty();
    let req = session.flush_batch().unwrap();
    session.request_sent(req.seq, SendOutcome::Disconnected);
    assert!(!session.dirty);
    session.mark_dirty();
    assert!(session.flush_batch().is_none());
    assert!(!session.dirty);
}

#[test]
fn source_prefers_buffers_over_disk() {
    let mut session = session();
    open(&mut session.buffers, 2, "def from_buffer(): pass\n");
    let disk = disk(&[("/w/a.py", GREET)]);
    let sources = SessionText {
        session: &session,
        disk: &disk,
    };
    let text = sources.source(&path("/w/a.py")).expect("source text");
    assert!(text.contains("from_buffer"));
}

#[test]
fn source_rejects_disk_text_the_snapshot_never_saw() {
    let session = session();
    let analyzed = disk(&[("/w/a.py", GREET)]);
    let changed = disk(&[("/w/a.py", "def changed(): pass\n")]);
    let sources = SessionText {
        session: &session,
        disk: &analyzed,
    };
    assert_eq!(
        sources.source(&path("/w/a.py")).as_deref(),
        Some(GREET),
        "text the snapshot analyzed is used for range conversion"
    );
    let sources = SessionText {
        session: &session,
        disk: &changed,
    };
    assert!(
        sources.source(&path("/w/a.py")).is_none(),
        "a file that changed after the pass must not answer range conversion"
    );
}

#[test]
fn source_is_absent_for_a_file_the_index_never_saw() {
    let mut session = session();
    let disk = disk(&[("/w/b.py", "def other(): pass\n"), ("/w/a.py", GREET)]);
    let sources = SessionText {
        session: &session,
        disk: &disk,
    };
    assert!(
        sources.source(&path("/w/b.py")).is_none(),
        "an unindexed file has no analyzed text to convert against"
    );
    assert!(sources.source(&path("/w/c.py")).is_none());
    session.worker_lost();
    assert!(matches!(session.index, IndexState::Unavailable { .. }));
    let sources = SessionText {
        session: &session,
        disk: &disk,
    };
    assert!(sources.source(&path("/w/a.py")).is_none());
}

#[test]
fn bytes_that_are_no_text_give_none() {
    let bytes = vec![0xff, 0xfe];
    let mut data = analysis(&[]);
    data.content_hashes[0].hash = Fingerprint {
        bytes: *meta_ast::Fingerprint::of(&bytes).as_bytes(),
    };
    let session = Session::new(
        root(),
        Encoding::Utf16,
        Arc::new(IndexSnapshot::new(data)),
        false,
    );
    assert!(session
        .disk_text(&path("/w/a.py"), Some(bytes))
        .is_none());
}

// ---------------------------------------------------------------------------
// The loop

fn handle(
    session: &mut Session,
    shutdown: &mut bool,
    message: ClientMessage,
) -> (LoopControl, Vec<Outgoing>) {
    let mut cancel = Cancellation::default();
    let handled = handle_client_message(
        session,
        &mut cancel,
        shutdown,
        &disk(&[("/w/a.py", GREET)]),
        message,
    );
    (handled.control, handled.messages)
}

#[test]
fn worker_loss_answers_request_failed_and_keeps_serving() {
    let mut session = session();
    let mut shutdown = false;
    session.worker_lost();
    let (control, messages) = handle(
        &mut session,
        &mut shutdown,
        ClientMessage::Request {
            id: RequestId::Number(1),
            query: symbols_query(&uri_text("/w/a.py")),
        },
    );
    assert_eq!(control, LoopControl::Continue);
    let (code, text) = error_of(&messages[0]);
    assert_eq!(code, -32803);
    assert!(text.contains("index unavailable"));

    let (control, messages) = handle(
        &mut session,
        &mut shutdown,
        ClientMessage::Shutdown {
            id: RequestId::Number(2),
        },
    );
    assert_eq!(control, LoopControl::Continue);
    assert!(matches!(
        messages[0],
        Outgoing::Answer {
            reply: Reply::Null,
            ..
        }
    ));
    let (control, _) = handle(&mut session, &mut shutdown, ClientMessage::Exit);
    assert_eq!(control, LoopControl::Exit);
    assert!(exit_status(shutdown, false).is_ok());
}

#[test]
fn after_a_shutdown_requests_are_turned_away() {
    let mut session = session();
    let mut shutdown = true;
    let (control, messages) = handle(
        &mut session,
        &mut shutdown,
        ClientMessage::Request {
            id: RequestId::Number(3),
            query: symbols_query(&uri_text("/w/a.py")),
        },
    );
    assert_eq!(control, LoopControl::Continue);
    assert_eq!(error_of(&messages[0]), (-32600, "server is shutting down"));
}

#[test]
fn an_exit_without_a_shutdown_is_an_error() {
    assert_eq!(
        exit_status(false, false).unwrap_err(),
        "client exited without shutdown"
    );
    assert_eq!(
        exit_status(true, true).unwrap_err(),
        "reindex worker panicked"
    );
}

#[test]
fn a_drained_batch_sends_one_request() {
    let mut session = session();
    let mut shutdown = false;
    let uri = uri_text("/w/a.py");
    handle(
        &mut session,
        &mut shutdown,
        ClientMessage::Notification(did_open(&uri, "python")),
    );
    for version in 2..=4 {
        handle(
            &mut session,
            &mut shutdown,
            ClientMessage::Notification(Notification::DidChange {
                uri: uri.clone(),
                version,
                changes: vec![ContentChange {
                    range: None,
                    text: format!("x = {version}\n"),
                }],
            }),
        );
    }
    let request = session.flush_batch().expect("one request");
    assert_eq!(request.seq, 1);
    session.request_sent(request.seq, SendOutcome::Sent);
    assert!(
        session.flush_batch().is_none(),
        "a drained batch must produce exactly one request"
    );
    assert_eq!(
        request.overlays[0].text, "x = 4\n",
        "the request carries the last state of the batch"
    );
}

#[test]
fn progress_follows_a_request_from_start_to_end() {
    let mut session = session_at(&[], true);
    let mut shutdown = false;
    session.mark_dirty();
    let req = session.flush_batch().unwrap();
    session.request_sent(req.seq, SendOutcome::Sent);
    let Some(Outgoing::CreateProgress { id, token }) = session.pump_progress() else {
        panic!("a sent request starts progress");
    };
    let (_, messages) = handle(
        &mut session,
        &mut shutdown,
        ClientMessage::Response { id, accepted: true },
    );
    assert!(matches!(&messages[0], Outgoing::ProgressBegin { token: own } if *own == token));
    let end = session.on_reindex_response(response(
        req.seq,
        Ok(Arc::new(IndexSnapshot::new(analysis(&[])))),
    ));
    assert!(matches!(end, Some(Outgoing::ProgressEnd { token: own }) if own == token));
}

#[test]
fn a_notification_pumps_armed_progress() {
    let mut session = session_at(&[], true);
    let mut shutdown = false;
    session.progress.arm(1);
    let (_, messages) = handle(
        &mut session,
        &mut shutdown,
        ClientMessage::Notification(watched(&uri_text("/w/go.mod"))),
    );
    assert_eq!(messages.len(), 2);
    assert!(matches!(messages[0], Outgoing::ShowWarning { .. }));
    assert!(matches!(messages[1], Outgoing::CreateProgress { .. }));
}

#[test]
fn a_ready_session_names_its_snapshot() {
    let session = session();
    let IndexState::Ready(snapshot) = &session.index else {
        panic!("ready");
    };
    assert_eq!(snapshot.generation(), 4);
}
