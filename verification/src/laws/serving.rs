//! Serving a client: handshake, methods, passes in the background, progress and errors.

use vstd::prelude::*;
use vstd::string::*;

use crate::cli::{level_named, parsed_from, Command};
use crate::convert::{kinds_of, severity_of, word_of};
use crate::error::ErrorView;
use crate::handlers::complete::bucket_of;
use crate::index::snapshot::{
    diagnostic_key_of, finish_snapshot, sorted_diagnostics, ChangeCounts, IndexSnapshot, Reindexer,
};
use crate::index::{version_of, Analysis, PathVersion};
use crate::model::{extensions, ConfidenceTier, Diagnostic, LangId, Severity, SymbolKind};
use crate::order::{
    lemma_stable_prefix, stable_order, stable_sort_is_a_stable_permutation, text_precedes, SortKey,
};
use crate::path::{path_precedes, DocPath, Part};
use crate::position::Encoding;
use crate::protocol::{
    ClientCapabilities, CompletionKindCode, DiagnosticSeverity, IdView, InitializeParams,
    SymbolKindCode, SyncKind,
};
use crate::server::capabilities::{
    all_globs, extension_globs, plan_initialize, resolver_configs, root_from_params, texts_of,
    InitializePlan,
};
use crate::server::dispatch::{NotificationKind, RequestKind};
use crate::server::progress::{
    acked, armed, closed_progress, finished, progress_ack, progress_token, pumped, ProgressMessage,
    ProgressView, TrackerView,
};
use crate::server::scheduler::{after_send, after_submit, upcoming, Scheduler, SendOutcome};
use crate::server::session::makes_request;
use crate::text::decimal_text;
use crate::types::{parsed_url, uri_path, LogLevel, RootDir};
use std::sync::Arc;

verus! {

// ---------------------------------------------------------------------------
// Progress

/// Progress runs through: what is armed is created once nothing else runs, begins with
/// the token it was created with when the client takes it, and ends with that token when
/// the work it was armed for, or any later, is done.
pub proof fn a_progress_runs_through(t: TrackerView, seq: u64, applied: u64, earlier: u64, done: u64)
    requires
        t.supported,
        t.progress is Idle,
        applied < seq,
        earlier < seq <= done,
    ensures
        ({
            let (created, create) = pumped(armed(t, seq));
            let id = create->0->Create_id;
            let (begun, begin) = acked(created, id, true, applied);
            let (ended, end) = finished(begun, done);
            &&& create matches Some(ProgressMessage::Create { id: own, token }) && token
                == created.token && created.progress == (ProgressView::Launching { ack: own, seq })
            &&& created.armed is None
            &&& begin == Some(ProgressMessage::Begin { token: created.token })
            &&& begun.progress == (ProgressView::Active { seq })
            &&& finished(begun, earlier) == (begun, None::<ProgressMessage>)
            &&& end == Some(ProgressMessage::End { token: created.token })
            &&& ended.progress is Idle && ended.armed is None && ended.supported
        }),
{
}

/// A progress that the client declines, or whose work is done when the client takes it, is
/// dropped without a word; a response to another request changes nothing.
pub proof fn a_late_or_declined_progress_is_dropped(
    t: TrackerView,
    ack: IdView,
    seq: u64,
    id: IdView,
    accepted: bool,
    applied: u64,
)
    requires
        t.progress == (ProgressView::Launching { ack, seq }),
    ensures
        id != ack ==> acked(t, id, accepted, applied) == (t, None::<ProgressMessage>),
        id == ack && (!accepted || seq <= applied) ==> acked(t, id, accepted, applied) == (
            TrackerView { progress: ProgressView::Idle, ..t },
            None::<ProgressMessage>,
        ),
{
}

/// While a progress runs no other is created: what is armed waits, the newest of it; done
/// work is armed no more.
pub proof fn one_progress_runs_at_a_time(t: TrackerView, seq: u64, newer: u64, done: u64)
    ensures
        !(t.progress is Idle) ==> pumped(t) == (t, None::<ProgressMessage>),
        t.armed is None ==> pumped(t) == (t, None::<ProgressMessage>),
        t.supported ==> armed(armed(t, seq), newer).armed == Some(newer),
        !t.supported ==> armed(t, seq) == t,
        t.armed == Some(seq) && seq <= done ==> finished(t, done).0.armed is None,
        t.armed == Some(seq) && done < seq ==> finished(t, done).0.armed == Some(seq),
        closed_progress(t).0.progress is Idle,
        closed_progress(t).1 is Some <==> t.progress is Active,
{
}

/// Each progress has a token and an id of its own, as long as the numbers last.
pub proof fn progresses_are_told_apart(a: u64, b: u64)
    requires
        a != b,
    ensures
        progress_token(a) != progress_token(b),
        progress_ack(a) != progress_ack(b),
{
    let (x, y) = (decimal_text(a as nat), decimal_text(b as nat));
    if x == y {
        crate::text::lemma_decimal_injective(a as nat, b as nat);
    }
    let (s, t) = ("meta-ast-reindex-"@, "meta-ast-progress-"@);
    assert((s + x).skip(s.len() as int) =~= x);
    assert((s + y).skip(s.len() as int) =~= y);
    assert((t + x).skip(t.len() as int) =~= x);
    assert((t + y).skip(t.len() as int) =~= y);
}

// ---------------------------------------------------------------------------
// Passes

/// A session whose worker is lost makes no request any more; one whose worker has no room
/// makes the same again; one that sent makes the next only after a change.
pub proof fn requests_follow_the_worker(s: Scheduler, dirty: bool)
    requires
        !s.gone,
    ensures
        ({
            let seq = upcoming(s);
            let (lost, full, sent) = (
                after_send(after_submit(s), seq, SendOutcome::Disconnected),
                after_send(after_submit(s), seq, SendOutcome::Full),
                after_send(after_submit(s), seq, SendOutcome::Sent),
            );
            &&& !makes_request(true, lost) && !makes_request(false, lost)
            &&& makes_request(true, full) && upcoming(full) == seq
            &&& makes_request(dirty, sent) == dirty
            &&& s.queued is None && s.seq < u64::MAX ==> seq == s.seq + 1
            &&& s.queued matches Some(waiting) ==> seq == waiting
            &&& sent.queued is None
        }),
{
}

/// A retained snapshot is reused if and only if the pass changed no file and the versions
/// of the buffers are those it was made from, path by path.
pub proof fn a_snapshot_is_reused_only_unchanged(
    reindexer: Reindexer,
    change: ChangeCounts,
    versions: Vec<PathVersion>,
    r: Option<Arc<IndexSnapshot>>,
)
    requires
        call_ensures(Reindexer::reuse, (&reindexer, change, &versions), r),
    ensures
        r is Some <==> {
            &&& change.added == 0 && change.modified == 0 && change.removed == 0
            &&& reindexer.retained() matches Some(last) && forall|path: Seq<Part>| #[trigger]
                version_of(last@.versions@, path) == version_of(versions@, path)
        },
        r is Some ==> r == reindexer.retained(),
{
}

/// One diagnostic does not come after another: by path, then message, then first byte,
/// those without a range last.
pub open spec fn not_after(x: Diagnostic, y: Diagnostic) -> bool {
    &&& !path_precedes(y.path@, x.path@)
    &&& x.path@ == y.path@ ==> !text_precedes(y.message@, x.message@)
    &&& x.path@ == y.path@ && x.message@ == y.message@ ==> match (x.source_range, y.source_range) {
        (Some(a), Some(b)) => a.byte_start <= b.byte_start,
        (None, Some(b)) => b.byte_start == usize::MAX,
        _ => true,
    }
}

/// A finished snapshot has the findings of the pass as they were, and the diagnostics of
/// the pass and of the graph, every one, in order; its generation is never zero.
pub proof fn a_snapshot_holds_the_findings(
    data: Analysis,
    graph: Vec<Diagnostic>,
    counter: u32,
    r: IndexSnapshot,
) -> (from: Seq<int>)
    requires
        call_ensures(finish_snapshot, (data, graph, counter), r),
    ensures
        r@.extractions == data.extractions,
        r@.references == data.references,
        r@.client_calls == data.client_calls,
        r@.edges == data.edges,
        r@.files == data.files,
        r@.scope == data.scope,
        r@.content_hashes == data.content_hashes,
        r@.versions == data.versions,
        r@.generation != 0,
        counter != 0 ==> r@.generation == counter,
        ({
            let all = data.diagnostics@ + graph@;
            &&& r@.diagnostics@.len() == all.len() == from.len()
            &&& forall|k: int|
                0 <= k < from.len() ==> 0 <= #[trigger] from[k] < all.len() && r@.diagnostics@[k]
                    == all[from[k]]
            &&& forall|i: int| 0 <= i < all.len() ==> #[trigger] from.contains(i)
            &&& from.no_duplicates()
            &&& forall|i: int, j: int|
                0 <= i < j < r@.diagnostics@.len() ==> not_after(
                    #[trigger] r@.diagnostics@[i],
                    #[trigger] r@.diagnostics@[j],
                )
        }),
{
    let all = data.diagnostics@ + graph@;
    let keys = all.map_values(|d: Diagnostic| diagnostic_key_of(d));
    let from = stable_order(keys);
    stable_sort_is_a_stable_permutation(keys);
    lemma_stable_prefix(keys, keys.len() as int);
    assert(r@.diagnostics@ == sorted_diagnostics(all));
    assert forall|i: int, j: int| 0 <= i < j < r@.diagnostics@.len() implies not_after(
        #[trigger] r@.diagnostics@[i],
        #[trigger] r@.diagnostics@[j],
    ) by {
        let (p, q) = (from[i], from[j]);
        assert(0 <= p < all.len() && 0 <= q < all.len());
        let (x, y) = (all[p], all[q]);
        assert(r@.diagnostics@[i] == x && r@.diagnostics@[j] == y);
        assert(!keys[q].precedes(&keys[p]));
        assert(keys[p] == diagnostic_key_of(x) && keys[q] == diagnostic_key_of(y));
        crate::path::lemma_path_level(x.path@, y.path@);
        crate::path::lemma_path_asymmetric(x.path@, y.path@);
        crate::order::lemma_text_level(x.message@, y.message@);
        crate::order::lemma_text_asymmetric(x.message@, y.message@);
    }
    from
}

// ---------------------------------------------------------------------------
// Methods and errors

/// Every request is known by the method of the protocol that asks it.
pub proof fn methods_mean_what_they_say()
    ensures
        RequestKind::DocumentSymbol.method() == "textDocument/documentSymbol"@,
        RequestKind::Hover.method() == "textDocument/hover"@,
        RequestKind::Definition.method() == "textDocument/definition"@,
        RequestKind::References.method() == "textDocument/references"@,
        RequestKind::WorkspaceSymbol.method() == "workspace/symbol"@,
        RequestKind::Completion.method() == "textDocument/completion"@,
        RequestKind::Diagnostic.method() == "textDocument/diagnostic"@,
        RequestKind::Shutdown.method() == "shutdown"@,
        NotificationKind::DidOpen.method() == "textDocument/didOpen"@,
        NotificationKind::DidChange.method() == "textDocument/didChange"@,
        NotificationKind::DidClose.method() == "textDocument/didClose"@,
        NotificationKind::DidSave.method() == "textDocument/didSave"@,
        NotificationKind::Cancel.method() == "$/cancelRequest"@,
        NotificationKind::WatchedFiles.method() == "workspace/didChangeWatchedFiles"@,
        NotificationKind::Exit.method() == "exit"@,
{
}

/// Every error has the code of the protocol, and says what it is about.
pub proof fn errors_have_their_codes(error: ErrorView, detail: Seq<char>)
    ensures
        error == ErrorView::MethodNotFound(detail) ==> error.code() == -32601 && error.text()
            == "method not found: "@ + detail,
        error == ErrorView::InvalidParams(detail) ==> error.code() == -32602 && error.text()
            == "protocol: "@ + detail,
        error == ErrorView::Internal(detail) ==> error.code() == -32603 && error.text()
            == "internal error: "@ + detail,
        error == ErrorView::Cancelled ==> error.code() == -32800 && error.text()
            == "request cancelled"@,
        error == ErrorView::ContentModified(detail) ==> error.code() == -32801 && error.text()
            == "content modified: "@ + detail,
        error == ErrorView::RequestFailed(detail) ==> error.code() == -32803 && error.text()
            == "request failed: "@ + detail,
{
}

// ---------------------------------------------------------------------------
// Kinds

/// Every kind of symbol is shown as the protocol's kind of that name, or as the nearest
/// it has: a trait as an interface, an alias as a type parameter, statics and
/// declarations as variables; as completion, an object and a namespace as modules.
pub proof fn kinds_are_shown_as_themselves()
    ensures
        kinds_of(SymbolKind::Function) == (SymbolKindCode::Function, CompletionKindCode::Function),
        kinds_of(SymbolKind::Method) == (SymbolKindCode::Method, CompletionKindCode::Method),
        kinds_of(SymbolKind::Class) == (SymbolKindCode::Class, CompletionKindCode::Class),
        kinds_of(SymbolKind::Struct) == (SymbolKindCode::Struct, CompletionKindCode::Struct),
        kinds_of(SymbolKind::Interface) == (
            SymbolKindCode::Interface,
            CompletionKindCode::Interface,
        ),
        kinds_of(SymbolKind::Trait) == kinds_of(SymbolKind::Interface),
        kinds_of(SymbolKind::Enum) == (SymbolKindCode::Enum, CompletionKindCode::Enum),
        kinds_of(SymbolKind::Object) == (SymbolKindCode::Object, CompletionKindCode::Module),
        kinds_of(SymbolKind::Constant) == (SymbolKindCode::Constant, CompletionKindCode::Constant),
        kinds_of(SymbolKind::Module) == (SymbolKindCode::Module, CompletionKindCode::Module),
        kinds_of(SymbolKind::Namespace) == (SymbolKindCode::Namespace, CompletionKindCode::Module),
        kinds_of(SymbolKind::TypeAlias) == (
            SymbolKindCode::TypeParameter,
            CompletionKindCode::TypeParameter,
        ),
        kinds_of(SymbolKind::Static) == (SymbolKindCode::Variable, CompletionKindCode::Variable),
        kinds_of(SymbolKind::Declaration) == kinds_of(SymbolKind::Static),
        word_of(SymbolKind::Function) == "function"@,
        word_of(SymbolKind::Method) == "method"@,
        word_of(SymbolKind::Class) == "class"@,
        word_of(SymbolKind::Struct) == "struct"@,
        word_of(SymbolKind::Interface) == "interface"@,
        word_of(SymbolKind::Trait) == "trait"@,
        word_of(SymbolKind::Enum) == "enum"@,
        word_of(SymbolKind::Object) == "object"@,
        word_of(SymbolKind::Constant) == "constant"@,
        word_of(SymbolKind::Module) == "module"@,
        word_of(SymbolKind::Namespace) == "namespace"@,
        word_of(SymbolKind::TypeAlias) == "type alias"@,
        word_of(SymbolKind::Static) == "variable"@,
        word_of(SymbolKind::Declaration) == "variable"@,
        severity_of(Severity::Error) == DiagnosticSeverity::Error,
        severity_of(Severity::Warning) == DiagnosticSeverity::Warning,
{
}

/// What is surer is offered earlier: own and direct names and uses, then transitive ones,
/// then those of another language or of many files, computed and unknown ones last.
pub proof fn surer_offers_come_earlier()
    ensures
        bucket_of(ConfidenceTier::OwnOrDirect) == bucket_of(ConfidenceTier::DefUse),
        bucket_of(ConfidenceTier::OwnOrDirect) < bucket_of(ConfidenceTier::Transitive),
        bucket_of(ConfidenceTier::Transitive) < bucket_of(ConfidenceTier::CrossLanguage),
        bucket_of(ConfidenceTier::CrossLanguage) == bucket_of(ConfidenceTier::ClientMultiGlobal),
        bucket_of(ConfidenceTier::CrossLanguage) < bucket_of(ConfidenceTier::Computed),
        bucket_of(ConfidenceTier::Computed) == bucket_of(ConfidenceTier::Unknown),
        bucket_of(ConfidenceTier::OwnOrDirect) == 0,
        bucket_of(ConfidenceTier::Unknown) == 3,
{
}

// ---------------------------------------------------------------------------
// Handshake

/// A client offers columns in UTF-8.
pub open spec fn counts_bytes(caps: ClientCapabilities) -> bool {
    caps.position_encodings matches Some(offered) && exists|i: int|
        0 <= i < offered@.len() && (#[trigger] offered@[i])@ == "utf-8"@
}

/// A pattern watches the files of an extension of some language, or a resolver config.
pub open spec fn is_watched(glob: Seq<char>) -> bool {
    ||| exists|lang: LangId, k: int|
        0 <= k < extensions(lang).len() && glob == "**/*."@ + #[trigger] extensions(lang)[k]
    ||| glob == "**/"@ + "tsconfig.json"@
    ||| glob == "**/"@ + "jsconfig.json"@
    ||| glob == "**/"@ + "go.mod"@
    ||| glob == "**/"@ + "pyproject.toml"@
    ||| glob == "**/"@ + "package.json"@
}

proof fn lemma_extension_globs(n: int, glob: Seq<char>)
    requires
        0 <= n <= LangId::spec_all().len(),
    ensures
        extension_globs(n).contains(glob) <==> exists|m: int, k: int|
            0 <= m < n && 0 <= k < extensions(LangId::spec_all()[m]).len() && glob == "**/*."@
                + #[trigger] extensions(LangId::spec_all()[m])[k],
    decreases n,
{
    let all = extension_globs(n);
    if n > 0 {
        let before = extension_globs(n - 1);
        let own = extensions(LangId::spec_all()[n - 1]);
        let here = own.map_values(|extension: Seq<char>| "**/*."@ + extension);
        lemma_extension_globs(n - 1, glob);
        if all.contains(glob) {
            let i = choose|i: int| 0 <= i < all.len() && all[i] == glob;
            if i < before.len() {
                assert(before[i] == glob);
                let (m, k) = choose|m: int, k: int|
                    0 <= m < n - 1 && 0 <= k < extensions(LangId::spec_all()[m]).len() && glob
                        == "**/*."@ + #[trigger] extensions(LangId::spec_all()[m])[k];
                assert(glob == "**/*."@ + extensions(LangId::spec_all()[m])[k]);
            } else {
                let k = i - before.len();
                assert(here[k] == glob);
                assert(glob == "**/*."@ + extensions(LangId::spec_all()[n - 1])[k]);
            }
        }
        if exists|m: int, k: int|
            0 <= m < n && 0 <= k < extensions(LangId::spec_all()[m]).len() && glob == "**/*."@
                + #[trigger] extensions(LangId::spec_all()[m])[k] {
            let (m, k) = choose|m: int, k: int|
                0 <= m < n && 0 <= k < extensions(LangId::spec_all()[m]).len() && glob == "**/*."@
                    + #[trigger] extensions(LangId::spec_all()[m])[k];
            if m == n - 1 {
                assert(here[k] == glob);
                assert(all[before.len() + k] == glob);
            } else {
                assert(glob == "**/*."@ + extensions(LangId::spec_all()[m])[k]);
                let i = choose|i: int| 0 <= i < before.len() && before[i] == glob;
                assert(all[i] == glob);
            }
        }
    }
}

proof fn lemma_watched(glob: Seq<char>)
    ensures
        all_globs().contains(glob) <==> is_watched(glob),
{
    let langs = LangId::spec_all();
    let n = langs.len() as int;
    let first = extension_globs(n);
    let configs = resolver_configs();
    let second = configs.map_values(|name: Seq<char>| "**/"@ + name);
    lemma_extension_globs(n, glob);
    assert(langs[0] == LangId::Python && langs.len() == 9);
    assert forall|lang: LangId| langs.contains(lang) by {
        match lang {
            LangId::Python => assert(langs[0] == lang),
            LangId::JavaScript => assert(langs[1] == lang),
            LangId::TypeScript => assert(langs[2] == lang),
            LangId::Tsx => assert(langs[3] == lang),
            LangId::C => assert(langs[4] == lang),
            LangId::Cpp => assert(langs[5] == lang),
            LangId::Rust => assert(langs[6] == lang),
            LangId::Go => assert(langs[7] == lang),
            LangId::Ruby => assert(langs[8] == lang),
        }
    }
    assert(configs[0] == "tsconfig.json"@ && configs[1] == "jsconfig.json"@ && configs[2]
        == "go.mod"@ && configs[3] == "pyproject.toml"@ && configs[4] == "package.json"@);
    assert(configs.len() == 5);
    if all_globs().contains(glob) {
        let i = choose|i: int| 0 <= i < all_globs().len() && all_globs()[i] == glob;
        if i < first.len() {
            assert(first[i] == glob);
            let (m, k) = choose|m: int, k: int|
                0 <= m < n && 0 <= k < extensions(langs[m]).len() && glob == "**/*."@
                    + #[trigger] extensions(langs[m])[k];
            assert(glob == "**/*."@ + extensions(langs[m])[k]);
        } else {
            assert(second[i - first.len()] == glob);
        }
    }
    if is_watched(glob) {
        if exists|lang: LangId, k: int|
            0 <= k < extensions(lang).len() && glob == "**/*."@ + #[trigger] extensions(lang)[k] {
            let (lang, k) = choose|lang: LangId, k: int|
                0 <= k < extensions(lang).len() && glob == "**/*."@ + #[trigger] extensions(lang)[k];
            assert(langs.contains(lang));
            let m = choose|m: int| 0 <= m < langs.len() && langs[m] == lang;
            assert(glob == "**/*."@ + extensions(langs[m])[k]);
            let i = choose|i: int| 0 <= i < first.len() && first[i] == glob;
            assert(all_globs()[i] == glob);
        } else {
            let j: int = if glob == "**/"@ + "tsconfig.json"@ {
                0
            } else if glob == "**/"@ + "jsconfig.json"@ {
                1
            } else if glob == "**/"@ + "go.mod"@ {
                2
            } else if glob == "**/"@ + "pyproject.toml"@ {
                3
            } else {
                4
            };
            assert(second[j] == glob);
            assert(all_globs()[first.len() + j] == glob);
        }
    }
}

/// A client is served if and only if its root was found and it pulls diagnostics: in bytes
/// if it offers that and else in UTF-16 units, with what it says it supports, by ranges of
/// edits, and watching exactly the files that matter where it takes the registration.
pub proof fn a_client_is_served_as_it_asks(
    params: InitializeParams,
    root: Result<RootDir, String>,
    r: Result<InitializePlan, String>,
)
    requires
        call_ensures(plan_initialize, (&params, root), r),
    ensures
        r is Ok <==> root is Ok && params.capabilities.pull_diagnostics,
        root matches Err(reason) ==> r == Err::<InitializePlan, String>(reason),
        r matches Ok(plan) ==> {
            let offer = plan.capabilities;
            &&& root == Ok::<RootDir, String>(plan.root)
            &&& plan.encoding is Utf8 <==> counts_bytes(params.capabilities)
            &&& plan.progress_supported == params.capabilities.work_done_progress
            &&& plan.definition_links == params.capabilities.definition_link_support
            &&& offer.position_encoding@ == (match plan.encoding {
                Encoding::Utf8 => "utf-8"@,
                Encoding::Utf16 => "utf-16"@,
            })
            &&& offer.change == SyncKind::Incremental && offer.open_close && !offer.save_includes_text
            &&& offer.document_symbol && offer.hover && offer.definition && offer.references
                && offer.workspace_symbol
            &&& offer.diagnostic_identifier@ == "meta-ast"@ && !offer.inter_file_dependencies
                && !offer.workspace_diagnostics
            &&& texts_of(offer.completion_triggers@) == seq!["."@, ":"@, "/"@]
            &&& plan.watch is Some <==> params.capabilities.watched_files_registration
            &&& plan.watch matches Some(globs) ==> {
                &&& forall|glob: Seq<char>| #[trigger]
                    texts_of(globs@).contains(glob) <==> is_watched(glob)
                &&& forall|i: int, j: int|
                    0 <= i < j < globs@.len() ==> text_precedes(
                        (#[trigger] globs@[i])@,
                        (#[trigger] globs@[j])@,
                    )
            }
        },
{
    if let Ok(plan) = r {
        if let Some(globs) = plan.watch {
            assert forall|glob: Seq<char>| #[trigger] texts_of(globs@).contains(glob) <==> is_watched(
                glob,
            ) by {
                lemma_watched(glob);
            }
            assert forall|i: int, j: int| 0 <= i < j < globs@.len() implies text_precedes(
                (#[trigger] globs@[i])@,
                (#[trigger] globs@[j])@,
            ) by {
                assert(texts_of(globs@)[i] == globs@[i]@ && texts_of(globs@)[j] == globs@[j]@);
            }
        }
    }
}

/// A folder names a path: it parses as a file address.
pub open spec fn is_root_folder(folder: Seq<char>, path: Seq<char>) -> bool {
    parsed_url(folder) matches Ok(url) && uri_path(url) == Some(path)
}

proof fn lemma_first_path(folders: Seq<String>, i: int)
    requires
        0 <= i < folders.len(),
        exists|path: Seq<char>| is_root_folder(folders[i]@, path),
        forall|k: int, path: Seq<char>| 0 <= k < i ==> !#[trigger] is_root_folder(folders[k]@, path),
    ensures
        crate::server::capabilities::first_path(folders) is Some,
        is_root_folder(folders[i]@, crate::server::capabilities::first_path(folders)->0),
    decreases folders.len(),
{
    let path = choose|path: Seq<char>| is_root_folder(folders[i]@, path);
    if i > 0 {
        let rest = folders.drop_first();
        assert(rest[i - 1] == folders[i]);
        assert forall|k: int, path: Seq<char>| 0 <= k < i - 1 implies !#[trigger] is_root_folder(
            rest[k]@,
            path,
        ) by {
            assert(rest[k] == folders[k + 1]);
            assert(!is_root_folder(folders[k + 1]@, path));
        }
        if let Ok(url) = parsed_url(folders[0]@) {
            if let Some(own) = uri_path(url) {
                assert(is_root_folder(folders[0]@, own));
            }
        }
        lemma_first_path(rest, i - 1);
    }
}

proof fn lemma_no_path(folders: Seq<String>)
    requires
        forall|k: int, path: Seq<char>|
            0 <= k < folders.len() ==> !#[trigger] is_root_folder(folders[k]@, path),
    ensures
        crate::server::capabilities::first_path(folders) is None,
    decreases folders.len(),
{
    if folders.len() > 0 {
        let rest = folders.drop_first();
        assert forall|k: int, path: Seq<char>| 0 <= k < rest.len() implies !#[trigger] is_root_folder(
            rest[k]@,
            path,
        ) by {
            assert(rest[k] == folders[k + 1]);
            assert(!is_root_folder(folders[k + 1]@, path));
        }
        if let Ok(url) = parsed_url(folders[0]@) {
            if let Some(own) = uri_path(url) {
                assert(is_root_folder(folders[0]@, own));
            }
        }
        lemma_no_path(rest);
    }
}

/// The root is the path of the first workspace folder that names one; without folders, or
/// without such a one, there is none.
pub proof fn the_first_file_folder_is_the_root(params: InitializeParams, r: Result<DocPath, String>, i: int)
    requires
        call_ensures(root_from_params, (&params,), r),
    ensures
        params.workspace_folders is None ==> r is Err,
        params.workspace_folders matches Some(folders) ==> {
            &&& 0 <= i < folders@.len() && (exists|path: Seq<char>|
                is_root_folder(folders@[i]@, path)) && (forall|k: int, path: Seq<char>|
                0 <= k < i ==> !#[trigger] is_root_folder(folders@[k]@, path)) ==> (r matches Ok(root)
                && is_root_folder(folders@[i]@, root.spelling()))
            &&& (forall|k: int, path: Seq<char>|
                0 <= k < folders@.len() ==> !#[trigger] is_root_folder(folders@[k]@, path)) ==> r is Err
        },
{
    if let Some(folders) = params.workspace_folders {
        if 0 <= i < folders@.len() && (exists|path: Seq<char>| is_root_folder(folders@[i]@, path)) && (
        forall|k: int, path: Seq<char>| 0 <= k < i ==> !#[trigger] is_root_folder(folders@[k]@, path)) {
            lemma_first_path(folders@, i);
        }
        if forall|k: int, path: Seq<char>|
            0 <= k < folders@.len() ==> !#[trigger] is_root_folder(folders@[k]@, path) {
            lemma_no_path(folders@);
        }
    }
}

// ---------------------------------------------------------------------------
// Arguments

/// Arguments are read one after the other: the last command flag wins, and so does the
/// last level; without a command flag the program serves at the level chosen. Whatever
/// else stands among them is refused.
pub proof fn arguments_are_read_in_order(
    args: Seq<String>,
    i: int,
    command: Option<Command>,
    level: Option<LogLevel>,
)
    requires
        0 <= i <= args.len(),
    ensures
        i == args.len() ==> parsed_from(args, i, command, level) == Ok::<Command, Seq<char>>(
            match command {
                Some(command) => command,
                None => Command::Serve(level),
            },
        ),
        i < args.len() && (args[i]@ == "-V"@ || args[i]@ == "--version"@) ==> parsed_from(
            args,
            i,
            command,
            level,
        ) == parsed_from(args, i + 1, Some(Command::Version), level),
        i < args.len() && (args[i]@ == "-h"@ || args[i]@ == "--help"@) ==> parsed_from(
            args,
            i,
            command,
            level,
        ) == parsed_from(args, i + 1, Some(Command::Help), level),
        i < args.len() && args[i]@ == "--stdio"@ ==> parsed_from(args, i, command, level)
            == parsed_from(args, i + 1, command, level),
        i + 1 < args.len() && args[i]@ == "--log-level"@ ==> forall|chosen: LogLevel|
            args[i + 1]@ == #[trigger] chosen.name() ==> parsed_from(args, i, command, level)
                == parsed_from(args, i + 2, command, Some(chosen)),
        i + 1 < args.len() && args[i]@ == "--log-level"@ && (forall|chosen: LogLevel|
            args[i + 1]@ != #[trigger] chosen.name()) ==> parsed_from(args, i, command, level) is Err,
        i + 1 == args.len() && args[i]@ == "--log-level"@ ==> parsed_from(
            args,
            i,
            command,
            level,
        ) is Err,
        i < args.len() && args[i]@ != "-V"@ && args[i]@ != "--version"@ && args[i]@ != "-h"@ && args[i]@
            != "--help"@ && args[i]@ != "--stdio"@ && args[i]@ != "--log-level"@ ==> parsed_from(
            args,
            i,
            command,
            level,
        ) is Err,
        LogLevel::Error.name() == "error"@ && LogLevel::Warn.name() == "warn"@
            && LogLevel::Info.name() == "info"@ && LogLevel::Debug.name() == "debug"@
            && LogLevel::Trace.name() == "trace"@,
{
    reveal_strlit("-V");
    reveal_strlit("--version");
    reveal_strlit("-h");
    reveal_strlit("--help");
    reveal_strlit("--stdio");
    reveal_strlit("--log-level");
    assert("-V"@.len() == 2 && "-h"@.len() == 2 && "--version"@.len() == 9 && "--help"@.len() == 6
        && "--stdio"@.len() == 7 && "--log-level"@.len() == 11);
    assert("-V"@[1] != "-h"@[1]);
    if i + 1 < args.len() {
        assert forall|chosen: LogLevel| args[i + 1]@ == #[trigger] chosen.name() implies level_named(
            args[i + 1]@,
        ) == Some(chosen) by {
            crate::types::level_names_are_distinct(chosen, level_named(args[i + 1]@)->0);
        }
        if forall|chosen: LogLevel| args[i + 1]@ != #[trigger] chosen.name() {
            assert(args[i + 1]@ != LogLevel::Error.name());
            assert(args[i + 1]@ != LogLevel::Warn.name());
            assert(args[i + 1]@ != LogLevel::Info.name());
            assert(args[i + 1]@ != LogLevel::Debug.name());
            assert(args[i + 1]@ != LogLevel::Trace.name());
        }
    }
}

} // verus!
