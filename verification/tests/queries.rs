use std::cell::Cell;
use std::collections::HashMap;
use std::sync::Arc;

use meta_ast::graph::edge::{
    CONFIDENCE_CLIENT_MULTI_GLOBAL, CONFIDENCE_CLIENT_MULTI_LOAD, CONFIDENCE_CLIENT_UNIQUE_GLOBAL,
    CONFIDENCE_CLIENT_UNIQUE_LOAD, CONFIDENCE_COMPUTED, CONFIDENCE_CROSS_LANGUAGE,
    CONFIDENCE_DEF_USE, CONFIDENCE_OWN_OR_DIRECT, CONFIDENCE_TRANSITIVE,
};
use meta_call_lsp::buffers::{BufferStore, OpenOutcome};
use meta_call_lsp::convert::path_to_uri;
use meta_call_lsp::handlers::complete::{identifier_prefix, tier_rank, Prefix, CAP_COMPLETION};
use meta_call_lsp::handlers::goto::{order_sites, ReferenceSite, CAP_REFERENCES};
use meta_call_lsp::handlers::symbol::{match_query, match_tier, MatchTier, CAP_WORKSPACE_SYMBOLS};
use meta_call_lsp::handlers::{
    completion_at, definition_at, diagnostics_for, document_symbols, hover_at, references_at,
    workspace_symbols, QueryCtx,
};
use meta_call_lsp::index::query::{dedup_targets, resolve_targets, symbol_at};
use meta_call_lsp::index::snapshot::{
    collect_inputs, finish_snapshot, overlay_versions, ChangeCounts, Reindexer,
};
use meta_call_lsp::index::{
    Analysis, ContentHash, IndexSnapshot, Occurrence, PathVersion, SourceText,
};
use meta_call_lsp::model::{
    CallSite, CallSiteVariant, Confidence, ConfidenceTier, Diagnostic, FileExtraction, FileNode,
    FileScope, Fingerprint, LangId, LineColumn, Overlay, ReferenceEdge, ResolvedClientCall,
    ResolvedReference, ScopeName, Severity, SourceRange, Symbol, SymbolKind, Target,
    UnresolvedReference,
};
use meta_call_lsp::path::DocPath;
use meta_call_lsp::position::{Encoding, LineIndex};
use meta_call_lsp::protocol::{Definition, Location, Position, Range};
use meta_call_lsp::types::{DocUri, DocVersion, RootDir};

const APP: &str =
    "def greet(name):\n    \"\"\"Say hi.\"\"\"\n    return name\n\n\nresult = greet(\"x\")\n";
const TS: &str = "export function add(a: number, b: number): number {\n  return a + b;\n}\n";
const EMOJI_TS: &str =
    "const snake = \"\u{1f40d}\"; function add(a: number, b: number): number { return a + b; }\n";
const UTIL: &str = "def helper(value):\n    return value\n";
const APP_IMPORT: &str = "from util import helper\n\n\ndef run():\n    return helper(1)\n";

fn path(text: &str) -> DocPath {
    DocPath::new(text.to_string())
}

fn doc_uri(value: &str) -> DocUri {
    DocUri::try_from(value).expect("document URI")
}

fn uri_of(text: &str) -> DocUri {
    doc_uri(path_to_uri(&path(text)).expect("uri").as_str())
}

fn pos(line: u32, character: u32) -> Position {
    Position { line, character }
}

/// The engine's confidence as the library holds it: ranks grow with the value.
fn confidence(value: f32) -> Confidence {
    let tier = match meta_ast::confidence_tier(value) {
        meta_ast::ConfidenceTier::OwnOrDirect => ConfidenceTier::OwnOrDirect,
        meta_ast::ConfidenceTier::DefUse => ConfidenceTier::DefUse,
        meta_ast::ConfidenceTier::Transitive => ConfidenceTier::Transitive,
        meta_ast::ConfidenceTier::CrossLanguage => ConfidenceTier::CrossLanguage,
        meta_ast::ConfidenceTier::ClientMultiGlobal => ConfidenceTier::ClientMultiGlobal,
        meta_ast::ConfidenceTier::Computed => ConfidenceTier::Computed,
        meta_ast::ConfidenceTier::Unknown => ConfidenceTier::Unknown,
    };
    Confidence {
        rank: value.to_bits(),
        tier,
    }
}

fn target(id: u32, value: f32) -> Target {
    Target {
        id,
        confidence: confidence(value),
    }
}

fn place(text: &str, byte: usize) -> LineColumn {
    let before = &text[..byte];
    LineColumn {
        line: before.matches('\n').count(),
        column: byte - before.rfind('\n').map_or(0, |at| at + 1),
    }
}

fn span(text: &str, start: usize, end: usize) -> SourceRange {
    SourceRange {
        byte_start: start,
        byte_end: end,
        start: place(text, start),
        end: place(text, end),
    }
}

/// The n-th occurrence of a text.
fn nth(text: &str, needle: &str, n: usize) -> usize {
    text.match_indices(needle)
        .nth(n)
        .expect("needle in text")
        .0
}

fn empty() -> Analysis {
    Analysis {
        extractions: vec![],
        references: vec![],
        client_calls: vec![],
        edges: vec![],
        files: vec![],
        scope: vec![],
        diagnostics: vec![],
        content_hashes: vec![],
        versions: vec![],
        generation: 1,
    }
}

/// A workspace as the engine would report it.
struct Workspace {
    data: Analysis,
    texts: Vec<String>,
    next_id: u32,
}

impl Workspace {
    fn new() -> Self {
        Workspace {
            data: empty(),
            texts: vec![],
            next_id: 1,
        }
    }

    fn file(&mut self, name: &str, text: &str) -> usize {
        let at = self.texts.len();
        self.texts.push(text.to_string());
        self.data.extractions.push(FileExtraction {
            path: path(name),
            symbols: vec![],
            references: vec![],
            call_sites: vec![],
        });
        let file_id = at as u32 + 1;
        self.data.files.push(FileNode {
            id: file_id,
            path: path(name),
        });
        self.data.scope.push(FileScope {
            file_id,
            names: vec![],
        });
        at
    }

    fn symbol(&mut self, file: usize, declaration: &str, name: &str) -> u32 {
        let text = self.texts[file].clone();
        let start = nth(&text, declaration, 0);
        let named = start + nth(declaration, name, 0);
        let id = self.next_id;
        self.next_id += 1;
        let file_path = self.data.extractions[file].path.clone();
        self.data.extractions[file].symbols.push(Symbol {
            id,
            name: name.to_string(),
            kind: SymbolKind::Function,
            language: LangId::Python,
            file_path,
            source_range: span(&text, start, start + declaration.len()),
            name_range: Some(span(&text, named, named + name.len())),
            signature: None,
            docstring: None,
        });
        id
    }

    /// The n-th mention of a name is a use.
    fn reference(&mut self, file: usize, name: &str, n: usize) -> SourceRange {
        let text = &self.texts[file];
        let start = nth(text, name, n);
        let range = span(text, start, start + name.len());
        self.data.extractions[file]
            .references
            .push(UnresolvedReference {
                name: name.to_string(),
                range,
            });
        range
    }

    fn record(&mut self, file: usize, range: SourceRange, target: Target) {
        let file_path = self.data.extractions[file].path.clone();
        self.data.references.push(ResolvedReference {
            file_path,
            range,
            target,
        });
    }

    fn scope(&mut self, file: usize, name: &str, targets: Vec<Target>) {
        self.data.scope[file].names.push(ScopeName {
            name: name.to_string(),
            targets,
        });
    }

    fn call(&mut self, file: usize, site: &str, name: &str, targets: Vec<Target>) -> SourceRange {
        let text = &self.texts[file];
        let start = nth(text, site, 0);
        let range = span(text, start, start + site.len());
        self.data.extractions[file].call_sites.push(CallSite {
            variant: CallSiteVariant::ClientCall,
            function_name: Some(name.to_string()),
            source_range: Some(range),
        });
        let source_file = self.data.extractions[file].path.clone();
        for target in targets {
            self.data.client_calls.push(ResolvedClientCall {
                source_file: source_file.clone(),
                source_range: Some(range),
                target,
            });
        }
        range
    }

    fn edge(&mut self, source: u32, target: Target) {
        self.data.edges.push(ReferenceEdge { source, target });
    }

    fn build(self) -> (IndexSnapshot, Sources) {
        let mut texts = HashMap::new();
        for (file, text) in self.data.extractions.iter().zip(self.texts) {
            texts.insert(file.path.as_str().to_string(), text);
        }
        (
            IndexSnapshot::new(self.data),
            Sources {
                texts,
                reads: Cell::new(0),
            },
        )
    }
}

/// Test source lookup that counts its reads.
struct Sources {
    texts: HashMap<String, String>,
    reads: Cell<usize>,
}

impl SourceText for Sources {
    fn source(&self, path: &DocPath) -> Option<String> {
        self.reads.set(self.reads.get() + 1);
        self.texts.get(path.as_str()).cloned()
    }
}

/// `a.py` declares `greet` and uses it at module level; `b.ts` declares `add`.
fn workspace() -> (IndexSnapshot, Sources) {
    let mut ws = Workspace::new();
    let app = ws.file("/w/a.py", APP);
    let ts = ws.file("/w/b.ts", TS);
    let greet = ws.symbol(
        app,
        "def greet(name):\n    \"\"\"Say hi.\"\"\"\n    return name\n",
        "greet",
    );
    ws.reference(app, "greet", 1);
    ws.scope(app, "greet", vec![target(greet, 1.0)]);
    let add = ws.symbol(
        ts,
        "function add(a: number, b: number): number {\n  return a + b;\n}",
        "add",
    );
    ws.scope(ts, "add", vec![target(add, 1.0)]);
    ws.build()
}

fn ctx<'a>(snapshot: &'a IndexSnapshot, sources: &'a Sources) -> QueryCtx<'a, Sources> {
    QueryCtx::new(snapshot, sources, Encoding::Utf16)
}

fn definition_locations(
    snapshot: &IndexSnapshot,
    sources: &Sources,
    uri: &DocUri,
    position: Position,
) -> Vec<(String, Range)> {
    match definition_at(&mut ctx(snapshot, sources), uri, position, false) {
        Some(Definition::Array(locations)) => locations
            .into_iter()
            .map(|location| (location.uri, location.range))
            .collect(),
        Some(other) => panic!("expected plain locations, got {other:?}"),
        None => Vec::new(),
    }
}

fn order(locations: &[Location]) -> Vec<(String, u32)> {
    locations
        .iter()
        .map(|location| (location.uri.clone(), location.range.start.line))
        .collect()
}

// ---------------------------------------------------------------------------
// Handlers

#[test]
fn confidence_tiers_use_exact_ladder_values() {
    let rank = |value: f32| tier_rank(confidence(value).tier);
    assert_eq!(rank(CONFIDENCE_OWN_OR_DIRECT), 0);
    assert_eq!(rank(CONFIDENCE_DEF_USE), 0);
    assert_eq!(rank(CONFIDENCE_CLIENT_UNIQUE_LOAD), 0);
    assert_eq!(rank(CONFIDENCE_TRANSITIVE), 1);
    assert_eq!(rank(CONFIDENCE_CLIENT_MULTI_LOAD), 1);
    assert_eq!(rank(CONFIDENCE_CROSS_LANGUAGE), 2);
    assert_eq!(rank(CONFIDENCE_CLIENT_UNIQUE_GLOBAL), 2);
    assert_eq!(rank(CONFIDENCE_CLIENT_MULTI_GLOBAL), 2);
    assert_eq!(rank(CONFIDENCE_COMPUTED), 3);
}

#[test]
fn unknown_confidence_lands_in_the_last_tier() {
    let rank = |value: f32| tier_rank(confidence(value).tier);
    assert_eq!(
        rank(0.7),
        3,
        "a value outside the ladder must not land between two tiers"
    );
    assert_eq!(rank(0.0), 3);
    assert_eq!(rank(1.5), 3);
}

#[test]
fn prefixes_match_by_case_or_without() {
    let prefix = Prefix::new("Gr".to_string());
    assert!(prefix.matches("Great", true));
    assert!(!prefix.matches("great", true));
    assert!(prefix.matches("great", false));
    assert!(!prefix.matches("agr", false));
    let umlaut = Prefix::new("Ä".to_string());
    assert!(umlaut.matches("ärger", false));
    assert!(Prefix::new(String::new()).matches("anything", true));
}

#[test]
fn the_identifier_before_the_cursor_is_the_prefix() {
    let text = "a.föö_1 = bar";
    let end = text.find(" =").unwrap();
    assert_eq!(identifier_prefix(text, end), "föö_1");
    assert_eq!(identifier_prefix(text, 2), "");
    assert_eq!(identifier_prefix(text, 1), "a");
    assert_eq!(identifier_prefix(text, text.len()), "bar");
    assert_eq!(identifier_prefix(text, 0), "");
}

#[test]
fn untitled_uri_reports_no_diagnostics() {
    let (snapshot, sources) = Workspace::new().build();
    let untitled = DocUri::try_from("untitled:buffer.py").expect("document URI");
    assert!(diagnostics_for(&mut ctx(&snapshot, &sources), &untitled).is_empty());
}

fn site(text: &str, byte: usize) -> ReferenceSite {
    ReferenceSite {
        path: path(text),
        byte,
        location: Location {
            uri: "file:///a.py".to_string(),
            range: Range {
                start: pos(0, 0),
                end: pos(0, 0),
            },
        },
    }
}

#[test]
fn reference_sites_order_by_path_then_byte() {
    let sites = vec![
        site("/w/a.py", 4),
        site("/w/b.py", 9),
        site("/w/a.py", 12),
        site("/w/a.py", 3),
    ];

    let sites = order_sites(sites);

    let order: Vec<(&str, usize)> = sites
        .iter()
        .map(|site| (site.path.as_str(), site.byte))
        .collect();
    assert_eq!(
        order,
        vec![
            ("/w/a.py", 3),
            ("/w/a.py", 4),
            ("/w/a.py", 12),
            ("/w/b.py", 9)
        ]
    );
}

#[test]
fn duplicate_use_sites_collapse_to_one_entry() {
    let sites = order_sites(vec![
        site("/w/a.py", 4),
        site("/w/a.py", 4),
        site("/w/a.py", 9),
    ]);

    assert_eq!(sites.len(), 2);
    assert_eq!(sites[0].byte, 4);
    assert_eq!(sites[1].byte, 9);
}

#[test]
fn match_tiers_are_exact_then_substring() {
    let tier = |name: &str, query: &str| match_tier(name, query, &query.to_lowercase());
    assert_eq!(tier("greet", "greet"), Some(MatchTier::Exact));
    assert_eq!(tier("greeting", "greet"), Some(MatchTier::Substring));
    assert_eq!(tier("GREETING", "greet"), Some(MatchTier::Substring));
    assert_eq!(tier("greet", ""), Some(MatchTier::Exact));
    assert_eq!(tier("greet", "grt"), None);
    assert!(MatchTier::Exact < MatchTier::Substring);
}

#[test]
fn queries_match_without_case() {
    assert_eq!(match_query("naïve", "NAÏVE"), Some(MatchTier::Substring));
    assert_eq!(match_query("Naïve", "Naïve"), Some(MatchTier::Exact));
    assert_eq!(match_query("x", "xx"), None);
}

#[test]
fn document_symbols_lists_file_symbols() {
    let (snapshot, sources) = workspace();
    let symbols = document_symbols(&mut ctx(&snapshot, &sources), &uri_of("/w/a.py"));
    let greet = symbols
        .iter()
        .find(|symbol| symbol.name == "greet")
        .expect("greet symbol");
    assert_eq!(
        greet.selection_range,
        Range {
            start: pos(0, 4),
            end: pos(0, 9),
        },
        "selectionRange names the identifier, not the declaration"
    );
    assert_eq!(
        greet.range.start,
        pos(0, 0),
        "range still covers the whole declaration"
    );
}

#[test]
fn a_symbol_without_a_captured_name_selects_itself() {
    let mut ws = Workspace::new();
    let app = ws.file("/w/a.py", APP);
    ws.symbol(app, "def greet(name):", "greet");
    ws.data.extractions[0].symbols[0].name_range = None;
    let (snapshot, sources) = ws.build();
    let symbols = document_symbols(&mut ctx(&snapshot, &sources), &uri_of("/w/a.py"));
    assert_eq!(symbols[0].selection_range, symbols[0].range);
}

#[test]
fn definition_links_select_the_identifier() {
    let (snapshot, sources) = workspace();
    let uri = uri_of("/w/a.py");

    let response = definition_at(&mut ctx(&snapshot, &sources), &uri, pos(5, 10), true);

    let Some(Definition::Link(links)) = response else {
        panic!("link support yields location links");
    };
    assert_eq!(links.len(), 1);
    let link = &links[0];
    assert_eq!(link.target_selection_range.start, pos(0, 4));
    assert_eq!(link.target_selection_range.end, pos(0, 9));
    assert_eq!(link.target_range.start, pos(0, 0));
    assert!(
        link.target_range.end.line > link.target_selection_range.end.line,
        "the target range covers the declaration, the selection only the name: {link:?}"
    );
}

#[test]
fn hover_shows_signature() {
    let (snapshot, sources) = workspace();
    let hover = hover_at(
        &mut ctx(&snapshot, &sources),
        &uri_of("/w/a.py"),
        pos(0, 5),
    )
    .unwrap();
    assert!(hover.value.contains("greet"));
    assert!(
        hover.value.contains("(function)"),
        "the kind renders as a fixed word, not engine debug text: {}",
        hover.value
    );
    assert_eq!(hover.value, "**greet** (function)\n\n```python\ngreet\n```");
    assert_eq!(hover.range.start, pos(0, 0));
}

#[test]
fn hover_adds_the_signature_and_the_documentation() {
    let mut ws = Workspace::new();
    let app = ws.file("/w/a.py", APP);
    ws.symbol(app, "def greet(name):", "greet");
    let symbol = &mut ws.data.extractions[0].symbols[0];
    symbol.signature = Some("def greet(name)".to_string());
    symbol.docstring = Some("Say hi.".to_string());
    symbol.kind = SymbolKind::TypeAlias;
    let (snapshot, sources) = ws.build();
    let hover = hover_at(
        &mut ctx(&snapshot, &sources),
        &uri_of("/w/a.py"),
        pos(0, 0),
    )
    .unwrap();
    assert_eq!(
        hover.value,
        "**greet** (type alias)\n\n```python\ndef greet(name)\n```\n\nSay hi."
    );
}

#[test]
fn definition_resolves_reference_to_def() {
    let (snapshot, sources) = workspace();
    let uri = uri_of("/w/a.py");
    let locations = definition_locations(&snapshot, &sources, &uri, pos(5, 10));
    assert_eq!(locations.len(), 1);
    assert_eq!(locations[0].0, uri.as_str());
    assert_eq!(locations[0].1.start.line, 0);
}

#[test]
fn unknown_uri_returns_empty() {
    let (snapshot, sources) = workspace();
    let missing = doc_uri("file:///missing.py");
    assert!(document_symbols(&mut ctx(&snapshot, &sources), &missing).is_empty());
    assert!(hover_at(&mut ctx(&snapshot, &sources), &missing, pos(0, 0)).is_none());
    assert!(definition_locations(&snapshot, &sources, &missing, pos(0, 0)).is_empty());
    assert!(references_at(&mut ctx(&snapshot, &sources), &missing, pos(0, 0), true).is_empty());
    assert!(completion_at(&mut ctx(&snapshot, &sources), &missing, pos(0, 0)).is_empty());
}

#[test]
fn ranges_follow_negotiated_encoding() {
    let mut ws = Workspace::new();
    let ts = ws.file("/w/c.ts", EMOJI_TS);
    ws.symbol(
        ts,
        "function add(a: number, b: number): number { return a + b; }",
        "add",
    );
    let (snapshot, sources) = ws.build();
    let uri = uri_of("/w/c.ts");

    let utf8 = document_symbols(
        &mut QueryCtx::new(&snapshot, &sources, Encoding::Utf8),
        &uri,
    );
    let utf16 = document_symbols(
        &mut QueryCtx::new(&snapshot, &sources, Encoding::Utf16),
        &uri,
    );
    assert_eq!(utf8[0].range.start.character, 22);
    assert_eq!(utf16[0].range.start.character, 20);

    assert!(hover_at(
        &mut QueryCtx::new(&snapshot, &sources, Encoding::Utf16),
        &uri,
        pos(0, 20)
    )
    .is_some());
    assert!(hover_at(
        &mut QueryCtx::new(&snapshot, &sources, Encoding::Utf8),
        &uri,
        pos(0, 22)
    )
    .is_some());
}

/// `util.py` declares `helper`; `app.py` imports it and calls it in `run`.
fn util_and_app(app_text: &str, uses: usize) -> (IndexSnapshot, Sources) {
    let mut ws = Workspace::new();
    let app = ws.file("/w/app.py", app_text);
    let util = ws.file("/w/util.py", UTIL);
    let run = ws.symbol(app, &app_text[nth(app_text, "def run", 0)..], "run");
    let helper = ws.symbol(util, UTIL, "helper");
    for n in 0..uses {
        let range = ws.reference(app, "helper", n + 1);
        ws.record(app, range, target(helper, 1.0));
    }
    ws.edge(run, target(helper, 1.0));
    ws.build()
}

#[test]
fn cross_file_definition_and_references() {
    let (snapshot, sources) = util_and_app(APP_IMPORT, 1);

    let locations = definition_locations(&snapshot, &sources, &uri_of("/w/app.py"), pos(4, 13));
    assert_eq!(locations.len(), 1);
    assert_eq!(locations[0].0, uri_of("/w/util.py").as_str());
    assert_eq!(locations[0].1.start.line, 0);

    // The per-request cache must read each distinct file once.
    sources.reads.set(0);
    let references = references_at(
        &mut ctx(&snapshot, &sources),
        &uri_of("/w/util.py"),
        pos(0, 6),
        true,
    );
    assert!(references
        .iter()
        .any(|location| location.uri == uri_of("/w/app.py").as_str()));
    assert!(references
        .iter()
        .any(|location| location.uri == uri_of("/w/util.py").as_str()));
    assert_eq!(sources.reads.get(), 2);
}

#[test]
fn repeated_references_collapse_to_one_edge() {
    let text = "from util import helper\n\n\ndef run():\n    a = helper(1)\n    b = helper(2)\n    return a + b\n";
    let (snapshot, sources) = util_and_app(text, 2);
    let id = |name: &str| {
        snapshot
            .symbols()
            .into_iter()
            .find(|symbol| symbol.name == name)
            .expect("symbol")
            .id
    };
    let targets: Vec<Target> = snapshot
        .references_out(id("run"))
        .into_iter()
        .filter(|target| target.id == id("helper"))
        .collect();
    assert_eq!(targets.len(), 1, "two use sites must collapse to one edge");
    assert_eq!(targets[0].confidence, confidence(1.0));

    let references = references_at(
        &mut ctx(&snapshot, &sources),
        &uri_of("/w/util.py"),
        pos(0, 6),
        true,
    );
    assert_eq!(
        references.len(),
        3,
        "declaration plus one location per use site"
    );
}

#[test]
fn references_point_at_each_call_site() {
    let text = "from util import helper\n\n\ndef run():\n    a = helper(1)\n    b = helper(2)\n    return a + b\n";
    let (snapshot, sources) = util_and_app(text, 2);
    let references = references_at(
        &mut ctx(&snapshot, &sources),
        &uri_of("/w/util.py"),
        pos(0, 6),
        false,
    );
    let mut app_lines: Vec<u32> = references
        .iter()
        .filter(|location| location.uri == uri_of("/w/app.py").as_str())
        .map(|location| location.range.start.line)
        .collect();
    app_lines.sort_unstable();
    assert_eq!(
        app_lines,
        vec![4, 5],
        "one precise location per call site, on the calling lines"
    );
}

#[test]
fn references_put_the_declaration_first_only_when_requested() {
    let (snapshot, sources) = util_and_app(APP_IMPORT, 1);
    let uri = uri_of("/w/util.py");

    let with_declaration = references_at(&mut ctx(&snapshot, &sources), &uri, pos(0, 6), true);
    let without_declaration = references_at(&mut ctx(&snapshot, &sources), &uri, pos(0, 6), false);

    assert_eq!(
        order(&with_declaration),
        [
            (uri.as_str().to_string(), 0),
            (uri_of("/w/app.py").as_str().to_string(), 4)
        ],
        "the declaration is the first result when requested"
    );
    assert_eq!(
        order(&without_declaration),
        [(uri_of("/w/app.py").as_str().to_string(), 4)],
        "only use sites remain when the declaration is not requested"
    );
}

#[test]
fn references_order_by_path_then_byte() {
    let mid_text = "from util import helper\n\n\ndef wrapper():\n    return helper(1)\n";
    let far_text = "from mid import wrapper\n\n\ndef run():\n    return helper(2)\n";
    let mut ws = Workspace::new();
    let util = ws.file("/w/util.py", UTIL);
    let mid = ws.file("/w/mid.py", mid_text);
    let far = ws.file("/w/far.py", far_text);
    let helper = ws.symbol(util, UTIL, "helper");
    let direct = ws.reference(mid, "helper", 1);
    ws.record(mid, direct, target(helper, 1.0));
    let transitive = ws.reference(far, "helper", 0);
    ws.record(far, transitive, target(helper, 0.8));
    let (snapshot, sources) = ws.build();

    assert_eq!(
        snapshot.occurrences_of(helper).len(),
        2,
        "both the direct and the transitive use site are indexed"
    );
    let references = references_at(
        &mut ctx(&snapshot, &sources),
        &uri_of("/w/util.py"),
        pos(0, 6),
        true,
    );
    assert_eq!(
        order(&references),
        [
            (uri_of("/w/util.py").as_str().to_string(), 0),
            (uri_of("/w/far.py").as_str().to_string(), 4),
            (uri_of("/w/mid.py").as_str().to_string(), 4),
        ]
    );
}

#[test]
fn references_are_capped() {
    let count = CAP_REFERENCES + 5;
    let text = "f ".repeat(count) + "def f";
    let mut ws = Workspace::new();
    let app = ws.file("/w/a.py", &text);
    let f = ws.symbol(app, "def f", "f");
    for n in 0..count {
        let range = span(&text, 2 * n, 2 * n + 1);
        ws.data.extractions[0].references.push(UnresolvedReference {
            name: "f".to_string(),
            range,
        });
    }
    ws.scope(app, "f", vec![target(f, 1.0)]);
    let (snapshot, sources) = ws.build();
    let references = references_at(
        &mut ctx(&snapshot, &sources),
        &uri_of("/w/a.py"),
        pos(0, 0),
        true,
    );
    assert_eq!(references.len(), CAP_REFERENCES);
    assert_eq!(references[0].range.start, pos(0, 2 * count as u32));
    assert_eq!(references[1].range.start, pos(0, 0));
}

#[test]
fn workspace_symbols_read_each_file_once() {
    let mut ws = Workspace::new();
    let alpha_beta = ws.file(
        "/w/alpha_beta.py",
        "def alpha(): pass\n\n\ndef beta(): pass\n",
    );
    let gamma = ws.file("/w/gamma.py", "def gamma(): pass\n");
    ws.symbol(alpha_beta, "def alpha(): pass", "alpha");
    ws.symbol(alpha_beta, "def beta(): pass", "beta");
    ws.symbol(gamma, "def gamma(): pass", "gamma");
    let (snapshot, sources) = ws.build();

    let symbols = workspace_symbols(&mut ctx(&snapshot, &sources), "");
    let mut names: Vec<&str> = symbols.iter().map(|symbol| symbol.name.as_str()).collect();
    names.sort_unstable();
    assert_eq!(names, ["alpha", "beta", "gamma"]);
    assert_eq!(sources.reads.get(), 2);
}

#[test]
fn workspace_symbols_filter_by_query() {
    let (snapshot, sources) = workspace();

    let all = workspace_symbols(&mut ctx(&snapshot, &sources), "");
    assert!(all.iter().any(|symbol| symbol.name == "greet"));
    assert!(all.iter().any(|symbol| symbol.name == "add"));

    let filtered = workspace_symbols(&mut ctx(&snapshot, &sources), "gre");
    assert_eq!(filtered.len(), 1);
    assert_eq!(filtered[0].name, "greet");
}

#[test]
fn workspace_symbols_match_exactly_then_by_substring() {
    let mut ws = Workspace::new();
    let a = ws.file("/w/a.py", "def greeting(): pass\n");
    let z = ws.file("/w/z.py", "def greet(): pass\n");
    ws.symbol(a, "def greeting(): pass", "greeting");
    ws.symbol(z, "def greet(): pass", "greet");
    let (snapshot, sources) = ws.build();

    let matched = workspace_symbols(&mut ctx(&snapshot, &sources), "greet");
    let names: Vec<&str> = matched.iter().map(|symbol| symbol.name.as_str()).collect();
    assert_eq!(
        names,
        ["greet", "greeting"],
        "the exact name outranks the substring match even though a.py sorts first"
    );
}

#[test]
fn workspace_symbols_have_no_fuzzy_tier() {
    let (snapshot, sources) = workspace();
    let matched = workspace_symbols(&mut ctx(&snapshot, &sources), "grt");
    assert!(
        matched.is_empty(),
        "a non-contiguous query must not match, got {matched:?}"
    );
}

#[test]
fn workspace_symbols_match_non_ascii_case_insensitively() {
    let mut ws = Workspace::new();
    let file = ws.file("/w/naive.py", "def naïve(): pass\n");
    ws.symbol(file, "def naïve(): pass", "naïve");
    let (snapshot, sources) = ws.build();

    let matched = workspace_symbols(&mut ctx(&snapshot, &sources), "NAÏVE");

    assert_eq!(matched.len(), 1);
    assert_eq!(matched[0].name, "naïve");
}

#[test]
fn workspace_symbols_empty_query_returns_all_in_documented_order() {
    let mut ws = Workspace::new();
    let b = ws.file("/w/b.py", "def beta(): pass\n");
    let a = ws.file("/w/a.py", "def zeta(): pass\n\n\ndef alpha(): pass\n");
    ws.symbol(b, "def beta(): pass", "beta");
    ws.symbol(a, "def zeta(): pass", "zeta");
    ws.symbol(a, "def alpha(): pass", "alpha");
    let (snapshot, sources) = ws.build();

    let symbols = workspace_symbols(&mut ctx(&snapshot, &sources), "");

    let order: Vec<&str> = symbols.iter().map(|symbol| symbol.name.as_str()).collect();
    assert_eq!(
        order,
        ["zeta", "alpha", "beta"],
        "the empty query returns the whole set in (path, byte) order"
    );
    assert_eq!(symbols[0].location.uri, uri_of("/w/a.py").as_str());
}

#[test]
fn workspace_symbols_are_capped_after_ordering() {
    let count = CAP_WORKSPACE_SYMBOLS + 3;
    let text = "d".repeat(count);
    let mut ws = Workspace::new();
    let late = ws.file("/w/z.py", &text);
    for n in 0..count {
        ws.symbol(late, "d", "d");
        ws.data.extractions[late].symbols[n].source_range = span(&text, n, n + 1);
    }
    let early = ws.file("/w/a.py", "d");
    ws.symbol(early, "d", "d");
    let (snapshot, sources) = ws.build();
    let symbols = workspace_symbols(&mut ctx(&snapshot, &sources), "");
    assert_eq!(symbols.len(), CAP_WORKSPACE_SYMBOLS);
    assert_eq!(symbols[0].location.uri, uri_of("/w/a.py").as_str());
    assert_eq!(symbols[1].location.range.start, pos(0, 0));
}

#[test]
fn a_symbol_without_an_address_is_left_out() {
    let mut ws = Workspace::new();
    let a = ws.file("relative.py", "def alpha(): pass\n");
    ws.symbol(a, "def alpha(): pass", "alpha");
    let (snapshot, sources) = ws.build();
    assert!(workspace_symbols(&mut ctx(&snapshot, &sources), "").is_empty());
}

#[test]
fn completion_lists_visible_symbols() {
    let (snapshot, sources) = workspace();

    // Cursor after `def gre` on line 0: prefix "gre".
    let items = completion_at(
        &mut ctx(&snapshot, &sources),
        &uri_of("/w/a.py"),
        pos(0, 7),
    );
    assert!(items.iter().any(|item| item.label == "greet"));
    assert!(items
        .iter()
        .all(|item| item.sort_text.starts_with(['0', '1', '2', '3'])));
}

#[test]
fn completion_matches_case_insensitively_when_exact_matches_are_absent() {
    let text = "def GREET(): pass\n\n\ndef use_greeting():\n    selection = gre\n";
    let mut ws = Workspace::new();
    let app = ws.file("/w/cased.py", text);
    let upper = ws.symbol(app, "def GREET(): pass", "GREET");
    ws.scope(app, "GREET", vec![target(upper, 1.0)]);
    let (snapshot, sources) = ws.build();

    for column in [15, 19] {
        let items = completion_at(
            &mut ctx(&snapshot, &sources),
            &uri_of("/w/cased.py"),
            pos(4, column),
        );
        let item = items
            .iter()
            .find(|item| item.label == "GREET")
            .expect("case-insensitive completion");
        assert_eq!(item.sort_text, "0GREET");
    }
}

#[test]
fn only_client_calls_answer_the_cursor() {
    let text = "metacall_load_from_file(1)\n";
    let mut ws = Workspace::new();
    let file = ws.file("/w/a.py", text);
    let id = ws.symbol(file, text, "metacall");
    let range = ws.call(file, "metacall_load_from_file(1)", "x", vec![target(id, 1.0)]);
    ws.data.extractions[file].call_sites[0].variant = CallSiteVariant::LoadFromFile;
    let (snapshot, _) = ws.build();
    let targets = resolve_targets(&snapshot, &uri_of("/w/a.py"), range.byte_start);
    assert_eq!(targets.len(), 1);
    assert!(targets[0].origin.is_none(), "the declaration answers");
}

#[test]
fn completion_prefers_names_that_match_in_case() {
    let text = "gre\n";
    let mut ws = Workspace::new();
    let app = ws.file("/w/a.py", text);
    let lower = ws.symbol(app, "gre", "gre");
    let upper = ws.symbol(app, "gre", "gre");
    ws.scope(app, "GREat", vec![target(upper, 1.0)]);
    ws.scope(app, "great", vec![target(lower, 1.0)]);
    let (snapshot, sources) = ws.build();
    let items = completion_at(
        &mut ctx(&snapshot, &sources),
        &uri_of("/w/a.py"),
        pos(0, 3),
    );
    let labels: Vec<&str> = items.iter().map(|item| item.label.as_str()).collect();
    assert_eq!(labels, ["great"]);
}

#[test]
fn completion_orders_by_tier_then_name() {
    let text = "def f(): pass\n\n";
    let mut ws = Workspace::new();
    let app = ws.file("/w/a.py", text);
    let f = ws.symbol(app, "def f(): pass", "f");
    let ids: Vec<u32> = (0..5).map(|_| ws.symbol(app, "def f(): pass", "f")).collect();
    ws.scope(app, "zeta", vec![target(ids[0], 1.0)]);
    ws.scope(app, "eta", vec![target(ids[1], 0.8)]);
    ws.scope(app, "beta", vec![target(ids[2], 0.6), target(999, 1.0)]);
    ws.scope(app, "alpha", vec![target(ids[3], 1.0)]);
    ws.scope(app, "again", vec![target(ids[0], 0.4)]);
    ws.edge(f, target(ids[4], 0.4));
    let (snapshot, sources) = ws.build();
    let items = completion_at(
        &mut ctx(&snapshot, &sources),
        &uri_of("/w/a.py"),
        pos(1, 0),
    );
    let labels: Vec<&str> = items
        .iter()
        .map(|item| item.sort_text.as_str())
        .collect();
    assert_eq!(
        labels,
        ["0alpha", "0zeta", "1eta", "2beta"],
        "a target is offered once, and an unknown one not at all"
    );
    let inside = completion_at(
        &mut ctx(&snapshot, &sources),
        &uri_of("/w/a.py"),
        pos(0, 0),
    );
    assert!(inside.iter().any(|item| item.sort_text == "3f"));
}

#[test]
fn completion_is_capped() {
    let count = CAP_COMPLETION + 2;
    let text = "d".repeat(count) + "\n";
    let mut ws = Workspace::new();
    let app = ws.file("/w/a.py", &text);
    for n in 0..count {
        let id = ws.symbol(app, "d", "d");
        ws.scope(app, &format!("n{n:05}"), vec![target(id, 1.0)]);
    }
    let (snapshot, sources) = ws.build();
    let items = completion_at(
        &mut ctx(&snapshot, &sources),
        &uri_of("/w/a.py"),
        pos(1, 0),
    );
    assert_eq!(items.len(), CAP_COMPLETION);
    assert_eq!(items[0].label, "n00000");
    assert_eq!(items[0].filter_text, "n00000");
}

// ---------------------------------------------------------------------------
// Client calls

const MIXED_JS: &str = "'use strict';\n\nfunction multiply(a, b) {\n\treturn a * b;\n}\n\nmodule.exports = { multiply };\n";
const MIXED_PY: &str = "from metacall import metacall, metacall_load_from_file\n\nmetacall_load_from_file(\"node\", [\"math.js\"])\n\n\ndef compute_total(units, price):\n    return metacall(\"multiply\", units, price)\n";

#[test]
fn metacall_cross_language_definition_and_references() {
    let mut ws = Workspace::new();
    let js = ws.file("/w/math.js", MIXED_JS);
    let py = ws.file("/w/orchestrator.py", MIXED_PY);
    let multiply = ws.symbol(js, "function multiply(a, b) {\n\treturn a * b;\n}", "multiply");
    let total = ws.symbol(
        py,
        "def compute_total(units, price):\n    return metacall(\"multiply\", units, price)\n",
        "compute_total",
    );
    ws.call(
        py,
        "metacall(\"multiply\", units, price)",
        "multiply",
        vec![target(multiply, 1.0)],
    );
    ws.edge(total, target(multiply, 1.0));
    let (snapshot, sources) = ws.build();

    let locations =
        definition_locations(&snapshot, &sources, &uri_of("/w/orchestrator.py"), pos(6, 25));
    assert_eq!(locations.len(), 1);
    assert_eq!(locations[0].0, uri_of("/w/math.js").as_str());
    assert_eq!(locations[0].1.start.line, 2);

    let references = references_at(
        &mut ctx(&snapshot, &sources),
        &uri_of("/w/math.js"),
        pos(2, 12),
        true,
    );
    assert!(references
        .iter()
        .any(|location| location.uri == uri_of("/w/orchestrator.py").as_str()));

    // The cursor sits after "mu", so completion offers the cross-language target.
    let items = completion_at(
        &mut ctx(&snapshot, &sources),
        &uri_of("/w/orchestrator.py"),
        pos(6, 23),
    );
    assert!(items.iter().any(|item| item.label == "multiply"));
}

#[test]
fn an_ambiguous_client_call_indexes_each_use_site_once() {
    let py_text = "from metacall import metacall\n\n\ndef compute_total(units, price):\n    return metacall(\"multiply\", units, price)\n";
    let mut ws = Workspace::new();
    let helpers = ws.file("/w/helpers.js", MIXED_JS);
    let py = ws.file("/w/orchestrator.py", py_text);
    let utils = ws.file("/w/utils.js", MIXED_JS);
    let declaration = "function multiply(a, b) {\n\treturn a * b;\n}";
    let one = ws.symbol(helpers, declaration, "multiply");
    let two = ws.symbol(utils, declaration, "multiply");
    ws.call(
        py,
        "metacall(\"multiply\", units, price)",
        "multiply",
        vec![target(one, 0.5), target(two, 0.5)],
    );
    let (snapshot, sources) = ws.build();
    for id in [one, two] {
        let sites = snapshot.occurrences_of(id);
        assert_eq!(
            sites.len(),
            1,
            "the call site is one use site per target, got {sites:?}"
        );
    }
    let locations =
        definition_locations(&snapshot, &sources, &uri_of("/w/orchestrator.py"), pos(4, 25));
    assert_eq!(locations.len(), 2);
}

/// A TypeScript caller and a Python declaration that is also called in its own
/// file, once directly and once by name.
fn mixed() -> (IndexSnapshot, Sources, u32) {
    let py_text = "def multiply(a, b):\n    return a * b\n\n\ndef total(n):\n    multiply(n, 1)\n    return metacall(\"multiply\", n, 2)\n";
    let ts_text = "function compute_total(n) {\n  return metacall(\"multiply\", n, 3);\n}\n";
    let mut ws = Workspace::new();
    let ts = ws.file("/w/caller.ts", ts_text);
    let py = ws.file("/w/pricing.py", py_text);
    let compute_total = ws.symbol(
        ts,
        "function compute_total(n) {\n  return metacall(\"multiply\", n, 3);\n}",
        "compute_total",
    );
    let multiply = ws.symbol(py, "def multiply(a, b):\n    return a * b\n", "multiply");
    let total = ws.symbol(
        py,
        "def total(n):\n    multiply(n, 1)\n    return metacall(\"multiply\", n, 2)\n",
        "total",
    );
    let local = ws.reference(py, "multiply", 1);
    ws.record(py, local, target(multiply, 1.0));
    ws.call(
        ts,
        "metacall(\"multiply\", n, 3)",
        "multiply",
        vec![target(multiply, 0.6)],
    );
    ws.call(
        py,
        "metacall(\"multiply\", n, 2)",
        "multiply",
        vec![target(multiply, 0.6)],
    );
    ws.edge(total, target(multiply, 1.0));
    ws.edge(compute_total, target(multiply, 0.6));
    let (snapshot, sources) = ws.build();
    (snapshot, sources, multiply)
}

fn position_in(sources: &Sources, name: &str, needle: &str, offset: usize) -> Position {
    let text = &sources.texts[name];
    let byte = text.find(needle).expect("needle in text") + offset;
    LineIndex::new(text).to_position(text, byte, Encoding::Utf16)
}

#[test]
fn the_cross_language_call_resolves_to_the_python_declaration() {
    let (snapshot, _, multiply) = mixed();
    let calls = &snapshot.tables().findings().client_calls;
    assert_eq!(
        calls.len(),
        2,
        "a call site in the caller and one in pricing.py"
    );
    let from_caller = calls
        .iter()
        .find(|call| call.source_file.as_str() == "/w/caller.ts")
        .expect("the TypeScript call site");
    let range = from_caller.source_range.expect("the call site carries its range");
    let targets = resolve_targets(&snapshot, &uri_of("/w/caller.ts"), range.byte_start);
    assert_eq!(targets.len(), 1);
    assert_eq!(targets[0].id, multiply);
    let target = snapshot.symbol_by_id(targets[0].id).expect("resolved target");
    assert_eq!(target.name, "multiply");
    assert_eq!(target.file_path.as_str(), "/w/pricing.py");
}

#[test]
fn definition_from_the_typescript_call_reaches_the_python_declaration() {
    let (snapshot, sources, _) = mixed();
    let position = position_in(&sources, "/w/caller.ts", "multiply", 3);
    let locations =
        definition_locations(&snapshot, &sources, &uri_of("/w/caller.ts"), position);
    assert_eq!(locations.len(), 1);
    assert_eq!(locations[0].0, uri_of("/w/pricing.py").as_str());
    assert_eq!(locations[0].1.start.line, 0);
}

#[test]
fn references_from_the_python_declaration_include_the_typescript_call() {
    let (snapshot, sources, _) = mixed();
    let position = position_in(&sources, "/w/pricing.py", "multiply", 3);

    let references = references_at(
        &mut ctx(&snapshot, &sources),
        &uri_of("/w/pricing.py"),
        position,
        true,
    );

    let mut uris: Vec<&str> = references
        .iter()
        .map(|location| location.uri.as_str())
        .collect();
    uris.sort();
    uris.dedup();
    assert_eq!(
        uris,
        [
            uri_of("/w/caller.ts").as_str(),
            uri_of("/w/pricing.py").as_str()
        ],
        "the declaration with its local use, and the TypeScript call site"
    );
    assert_eq!(references[0].uri, uri_of("/w/pricing.py").as_str());
    assert_eq!(
        references.len(),
        4,
        "the declaration, the direct call, the client call, and the TypeScript site"
    );
}

#[test]
fn workspace_symbol_finds_the_python_declaration() {
    let (snapshot, sources, _) = mixed();
    let symbols = workspace_symbols(&mut ctx(&snapshot, &sources), "multiply");
    assert_eq!(symbols.len(), 1);
    assert_eq!(symbols[0].name, "multiply");
}

#[test]
fn completion_at_the_call_site_offers_the_python_symbol() {
    let (snapshot, sources, _) = mixed();
    let position = position_in(&sources, "/w/caller.ts", "multiply", 2);

    let items = completion_at(
        &mut ctx(&snapshot, &sources),
        &uri_of("/w/caller.ts"),
        position,
    );

    let multiply = items
        .iter()
        .find(|item| item.label == "multiply")
        .expect("the cross-language symbol is offered");
    assert_eq!(
        multiply.sort_text, "2multiply",
        "cross-language is the third bucket"
    );
}

#[test]
fn the_fold_keeps_one_entry_per_target_and_the_highest_confidence() {
    let (snapshot, _, multiply) = mixed();
    let id = |name: &str| {
        snapshot
            .symbols()
            .into_iter()
            .find(|symbol| symbol.name == name)
            .expect("symbol")
            .id
    };
    assert_eq!(
        snapshot.references_out(id("total")),
        vec![target(multiply, 1.0)]
    );
    assert_eq!(
        snapshot.references_out(id("compute_total")),
        vec![target(multiply, 0.6)],
        "a call site with no other evidence keeps the ladder value"
    );
    let folded = dedup_targets(
        snapshot.tables(),
        &vec![target(multiply, 0.6), target(multiply, 1.0)],
    );
    assert_eq!(folded, vec![target(multiply, 1.0)]);
    let incoming: Vec<u32> = snapshot
        .references_in(multiply)
        .into_iter()
        .map(|target| target.id)
        .collect();
    assert_eq!(incoming, vec![id("total"), id("compute_total")]);
}

// ---------------------------------------------------------------------------
// Cursor resolution

#[test]
fn query_unresolved_reference_does_not_fall_back_to_caller() {
    let text = "def caller():\n    return unknown_target(\"x\")\n";
    let mut ws = Workspace::new();
    let file = ws.file("/w/a.py", text);
    ws.symbol(file, text, "caller");
    let range = ws.reference(file, "unknown_target", 0);
    let (snapshot, _) = ws.build();
    assert!(
        resolve_targets(&snapshot, &uri_of("/w/a.py"), range.byte_start).is_empty(),
        "an unresolved reference must not fall back to the caller"
    );
}

#[test]
fn declaration_resolves_to_itself() {
    let mut ws = Workspace::new();
    let file = ws.file("/w/a.py", "def greet(): pass\n");
    let greet = ws.symbol(file, "def greet(): pass", "greet");
    let (snapshot, _) = ws.build();

    let targets = resolve_targets(&snapshot, &uri_of("/w/a.py"), 1);

    assert_eq!(targets.len(), 1);
    assert_eq!(targets[0].id, greet);
    assert!(targets[0].origin.is_none());
}

fn two_duplicates() -> (IndexSnapshot, u32, u32) {
    let mut ws = Workspace::new();
    let a = ws.file("/w/a.py", "def dup(): pass\n");
    let b = ws.file("/w/b.py", "def dup(): pass\n");
    let id_a = ws.symbol(a, "def dup(): pass", "dup");
    let id_b = ws.symbol(b, "def dup(): pass", "dup");
    (ws.build().0, id_a, id_b)
}

#[test]
fn target_sets_order_by_declaration_site_not_score() {
    let (snapshot, id_a, id_b) = two_duplicates();

    // The higher-scoring candidate is listed second; the path must win.
    let ordered = dedup_targets(
        snapshot.tables(),
        &vec![target(id_b, 1.0), target(id_a, 0.6)],
    );

    assert_eq!(ordered, vec![target(id_a, 0.6), target(id_b, 1.0)]);
}

#[test]
fn duplicate_targets_merge_to_the_highest_confidence() {
    let (snapshot, id, _) = two_duplicates();

    let ordered = dedup_targets(
        snapshot.tables(),
        &vec![target(id, 0.6), target(id, 1.0), target(id, 0.8)],
    );

    assert_eq!(ordered, vec![target(id, 1.0)]);
}

#[test]
fn a_resolved_reference_answers_from_its_record() {
    let (snapshot, _) = util_and_app(APP_IMPORT, 1);
    let helper = snapshot
        .symbols()
        .into_iter()
        .find(|symbol| symbol.name == "helper")
        .expect("helper")
        .id;
    let app = snapshot.tables().file_index(&path("/w/app.py")).unwrap();
    let reference = snapshot
        .file_by_path(&path("/w/app.py"))
        .unwrap()
        .references[0]
        .range;

    assert!(
        !snapshot
            .tables()
            .recorded_targets(app, reference.byte_start)
            .is_empty(),
        "a reference inside a symbol has a record"
    );
    let targets = resolve_targets(&snapshot, &uri_of("/w/app.py"), reference.byte_start);

    assert_eq!(targets.len(), 1);
    assert_eq!(targets[0].id, helper);
    assert_eq!(targets[0].origin, Some(reference));
}

#[test]
fn a_module_level_reference_uses_the_scope_cache() {
    let text = "from a import helper\n\n\nhelper()\n";
    let mut ws = Workspace::new();
    let a = ws.file("/w/a.py", "def helper():\n    return 1\n");
    let b = ws.file("/w/b.py", text);
    let helper = ws.symbol(a, "def helper():\n    return 1\n", "helper");
    let range = ws.reference(b, "helper", 1);
    ws.scope(b, "helper", vec![target(helper, 1.0)]);
    let (snapshot, _) = ws.build();

    assert!(
        snapshot
            .tables()
            .recorded_targets(b, range.byte_start)
            .is_empty(),
        "the engine keeps no record without a source symbol"
    );
    let targets = resolve_targets(&snapshot, &uri_of("/w/b.py"), range.byte_start);

    assert_eq!(targets.len(), 1);
    assert_eq!(targets[0].id, helper);
    assert_eq!(targets[0].origin, Some(range));
}

#[test]
fn a_self_recursive_call_keeps_its_use_site() {
    let text = "def loop():\n    return loop()\n";
    let mut ws = Workspace::new();
    let file = ws.file("/w/a.py", text);
    let id = ws.symbol(file, text, "loop");
    let range = ws.reference(file, "loop", 1);
    ws.record(file, range, target(id, 1.0));
    let (snapshot, _) = ws.build();

    let sites = snapshot.occurrences_of(id);
    assert_eq!(
        sites,
        vec![Occurrence { file, range }],
        "a recursive call is a real use site"
    );
}

#[test]
fn the_innermost_symbol_wins() {
    let text = "class Box:\n    def open(self): pass\n";
    let mut ws = Workspace::new();
    let file = ws.file("/w/a.py", text);
    let class = ws.symbol(file, text, "Box");
    let method = ws.symbol(file, "def open(self): pass", "open");
    let (snapshot, _) = ws.build();
    let uri = uri_of("/w/a.py");
    assert_eq!(symbol_at(&snapshot, &uri, 0).unwrap().id, class);
    assert_eq!(
        symbol_at(&snapshot, &uri, nth(text, "open", 0)).unwrap().id,
        method
    );
    assert!(symbol_at(&snapshot, &uri, text.len()).is_none());
}

#[test]
fn records_of_one_target_count_once() {
    let text = "x()\n";
    let mut ws = Workspace::new();
    let file = ws.file("/w/a.py", text);
    let one = ws.symbol(file, "x", "x");
    let range = ws.reference(file, "x", 0);
    ws.record(file, range, target(one, 0.6));
    ws.record(file, range, target(one, 1.0));
    let (snapshot, _) = ws.build();
    assert_eq!(
        snapshot.tables().recorded_targets(file, 0),
        vec![target(one, 0.6)]
    );
    assert_eq!(snapshot.occurrences_of(one).len(), 1);
}

#[test]
fn definition_returns_every_candidate() {
    let text = "from a import dup\nfrom b import dup\n\n\nx = dup()\n";
    let mut ws = Workspace::new();
    let a = ws.file("/w/a.py", "def dup(): pass\n");
    let b = ws.file("/w/b.py", "def dup(): pass\n");
    let c = ws.file("/w/c.py", text);
    let id_a = ws.symbol(a, "def dup(): pass", "dup");
    let id_b = ws.symbol(b, "def dup(): pass", "dup");
    ws.reference(c, "dup", 2);
    ws.scope(c, "dup", vec![target(id_b, 1.0), target(id_a, 1.0)]);
    let (snapshot, sources) = ws.build();

    let locations = definition_locations(&snapshot, &sources, &uri_of("/w/c.py"), pos(4, 5));

    assert_eq!(
        locations.len(),
        2,
        "every candidate the engine resolved is returned, got {locations:?}"
    );
    let uris: Vec<&str> = locations.iter().map(|(uri, _)| uri.as_str()).collect();
    assert_eq!(
        uris,
        [uri_of("/w/a.py").as_str(), uri_of("/w/b.py").as_str()],
        "targets order by declaration site, not by score"
    );
}

#[test]
fn definition_shapes_carry_the_same_target_set() {
    let text = "from a import dup\nfrom b import dup\n\n\nx = dup()\n";
    let mut ws = Workspace::new();
    let a = ws.file("/w/a.py", "def dup(): pass\n");
    let b = ws.file("/w/b.py", "def dup(): pass\n");
    let c = ws.file("/w/c.py", text);
    let id_a = ws.symbol(a, "def dup(): pass", "dup");
    let id_b = ws.symbol(b, "def dup(): pass", "dup");
    ws.reference(c, "dup", 2);
    ws.scope(c, "dup", vec![target(id_a, 1.0), target(id_b, 1.0)]);
    let (snapshot, sources) = ws.build();
    let uri = uri_of("/w/c.py");

    let plain = definition_locations(&snapshot, &sources, &uri, pos(4, 5));
    assert_eq!(
        plain.len(),
        2,
        "every candidate is returned as a plain location: {plain:?}"
    );

    let response = definition_at(&mut ctx(&snapshot, &sources), &uri, pos(4, 5), true);
    let Some(Definition::Link(links)) = response else {
        panic!("link support yields location links");
    };
    let linked: Vec<(String, Range)> = links
        .into_iter()
        .map(|link| (link.target_uri, link.target_range))
        .collect();
    assert_eq!(
        linked, plain,
        "link support changes the shape, not the targets"
    );
}

#[test]
fn definition_links_carry_the_origin_range() {
    let (snapshot, sources) = workspace();
    let uri = uri_of("/w/a.py");

    let response = definition_at(&mut ctx(&snapshot, &sources), &uri, pos(5, 10), true);

    let Some(Definition::Link(links)) = response else {
        panic!("expected definition links");
    };
    assert_eq!(links.len(), 1);
    assert_eq!(links[0].target_uri, uri.as_str());
    assert!(
        links[0].origin_selection_range.is_some(),
        "a reference target carries the origin range"
    );
    assert_eq!(
        links[0].origin_selection_range,
        Some(Range {
            start: pos(5, 9),
            end: pos(5, 14)
        })
    );
}

// ---------------------------------------------------------------------------
// Snapshots

fn diagnostic(file: &str, message: &str, byte: Option<usize>) -> Diagnostic {
    Diagnostic {
        path: path(file),
        severity: Severity::Warning,
        message: message.to_string(),
        source_range: byte.map(|byte| span("abcdef", byte, byte + 1)),
    }
}

#[test]
fn diagnostics_are_sorted_and_numbered() {
    let mut data = empty();
    data.diagnostics = vec![
        diagnostic("/w/b.py", "a", None),
        diagnostic("/w/a.py", "z", None),
        diagnostic("/w/a.py", "z", Some(2)),
    ];
    let graph = vec![diagnostic("/w/a.py", "b", Some(1))];
    let snapshot = finish_snapshot(data, graph, 0);
    assert_eq!(snapshot.generation(), 1, "zero is never a generation");
    let order: Vec<(&str, &str, bool)> = snapshot
        .tables()
        .findings()
        .diagnostics
        .iter()
        .map(|d| (d.path.as_str(), d.message.as_str(), d.source_range.is_some()))
        .collect();
    assert_eq!(
        order,
        [
            ("/w/a.py", "b", true),
            ("/w/a.py", "z", true),
            ("/w/a.py", "z", false),
            ("/w/b.py", "a", false)
        ]
    );
    let sources = Sources {
        texts: HashMap::new(),
        reads: Cell::new(0),
    };
    let shown = diagnostics_for(&mut ctx(&snapshot, &sources), &uri_of("/w/a.py"));
    assert_eq!(shown.len(), 3);
    assert_eq!(shown[2].range.end, pos(0, 1));
}

fn overlay(file: &str, version: i32) -> Overlay {
    Overlay {
        uri: path_to_uri(&path(file)).unwrap(),
        path: path(file),
        text: "def greet(): pass\n".to_string(),
        version,
        lang: LangId::Python,
    }
}

const UNCHANGED: ChangeCounts = ChangeCounts {
    added: 0,
    modified: 0,
    removed: 0,
};

fn findings(overlays: &Vec<Overlay>) -> Analysis {
    let mut data = empty();
    data.versions = overlay_versions(overlays);
    data
}

#[test]
fn a_pass_that_changes_no_file_returns_the_same_snapshot() {
    let mut reindexer = Reindexer::new();
    assert!(reindexer.reuse(UNCHANGED, &vec![]).is_none());
    let first = reindexer.rebuild(findings(&vec![]), vec![]);
    let second = reindexer.reuse(UNCHANGED, &vec![]).expect("reused");
    assert!(
        Arc::ptr_eq(&first, &second),
        "a no-op pass must not rebuild the graph, occurrences, or shards"
    );
}

#[test]
fn a_changed_file_forces_a_rebuild() {
    let mut reindexer = Reindexer::default();
    reindexer.rebuild(findings(&vec![]), vec![]);
    for change in [
        ChangeCounts {
            added: 1,
            ..UNCHANGED
        },
        ChangeCounts {
            modified: 1,
            ..UNCHANGED
        },
        ChangeCounts {
            removed: 1,
            ..UNCHANGED
        },
    ] {
        assert!(reindexer.reuse(change, &vec![]).is_none());
    }
    assert_eq!(reindexer.next_generation(), 2);
    let second = reindexer.rebuild(findings(&vec![]), vec![]);
    assert_eq!(second.generation(), 2);
}

#[test]
fn a_new_overlay_version_rebuilds_the_snapshot() {
    let file = "/w/a.py";
    let overlays = vec![overlay(file, 1)];
    let versions = overlay_versions(&overlays);
    let mut reindexer = Reindexer::new();
    let first = reindexer.rebuild(findings(&vec![]), vec![]);
    assert_eq!(first.document_version(&path(file)), None);

    // The text is unchanged; the version map still differs, so the snapshot is rebuilt.
    assert!(reindexer.reuse(UNCHANGED, &versions).is_none());
    let versioned = reindexer.rebuild(findings(&overlays), vec![]);
    assert!(!Arc::ptr_eq(&first, &versioned));
    assert_eq!(
        versioned.document_version(&path(file)),
        Some(DocVersion::from(1))
    );

    let again = reindexer.reuse(UNCHANGED, &versions).expect("reused");
    assert!(Arc::ptr_eq(&versioned, &again));
    assert!(
        reindexer.reuse(UNCHANGED, &vec![]).is_none(),
        "a version the pass no longer brings counts too"
    );
}

#[test]
fn overlay_versions_reach_the_snapshot() {
    let overlays = vec![overlay("/w/a.py", 7)];
    let snapshot = IndexSnapshot::new(findings(&overlays));

    assert_eq!(
        snapshot.document_version(&path("/w/a.py")),
        Some(DocVersion::from(7))
    );
    assert_eq!(
        snapshot.document_version(&path("/w/missing.py")),
        None,
        "only overlay documents carry a version"
    );
}

#[test]
fn build_derived_indices_resolve_symbols_and_references() {
    let text =
        "def greet(name):\n    return name\n\n\ndef caller():\n    return greet(\"x\")\n";
    let mut ws = Workspace::new();
    let file = ws.file("/w/a.py", text);
    let greet = ws.symbol(file, "def greet(name):\n    return name\n", "greet");
    let caller = ws.symbol(file, "def caller():\n    return greet(\"x\")\n", "caller");
    ws.edge(caller, target(greet, 1.0));
    ws.data.content_hashes.push(ContentHash {
        path: path("/w/a.py"),
        hash: Fingerprint { bytes: [7; 32] },
    });
    let (snapshot, _) = ws.build();

    assert_eq!(snapshot.symbol_by_id(greet).unwrap().name, "greet");
    assert!(snapshot.symbol_by_id(99).is_none());
    assert_eq!(snapshot.file_id(&path("/w/a.py")), Some(1));
    assert!(snapshot
        .references_out(caller)
        .iter()
        .any(|target| target.id == greet));
    assert!(snapshot
        .references_in(greet)
        .iter()
        .any(|target| target.id == caller));
    assert!(snapshot.file_by_path(&path("/w//a.py")).is_some());
    assert!(snapshot.file_by_path(&path("/w/b.py")).is_none());
    assert_eq!(
        snapshot.content_hash(&path("/w/a.py")).unwrap().bytes,
        [7; 32]
    );
    assert!(snapshot.version_map().is_empty());
}

#[test]
fn the_last_version_of_a_path_counts() {
    let mut data = empty();
    for version in [3, 5] {
        data.versions.push(PathVersion {
            path: path("/w/a.py"),
            version: DocVersion::from(version),
        });
    }
    let snapshot = IndexSnapshot::new(data);
    assert_eq!(
        snapshot.document_version(&path("/w/a.py")),
        Some(DocVersion::from(5))
    );
}

#[test]
fn collect_filters_outside_root() {
    let root = RootDir::try_from(&path("/w"), true).unwrap();
    let mut buffers = BufferStore::default();
    for (uri, version) in [
        ("file:///w/z.py", 3),
        ("file:///w/a.py", 1),
        ("file:///other.py", 1),
        ("untitled:draft.py", 1),
    ] {
        assert_eq!(
            buffers.open(
                &doc_uri(uri),
                DocVersion::from(version),
                "python",
                format!("# {uri}\n")
            ),
            OpenOutcome::Indexed
        );
    }
    let inputs = collect_inputs(&root, &buffers);
    let uris: Vec<&str> = inputs.iter().map(|input| input.uri.as_str()).collect();
    assert_eq!(uris, ["file:///w/a.py", "file:///w/z.py"]);
    assert_eq!(inputs[1].version, 3);
    assert_eq!(inputs[1].text, "# file:///w/z.py\n");
    assert_eq!(inputs[1].path.as_str(), "/w/z.py");
}
