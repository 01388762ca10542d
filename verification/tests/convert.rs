use meta_call_lsp::convert::{
    completion_kind, diagnostic_to_lsp, kind_word, path_to_uri, symbol_kind,
};
use meta_call_lsp::model::{
    Diagnostic, LineColumn, Severity, SourceRange, SymbolKind,
};
use meta_call_lsp::path::DocPath;
use meta_call_lsp::position::{Encoding, SourceFile};
use meta_call_lsp::protocol::{
    CompletionKindCode, DiagnosticSeverity, Position, Range, SymbolKindCode,
};
use meta_call_lsp::types::DocUri;

fn pos(line: u32, character: u32) -> Position {
    Position { line, character }
}

#[test]
fn diagnostic_to_lsp_follows_negotiated_encoding() {
    const TEXT: &str = "aé中🐍b";
    let diagnostic = Diagnostic {
        path: DocPath::new("/tmp/sample.py".to_string()),
        severity: Severity::Warning,
        message: "broken symbol".to_string(),
        source_range: Some(SourceRange {
            byte_start: 1,
            byte_end: 10,
            start: LineColumn { line: 0, column: 1 },
            end: LineColumn {
                line: 0,
                column: 10,
            },
        }),
    };

    let source = SourceFile::new(TEXT.to_string());
    let utf8 = diagnostic_to_lsp(Some(&source), &diagnostic, Encoding::Utf8);
    assert_eq!(
        utf8.range,
        Range {
            start: pos(0, 1),
            end: pos(0, 10),
        }
    );

    let utf16 = diagnostic_to_lsp(Some(&source), &diagnostic, Encoding::Utf16);
    assert_eq!(
        utf16.range,
        Range {
            start: pos(0, 1),
            end: pos(0, 5),
        }
    );
    assert_eq!(utf16.severity, DiagnosticSeverity::Warning);
    assert_eq!(utf16.source, "meta-ast");
    assert_eq!(utf16.message, "broken symbol");

    let blind = diagnostic_to_lsp(None, &diagnostic, Encoding::Utf16);
    assert_eq!(
        blind.range,
        Range {
            start: pos(0, 1),
            end: pos(0, 10),
        },
        "byte columns pass through without the text"
    );
}

#[test]
fn uri_round_trip() {
    let path = DocPath::new("/tmp/poc_sample.py".to_string());
    let uri = path_to_uri(&path).unwrap();
    assert_eq!(uri, "file:///tmp/poc_sample.py");
    let doc = DocUri::try_from(&uri).unwrap();
    assert!(doc.to_path().unwrap().same(&path));
}

#[test]
fn a_path_with_spaces_is_encoded() {
    let path = DocPath::new("/tmp/a b#c.py".to_string());
    let uri = path_to_uri(&path).unwrap();
    assert_eq!(uri, "file:///tmp/a%20b%23c.py");
    let doc = DocUri::try_from(&uri).unwrap();
    assert_eq!(doc.to_path().unwrap().as_str(), "/tmp/a b#c.py");
}

#[test]
fn only_a_plain_path_is_spelled_out_by_its_uri() {
    let roots = ["/", "/tmp//x/./y.py", "/tmp/%2e%2e/ü?.py", "/tmp/tab\there/{b}"];
    for text in roots {
        let path = DocPath::new(text.to_string());
        let uri = path_to_uri(&path).unwrap();
        let doc = DocUri::try_from(&uri).unwrap();
        assert_eq!(doc.as_str(), uri, "{text}");
        assert!(doc.to_path().unwrap().same(&path), "{text}");
    }
    let up = DocPath::new("/tmp/../a.py".to_string());
    let doc = DocUri::try_from(&path_to_uri(&up).unwrap()).unwrap();
    assert_eq!(doc.to_path().unwrap().as_str(), "/a.py");
}

#[test]
fn a_relative_path_has_no_uri() {
    assert!(path_to_uri(&DocPath::new("a.py".to_string())).is_none());
}

#[test]
fn a_path_that_the_protocol_cannot_address_has_no_uri() {
    assert!(path_to_uri(&DocPath::new("/tmp/[id].ts".to_string())).is_none());
}

#[test]
fn kind_pair_keeps_the_object_mapping() {
    assert_eq!(symbol_kind(SymbolKind::Object), SymbolKindCode::Object);
    assert_eq!(
        completion_kind(SymbolKind::Object),
        CompletionKindCode::Module,
        "LSP has no OBJECT completion kind"
    );
    assert_eq!(
        symbol_kind(SymbolKind::Namespace),
        SymbolKindCode::Namespace
    );
    assert_eq!(
        completion_kind(SymbolKind::Namespace),
        CompletionKindCode::Module
    );
}

#[test]
fn kind_word_covers_the_kind_pair_table() {
    assert_eq!(kind_word(SymbolKind::Function), "function");
    assert_eq!(kind_word(SymbolKind::Object), "object");
    assert_eq!(kind_word(SymbolKind::Namespace), "namespace");
    assert_eq!(kind_word(SymbolKind::TypeAlias), "type alias");
}

#[test]
fn statics_and_declarations_are_variables() {
    for kind in [SymbolKind::Static, SymbolKind::Declaration] {
        assert_eq!(symbol_kind(kind), SymbolKindCode::Variable);
        assert_eq!(completion_kind(kind), CompletionKindCode::Variable);
        assert_eq!(kind_word(kind), "variable");
    }
    assert_eq!(symbol_kind(SymbolKind::Trait), SymbolKindCode::Interface);
    assert_eq!(kind_word(SymbolKind::Trait), "trait");
}

#[test]
fn rangeless_diagnostic_points_at_the_file_head() {
    let diagnostic = Diagnostic {
        path: DocPath::new("/tmp/sample.py".to_string()),
        severity: Severity::Error,
        message: "file level".to_string(),
        source_range: None,
    };

    let converted = diagnostic_to_lsp(None, &diagnostic, Encoding::Utf16);

    assert_eq!(
        converted.range,
        Range {
            start: pos(0, 0),
            end: pos(0, 1),
        }
    );
    assert_eq!(converted.severity, DiagnosticSeverity::Error);
    assert_eq!(converted.message, "file level");
}
