use meta_call_lsp::buffers::{
    apply_patch, lang_from_id, BufferStore, ContentChange, OpenOutcome,
};
use meta_call_lsp::convert::path_to_uri;
use meta_call_lsp::model::LangId;
use meta_call_lsp::path::DocPath;
use meta_call_lsp::position::Encoding;
use meta_call_lsp::protocol::{Position, Range};
use meta_call_lsp::types::{DocUri, DocVersion};

fn doc_uri(value: &str) -> DocUri {
    DocUri::try_from(value).expect("document URI")
}

fn store() -> BufferStore {
    let mut store = BufferStore::default();
    assert_eq!(
        store.open(
            &doc_uri("file:///a.py"),
            DocVersion::from(1),
            "python",
            "x = 1\n".to_string()
        ),
        OpenOutcome::Indexed
    );
    store
}

fn full_text(text: &str) -> ContentChange {
    ContentChange {
        range: None,
        text: text.to_string(),
    }
}

fn patch(from: (u32, u32), to: (u32, u32), text: &str) -> ContentChange {
    ContentChange {
        range: Some(span(from, to)),
        text: text.to_string(),
    }
}

fn span(from: (u32, u32), to: (u32, u32)) -> Range {
    Range {
        start: Position {
            line: from.0,
            character: from.1,
        },
        end: Position {
            line: to.0,
            character: to.1,
        },
    }
}

#[test]
fn open_rejects_unknown_language() {
    let mut store = BufferStore::default();
    assert_eq!(
        store.open(
            &doc_uri("file:///a.zzz"),
            DocVersion::from(1),
            "zzz",
            "x".to_string()
        ),
        OpenOutcome::Unsupported
    );
    assert!(store.get(&doc_uri("file:///a.zzz")).is_none());
}

#[test]
fn change_applies_full_text() {
    let mut store = store();
    assert!(store.change(
        &doc_uri("file:///a.py"),
        DocVersion::from(2),
        &vec![full_text("y = 2\n")],
        Encoding::Utf16
    ));
    assert_eq!(store.get(&doc_uri("file:///a.py")).unwrap().text, "y = 2\n");
}

#[test]
fn empty_change_list_keeps_the_version() {
    let mut store = store();
    assert!(!store.change(
        &doc_uri("file:///a.py"),
        DocVersion::from(0),
        &vec![],
        Encoding::Utf16
    ));
    assert_eq!(
        store.get(&doc_uri("file:///a.py")).unwrap().version,
        DocVersion::from(1)
    );
}

#[test]
fn change_ignores_every_stale_version() {
    let mut store = store();
    assert!(!store.change(
        &doc_uri("file:///a.py"),
        DocVersion::from(1),
        &vec![patch((0, 0), (0, 1), "z")],
        Encoding::Utf16,
    ));
    assert_eq!(store.get(&doc_uri("file:///a.py")).unwrap().text, "x = 1\n");
    assert!(!store.change(
        &doc_uri("file:///a.py"),
        DocVersion::from(1),
        &vec![full_text("y = 2\n")],
        Encoding::Utf16
    ));
    assert_eq!(store.get(&doc_uri("file:///a.py")).unwrap().text, "x = 1\n");
    assert_eq!(
        store.get(&doc_uri("file:///a.py")).unwrap().version,
        DocVersion::from(1)
    );
}

#[test]
fn change_applies_range_patch() {
    let mut store = store();
    assert!(store.change(
        &doc_uri("file:///a.py"),
        DocVersion::from(2),
        &vec![patch((0, 0), (0, 1), "y")],
        Encoding::Utf16,
    ));
    assert_eq!(store.get(&doc_uri("file:///a.py")).unwrap().text, "y = 1\n");
}

#[test]
fn range_patch_honors_utf16_columns() {
    let mut store = BufferStore::default();
    assert_eq!(
        store.open(
            &doc_uri("file:///a.py"),
            DocVersion::from(1),
            "python",
            "x = \"🐍\"\n".to_string()
        ),
        OpenOutcome::Indexed
    );
    assert!(store.change(
        &doc_uri("file:///a.py"),
        DocVersion::from(2),
        &vec![patch((0, 5), (0, 7), "z")],
        Encoding::Utf16,
    ));
    assert_eq!(
        store.get(&doc_uri("file:///a.py")).unwrap().text,
        "x = \"z\"\n"
    );
}

#[test]
fn save_reports_real_changes_only() {
    let mut store = store();
    assert!(!store.save(&doc_uri("file:///a.py"), "x = 1\n"));
    assert!(store.save(&doc_uri("file:///a.py"), "x = 2\n"));
}

#[test]
fn by_path_finds_open_doc() {
    let path = DocPath::new("/tmp/a.py".to_string());
    let uri = path_to_uri(&path).unwrap();
    let mut store = BufferStore::default();
    assert_eq!(
        store.open(
            &doc_uri(uri.as_str()),
            DocVersion::from(1),
            "python",
            "x = 1\n".to_string()
        ),
        OpenOutcome::Indexed
    );
    assert!(store.by_path(&path).is_some());
    assert!(store
        .by_path(&DocPath::new("/tmp/b.py".to_string()))
        .is_none());
}

#[test]
fn edits_apply_in_order() {
    let mut store = store();
    assert!(store.change(
        &doc_uri("file:///a.py"),
        DocVersion::from(7),
        &vec![
            patch((0, 0), (0, 1), "long"),
            patch((0, 0), (0, 4), "n"),
            patch((0, 4), (9, 9), "2")
        ],
        Encoding::Utf8,
    ));
    let doc = store.get(&doc_uri("file:///a.py")).unwrap();
    assert_eq!(doc.text, "n = 2");
    assert_eq!(doc.version, DocVersion::from(7));
}

#[test]
fn a_full_text_edit_drops_what_came_before_it() {
    let mut store = store();
    assert!(store.change(
        &doc_uri("file:///a.py"),
        DocVersion::from(2),
        &vec![patch((0, 0), (0, 1), "q"), full_text("done\n")],
        Encoding::Utf8,
    ));
    assert_eq!(store.get(&doc_uri("file:///a.py")).unwrap().text, "done\n");
}

#[test]
fn a_backward_range_is_empty() {
    assert_eq!(
        apply_patch("abc", span((0, 2), (0, 1)), "-", Encoding::Utf8),
        "ab-c"
    );
    assert_eq!(
        apply_patch("abc", span((7, 0), (0, 1)), "!", Encoding::Utf8),
        "abc!",
        "a missing line names the end of the text"
    );
}

#[test]
fn closing_forgets_only_that_document() {
    let mut store = store();
    store.open(
        &doc_uri("file:///b.py"),
        DocVersion::from(1),
        "python",
        String::new(),
    );
    assert!(store.close(&doc_uri("file:///a.py")));
    assert!(!store.close(&doc_uri("file:///a.py")));
    assert!(store.get(&doc_uri("file:///a.py")).is_none());
    assert!(store.get(&doc_uri("file:///b.py")).is_some());
    assert_eq!(store.iter().len(), 1);
}

#[test]
fn changing_or_saving_an_unopened_document_does_nothing() {
    let mut store = store();
    let other = doc_uri("file:///other.py");
    assert!(!store.change(
        &other,
        DocVersion::from(9),
        &vec![full_text("x")],
        Encoding::Utf8
    ));
    assert!(!store.save(&other, "x"));
    assert!(store.get(&other).is_none());
}

#[test]
fn reopening_replaces_the_document() {
    let mut store = store();
    store.open(
        &doc_uri("file:///a.py"),
        DocVersion::from(0),
        "ruby",
        "new".to_string(),
    );
    let doc = store.get(&doc_uri("file:///a.py")).unwrap();
    assert_eq!(doc.version, DocVersion::from(0));
    assert_eq!(doc.lang, LangId::Ruby);
    assert_eq!(store.iter().len(), 1);
}

#[test]
fn an_unknown_id_falls_through_to_the_extension() {
    let mut store = BufferStore::default();
    assert_eq!(
        store.open(
            &doc_uri("file:///w/Lib.RS"),
            DocVersion::from(1),
            "plaintext",
            String::new()
        ),
        OpenOutcome::Indexed
    );
    assert_eq!(
        store.get(&doc_uri("file:///w/Lib.RS")).unwrap().lang,
        LangId::Rust
    );
}

#[test]
fn language_ids_are_exact() {
    let table = [
        ("python", LangId::Python),
        ("py", LangId::Python),
        ("javascript", LangId::JavaScript),
        ("js", LangId::JavaScript),
        ("jsx", LangId::JavaScript),
        ("typescript", LangId::TypeScript),
        ("ts", LangId::TypeScript),
        ("typescriptreact", LangId::Tsx),
        ("tsx", LangId::Tsx),
        ("c", LangId::C),
        ("cpp", LangId::Cpp),
        ("c++", LangId::Cpp),
        ("cc", LangId::Cpp),
        ("cxx", LangId::Cpp),
        ("rust", LangId::Rust),
        ("rs", LangId::Rust),
        ("go", LangId::Go),
        ("ruby", LangId::Ruby),
        ("rb", LangId::Ruby),
    ];
    for (id, lang) in table {
        assert_eq!(lang_from_id(id), Some(lang), "{id}");
    }
    assert_eq!(lang_from_id("Python"), None);
    assert_eq!(lang_from_id(""), None);
}
