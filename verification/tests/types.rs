use meta_call_lsp::error::ServerError;
use meta_call_lsp::model::{detect_language, LangId};
use meta_call_lsp::path::{DocPath, PathPart};
use meta_call_lsp::types::{DocUri, DocVersion, LogLevel, RootDir};

fn path(text: &str) -> DocPath {
    DocPath::new(text.to_string())
}

#[test]
fn a_file_uri_yields_its_path() {
    let uri = DocUri::try_from("file:///tmp/a.py").expect("file uri");

    assert!(uri.to_path().unwrap().same(&path("/tmp/a.py")));
    assert_eq!(uri.to_path().unwrap().as_str(), "/tmp/a.py");
    assert_eq!(uri.as_str(), "file:///tmp/a.py");
}

#[test]
fn a_non_file_uri_has_no_path() {
    let uri = DocUri::try_from("untitled:buffer.py").expect("well-formed uri");

    assert!(uri.to_path().is_none());
    for other in ["http://localhost/a.py", "untitled:/a.py", "https:///a.py", "filed:/a.py"] {
        let uri = DocUri::try_from(other).expect("well-formed uri");
        assert!(uri.to_path().is_none(), "{other} is no file URI");
    }
    let local = DocUri::try_from("file://localhost/a.py").expect("file uri");
    assert_eq!(local.to_path().unwrap().as_str(), "/a.py");
}

#[test]
fn a_relative_or_malformed_address_is_invalid_params() {
    for value in ["a.py", "/tmp/a.py", "http://[::1"] {
        let Err(error) = DocUri::try_from(value) else {
            panic!("{value} must not parse as a document URI");
        };
        assert!(
            matches!(error, ServerError::InvalidParams(_)),
            "{value} must be rejected as invalid params, got {error:?}"
        );
        let prefix = format!("protocol: document URI {value}: ");
        assert!(error.message().starts_with(&prefix));
    }
}

#[test]
fn addresses_are_normalized() {
    let one = DocUri::try_from("FILE:///tmp/x/../a.py").expect("uri");
    let two = DocUri::try_from("file:///tmp/a.py").expect("uri");
    assert_eq!(one.as_str(), "file:///tmp/a.py");
    assert!(one.same(&two));
    assert!(one.clone().same(&two));
}

#[test]
fn a_root_must_be_an_existing_directory() {
    let dir = path("/w");
    let root = RootDir::try_from(&dir, true).expect("directory root");

    assert!(root.contains(&path("/w/a.py")));
    assert!(!root.contains(&path("/elsewhere/a.py")));

    for rejected in [path("/w/a.py"), path("/w/missing")] {
        let error = RootDir::try_from(&rejected, false).expect_err("must be rejected");
        assert!(
            error.contains("not an existing directory"),
            "{rejected:?} must be rejected, got {error}"
        );
    }
}

#[test]
fn nesting_goes_by_whole_components() {
    let root = RootDir::try_from(&path("/w/app"), true).expect("root");
    assert!(root.contains(&path("/w/app")));
    assert!(root.contains(&path("/w//app/./x")));
    assert!(!root.contains(&path("/w/application/x")));
    assert!(!root.contains(&path("w/app/x")));
    assert_eq!(root.as_path().as_str(), "/w/app");
    assert_eq!(root.clone().as_path().as_str(), "/w/app");
}

#[test]
fn components_follow_the_platform() {
    let texts = [
        "", ".", "..", "/", "/a", "a/b", "./a", "a/./b", "a//b", "a/", "/..", "a/../b", "//a/b",
        "a/.", "./.", "a:b", "a\\b", "...", ".hidden/x",
    ];
    for text in texts {
        let own = path(text);
        let parts: Vec<std::path::Component> = std::path::Path::new(text).components().collect();
        assert_eq!(own.len(), parts.len(), "{text:?}");
        for (i, part) in parts.iter().enumerate() {
            let same = match (own.part(i), part) {
                (PathPart::Root, std::path::Component::RootDir) => true,
                (PathPart::Current, std::path::Component::CurDir) => true,
                (PathPart::Parent, std::path::Component::ParentDir) => true,
                (PathPart::Name(name), std::path::Component::Normal(other)) => {
                    Some(name.as_str()) == other.to_str()
                }
                _ => false,
            };
            assert!(same, "{text:?} at {i}");
        }
        assert_eq!(
            own.file_name(),
            std::path::Path::new(text)
                .file_name()
                .and_then(|name| name.to_str()),
            "{text:?}"
        );
    }
}

#[test]
fn versions_compare_by_number() {
    assert_eq!(DocVersion::from(7).get(), 7);
    assert!(DocVersion::from(2).is_newer_than(DocVersion::from(1)));
    assert!(!DocVersion::from(1).is_newer_than(DocVersion::from(1)));
    assert!(DocVersion::from(0).is_newer_than(DocVersion::from(-3)));
}

#[test]
fn log_levels_parse_by_name() {
    for level in [
        LogLevel::Error,
        LogLevel::Warn,
        LogLevel::Info,
        LogLevel::Debug,
        LogLevel::Trace,
    ] {
        assert_eq!(LogLevel::try_from(level.as_str()).unwrap(), level);
    }
    assert_eq!(
        LogLevel::try_from("lo\"ud").unwrap_err(),
        "unknown log level \"lo\\\"ud\""
    );
}

#[test]
fn extensions_name_languages() {
    let table = [
        ("/w/a.py", Some(LangId::Python)),
        ("/w/a.PYI", Some(LangId::Python)),
        ("/w/a.mjs", Some(LangId::JavaScript)),
        ("/w/a.cts", Some(LangId::TypeScript)),
        ("/w/a.tsx", Some(LangId::Tsx)),
        ("/w/a.h", Some(LangId::C)),
        ("/w/a.hpp", Some(LangId::Cpp)),
        ("/w/a.rs", Some(LangId::Rust)),
        ("/w/a.b.go", Some(LangId::Go)),
        ("/w/x.gemspec", Some(LangId::Ruby)),
        ("/w/.py", None),
        ("/w/py", None),
        ("/w/a.", None),
        ("/w/a.txt", None),
        ("/", None),
    ];
    for (text, lang) in table {
        assert_eq!(detect_language(&path(text)), lang, "{text}");
    }
}

#[test]
fn the_language_list_is_that_of_the_engine() {
    let own: Vec<String> = LangId::all()
        .into_iter()
        .map(|lang| lang.name().to_string())
        .collect();
    let engine: Vec<String> = meta_ast::LangId::all()
        .into_iter()
        .map(|lang| lang.to_string())
        .collect();
    assert_eq!(own, engine);
}
