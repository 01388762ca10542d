//! Plain values of the analysis engine that the server's logic reads.

use std::path::Path;

use vstd::prelude::*;
use vstd::string::*;

use crate::path::{name_of, path_parts, DocPath, Part};

verus! {

/// A line and a byte column, both counted from zero.
#[derive(Clone, Copy, Debug, PartialEq, Eq, Structural)]
pub struct LineColumn {
    pub line: usize,
    pub column: usize,
}

/// A half-open byte range with its line and column ends.
#[derive(Clone, Copy, Debug, PartialEq, Eq, Structural)]
pub struct SourceRange {
    pub byte_start: usize,
    pub byte_end: usize,
    pub start: LineColumn,
    pub end: LineColumn,
}

/// A language the engine analyses.
#[derive(Clone, Copy, Debug, PartialEq, Eq, Structural)]
pub enum LangId {
    Python,
    JavaScript,
    TypeScript,
    Tsx,
    C,
    Cpp,
    Rust,
    Go,
    Ruby,
}

/// What a symbol is.
#[derive(Clone, Copy, Debug, PartialEq, Eq, Structural)]
pub enum SymbolKind {
    Function,
    Method,
    Class,
    Struct,
    Interface,
    Trait,
    Enum,
    Object,
    Constant,
    Static,
    Module,
    Namespace,
    TypeAlias,
    /// Function or method declaration without a body.
    Declaration,
}

/// How sure a resolution is, in words.
#[derive(Clone, Copy, Debug, PartialEq, Eq, Structural)]
pub enum ConfidenceTier {
    OwnOrDirect,
    DefUse,
    Transitive,
    CrossLanguage,
    ClientMultiGlobal,
    Computed,
    Unknown,
}

/// How sure a resolution is: a rank that grows with confidence, and its tier.
#[derive(Clone, Copy, Debug, PartialEq, Eq, Structural)]
pub struct Confidence {
    pub rank: u32,
    pub tier: ConfidenceTier,
}

/// One resolution: a symbol id and how sure it is.
#[derive(Clone, Copy, Debug, PartialEq, Eq, Structural)]
pub struct Target {
    pub id: u32,
    pub confidence: Confidence,
}

/// One declared symbol.
#[derive(Debug)]
pub struct Symbol {
    pub id: u32,
    pub name: String,
    pub kind: SymbolKind,
    pub language: LangId,
    pub file_path: DocPath,
    pub source_range: SourceRange,
    /// Range of the name alone, where the engine captured it.
    pub name_range: Option<SourceRange>,
    pub signature: Option<String>,
    pub docstring: Option<String>,
}

/// One name use that the engine tries to resolve.
#[derive(Debug)]
pub struct UnresolvedReference {
    pub name: String,
    pub range: SourceRange,
}

/// What kind of foreign call a call site makes.
#[derive(Clone, Copy, Debug, PartialEq, Eq, Structural)]
pub enum CallSiteVariant {
    LoadFromFile,
    LoadFromMemory,
    LoadFromPackage,
    LoadFromConfiguration,
    ClientCall,
}

/// One foreign call in a file.
#[derive(Debug)]
pub struct CallSite {
    pub variant: CallSiteVariant,
    pub function_name: Option<String>,
    pub source_range: Option<SourceRange>,
}

/// What the engine extracted from one file.
#[derive(Debug)]
pub struct FileExtraction {
    pub path: DocPath,
    pub symbols: Vec<Symbol>,
    pub references: Vec<UnresolvedReference>,
    pub call_sites: Vec<CallSite>,
}

/// One resolved name use.
#[derive(Debug)]
pub struct ResolvedReference {
    pub file_path: DocPath,
    pub range: SourceRange,
    pub target: Target,
}

/// One resolved foreign call.
#[derive(Debug)]
pub struct ResolvedClientCall {
    pub source_file: DocPath,
    pub source_range: Option<SourceRange>,
    pub target: Target,
}

/// One edge of the reference graph between symbols.
#[derive(Clone, Copy, Debug, PartialEq, Eq, Structural)]
pub struct ReferenceEdge {
    pub source: u32,
    pub target: Target,
}

/// The graph id of one file.
#[derive(Debug)]
pub struct FileNode {
    pub id: u32,
    pub path: DocPath,
}

/// What one name means in a file.
#[derive(Debug)]
pub struct ScopeName {
    pub name: String,
    pub targets: Vec<Target>,
}

/// The names visible in one file.
#[derive(Debug)]
pub struct FileScope {
    pub file_id: u32,
    pub names: Vec<ScopeName>,
}

/// How grave a diagnostic is.
#[derive(Clone, Copy, Debug, PartialEq, Eq, Structural)]
pub enum Severity {
    Warning,
    Error,
}

/// One complaint of the engine about a file.
#[derive(Debug)]
pub struct Diagnostic {
    pub path: DocPath,
    pub severity: Severity,
    pub message: String,
    pub source_range: Option<SourceRange>,
}

/// The hash of a file's content.
#[derive(Clone, Copy, Debug)]
pub struct Fingerprint {
    pub bytes: [u8; 32],
}

impl View for Fingerprint {
    type V = Seq<u8>;

    open spec fn view(&self) -> Seq<u8> {
        self.bytes@
    }
}

impl Fingerprint {
    /// Whether two hashes are equal.
    pub fn same(&self, other: &Fingerprint) -> (r: bool)
        ensures
            r == (self@ == other@),
    {
        let mut i: usize = 0;
        while i < 32
            invariant
                i <= 32,
                forall|k: int| 0 <= k < i ==> self.bytes@[k] == other.bytes@[k],
            decreases 32 - i,
        {
            if self.bytes[i] != other.bytes[i] {
                return false;
            }
            i += 1;
        }
        assert(self@ =~= other@);
        true
    }
}

/// The hash of a file's bytes.
pub uninterp spec fn content_fingerprint(bytes: Seq<u8>) -> Seq<u8>;

/// Calls `meta_ast::Fingerprint::of`. The hash is a function of the bytes.
#[verifier::external_body]
pub(crate) fn fingerprint_of(bytes: &Vec<u8>) -> (r: Fingerprint)
    ensures
        r@ == content_fingerprint(bytes@),
{
    Fingerprint { bytes: *meta_ast::Fingerprint::of(bytes).as_bytes() }
}

/// Content of an open document that stands for the file on disk.
#[derive(Debug)]
pub struct Overlay {
    pub uri: String,
    pub path: DocPath,
    pub text: String,
    pub version: i32,
    pub lang: LangId,
}

// ---------------------------------------------------------------------------
// Languages

impl LangId {
    /// The engine's name of the language.
    pub open spec fn spec_name(self) -> Seq<char> {
        match self {
            LangId::Python => "python"@,
            LangId::JavaScript => "javascript"@,
            LangId::TypeScript => "typescript"@,
            LangId::Tsx => "tsx"@,
            LangId::C => "c"@,
            LangId::Cpp => "cpp"@,
            LangId::Rust => "rust"@,
            LangId::Go => "go"@,
            LangId::Ruby => "ruby"@,
        }
    }

    /// The engine's name of the language.
    pub fn name(self) -> (r: &'static str)
        ensures
            r@ == self.spec_name(),
    {
        match self {
            LangId::Python => "python",
            LangId::JavaScript => "javascript",
            LangId::TypeScript => "typescript",
            LangId::Tsx => "tsx",
            LangId::C => "c",
            LangId::Cpp => "cpp",
            LangId::Rust => "rust",
            LangId::Go => "go",
            LangId::Ruby => "ruby",
        }
    }

    /// Every language, in the engine's order.
    pub open spec fn spec_all() -> Seq<LangId> {
        seq![
            LangId::Python,
            LangId::JavaScript,
            LangId::TypeScript,
            LangId::Tsx,
            LangId::C,
            LangId::Cpp,
            LangId::Rust,
            LangId::Go,
            LangId::Ruby,
        ]
    }

    /// Every language, in the engine's order.
    pub fn all() -> (r: Vec<LangId>)
        ensures
            r@ == LangId::spec_all(),
    {
        let mut r: Vec<LangId> = Vec::new();
        r.push(LangId::Python);
        r.push(LangId::JavaScript);
        r.push(LangId::TypeScript);
        r.push(LangId::Tsx);
        r.push(LangId::C);
        r.push(LangId::Cpp);
        r.push(LangId::Rust);
        r.push(LangId::Go);
        r.push(LangId::Ruby);
        assert(r@ =~= LangId::spec_all());
        r
    }
}

/// The file name extensions of a language, in lower case.
pub open spec fn extensions(lang: LangId) -> Seq<Seq<char>> {
    match lang {
        LangId::Python => seq!["py"@, "pyi"@],
        LangId::JavaScript => seq!["js"@, "mjs"@, "cjs"@],
        LangId::TypeScript => seq!["ts"@, "cts"@, "mts"@],
        LangId::Tsx => seq!["tsx"@],
        LangId::C => seq!["c"@, "h"@],
        LangId::Cpp => seq!["cc"@, "cpp"@, "cxx"@, "hpp"@],
        LangId::Rust => seq!["rs"@],
        LangId::Go => seq!["go"@],
        LangId::Ruby => seq!["rb"@, "gemspec"@],
    }
}

/// A letter in ASCII lower case; any other character as it is.
pub open spec fn ascii_lower(c: char) -> char {
    if 'A' <= c <= 'Z' {
        ((c as u32 + 32) as u32) as char
    } else {
        c
    }
}

/// The text behind the last dot of a file name, if a dot stands behind its first
/// character.
pub open spec fn extension_of(name: Seq<char>) -> Option<Seq<char>> {
    match last_dot(name, name.len() as int) {
        Some(at) => if at > 0 {
            Some(name.skip(at + 1))
        } else {
            None
        },
        None => None,
    }
}

/// The place of the last dot among the first `n` characters.
pub open spec fn last_dot(name: Seq<char>, n: int) -> Option<int>
    decreases n,
{
    if n <= 0 {
        None
    } else if name[n - 1] == '.' {
        Some(n - 1)
    } else {
        last_dot(name, n - 1)
    }
}

/// Whether a path's extension, in lower case, is one of a language.
pub open spec fn is_file_of(path: Seq<Part>, lang: LangId) -> bool {
    name_of(path) matches Some(name) && extension_of(name) matches Some(extension)
        && extensions(lang).contains(extension.map_values(|c: char| ascii_lower(c)))
}

/// Calls `meta_ast::detect_language`, which looks a path's extension up in lower
/// case: it finds the one language that has it, or none.
#[verifier::external_body]
fn language_of_text(path: &str) -> (r: Option<LangId>)
    ensures
        match r {
            Some(lang) => is_file_of(path_parts(path@), lang),
            None => forall|lang: LangId| !is_file_of(path_parts(path@), lang),
        },
{
    match meta_ast::detect_language(Path::new(path))? {
        meta_ast::LangId::Python => Some(LangId::Python),
        meta_ast::LangId::JavaScript => Some(LangId::JavaScript),
        meta_ast::LangId::TypeScript => Some(LangId::TypeScript),
        meta_ast::LangId::Tsx => Some(LangId::Tsx),
        meta_ast::LangId::C => Some(LangId::C),
        meta_ast::LangId::Cpp => Some(LangId::Cpp),
        meta_ast::LangId::Rust => Some(LangId::Rust),
        meta_ast::LangId::Go => Some(LangId::Go),
        meta_ast::LangId::Ruby => Some(LangId::Ruby),
        _ => None,
    }
}

/// Calls `meta_ast::language::spec_for`: the extensions the engine lists for a
/// language.
#[verifier::external_body]
pub(crate) fn extensions_of(lang: LangId) -> (r: Vec<String>)
    ensures
        r@.map_values(|extension: String| extension@) == extensions(lang),
{
    let lang = match lang {
        LangId::Python => meta_ast::LangId::Python,
        LangId::JavaScript => meta_ast::LangId::JavaScript,
        LangId::TypeScript => meta_ast::LangId::TypeScript,
        LangId::Tsx => meta_ast::LangId::Tsx,
        LangId::C => meta_ast::LangId::C,
        LangId::Cpp => meta_ast::LangId::Cpp,
        LangId::Rust => meta_ast::LangId::Rust,
        LangId::Go => meta_ast::LangId::Go,
        LangId::Ruby => meta_ast::LangId::Ruby,
    };
    meta_ast::language::spec_for(lang).extensions.iter().map(|e| String::from(*e)).collect()
}

/// The language whose extension a path carries.
pub fn detect_language(path: &DocPath) -> (r: Option<LangId>)
    ensures
        match r {
            Some(lang) => is_file_of(path@, lang),
            None => forall|lang: LangId| !is_file_of(path@, lang),
        },
{
    language_of_text(path.as_str())
}

/// No extension belongs to two languages: a path has one language at most.
pub proof fn a_path_has_one_language(path: Seq<Part>, a: LangId, b: LangId)
    requires
        is_file_of(path, a),
        is_file_of(path, b),
    ensures
        a == b,
{
    let name = name_of(path)->0;
    let e = extension_of(name)->0.map_values(|c: char| ascii_lower(c));
    reveal_strlit("py");
    reveal_strlit("pyi");
    reveal_strlit("js");
    reveal_strlit("mjs");
    reveal_strlit("cjs");
    reveal_strlit("ts");
    reveal_strlit("cts");
    reveal_strlit("mts");
    reveal_strlit("tsx");
    reveal_strlit("c");
    reveal_strlit("h");
    reveal_strlit("cc");
    reveal_strlit("cpp");
    reveal_strlit("cxx");
    reveal_strlit("hpp");
    reveal_strlit("rs");
    reveal_strlit("go");
    reveal_strlit("rb");
    reveal_strlit("gemspec");
    let i = choose|i: int| 0 <= i < extensions(a).len() && extensions(a)[i] == e;
    let j = choose|j: int| 0 <= j < extensions(b).len() && extensions(b)[j] == e;
    assert(e.len() == extensions(a)[i].len());
    assert(e.len() == extensions(b)[j].len());
    assert(extensions(a)[i][0] == extensions(b)[j][0]);
    if e.len() > 1 {
        assert(extensions(a)[i][1] == extensions(b)[j][1]);
    }
    if e.len() > 2 {
        assert(extensions(a)[i][2] == extensions(b)[j][2]);
    }
}

} // verus!
