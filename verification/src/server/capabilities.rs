//! Capability negotiation and dynamic registrations.

use vstd::prelude::*;
use vstd::string::*;

use crate::convert::DIAGNOSTIC_SOURCE;
use crate::model::{extensions, extensions_of, LangId};
use crate::order::{
    distinct_order, distinct_order_keeps_every_key_once, is_represented,
    lemma_distinct_order_bounds, lemma_text_level, sort_distinct_by_keys, text_precedes, SortKey,
};
use crate::path::{name_of, path_parts, DocPath, Part};
use crate::position::{negotiate, offers_utf8, Encoding};
use crate::protocol::{
    ClientCapabilities, InitializeParams, ServerCapabilities, SyncKind,
};
use crate::text::{joined, same_text};
use crate::types::{parsed_url, uri_path, DocUri, RootDir};

verus! {

// ---------------------------------------------------------------------------
// Resolver configs

/// Files whose contents shape engine resolver state for the process lifetime.
pub open spec fn resolver_configs() -> Seq<Seq<char>> {
    seq![
        "tsconfig.json"@,
        "jsconfig.json"@,
        "go.mod"@,
        "pyproject.toml"@,
        "package.json"@,
    ]
}

fn resolver_config_names() -> (r: Vec<String>)
    ensures
        r@.len() == resolver_configs().len(),
        forall|i: int| 0 <= i < r@.len() ==> (#[trigger] r@[i])@ == resolver_configs()[i],
{
    let mut r: Vec<String> = Vec::new();
    r.push("tsconfig.json".to_owned());
    r.push("jsconfig.json".to_owned());
    r.push("go.mod".to_owned());
    r.push("pyproject.toml".to_owned());
    r.push("package.json".to_owned());
    r
}

/// Whether a path names a resolver config.
pub open spec fn names_resolver_config(path: Seq<Part>) -> bool {
    name_of(path) matches Some(name) && resolver_configs().contains(name)
}

pub fn is_resolver_config(path: &DocPath) -> (r: bool)
    ensures
        r == names_resolver_config(path@),
{
    let name = match path.file_name() {
        Some(name) => name,
        None => {
            return false;
        },
    };
    let configs = resolver_config_names();
    let mut i: usize = 0;
    while i < configs.len()
        invariant
            i <= configs@.len(),
            name_of(path@) == Some(name@),
            configs@.len() == resolver_configs().len(),
            forall|k: int| 0 <= k < configs@.len() ==> (#[trigger] configs@[k])@ == resolver_configs()[k],
            forall|k: int| 0 <= k < i ==> #[trigger] resolver_configs()[k] != name@,
        decreases configs.len() - i,
    {
        if same_text(configs[i].as_str(), name) {
            assert(resolver_configs()[i as int] == name@);
            return true;
        }
        assert(configs@[i as int]@ == resolver_configs()[i as int]);
        i += 1;
    }
    false
}

// ---------------------------------------------------------------------------
// Watched files

/// The patterns of the extensions of the first `n` languages.
pub open spec fn extension_globs(n: int) -> Seq<Seq<char>>
    decreases n,
{
    if n <= 0 {
        Seq::empty()
    } else {
        extension_globs(n - 1) + extensions(LangId::spec_all()[n - 1]).map_values(
            |extension: Seq<char>| "**/*."@ + extension,
        )
    }
}

/// Every pattern to watch: of every parseable extension, and of the resolver
/// configs.
pub open spec fn all_globs() -> Seq<Seq<char>> {
    extension_globs(LangId::spec_all().len() as int) + resolver_configs().map_values(
        |name: Seq<char>| "**/"@ + name,
    )
}

/// The texts of strings.
pub open spec fn texts_of(strings: Seq<String>) -> Seq<Seq<char>> {
    strings.map_values(|text: String| text@)
}

fn list_globs() -> (r: Vec<String>)
    ensures
        texts_of(r@) == all_globs(),
{
    let mut globs: Vec<String> = Vec::new();
    let langs = LangId::all();
    let mut n: usize = 0;
    while n < langs.len()
        invariant
            langs@ == LangId::spec_all(),
            n <= langs@.len(),
            texts_of(globs@) == extension_globs(n as int),
        decreases langs.len() - n,
    {
        let own = extensions_of(langs[n]);
        let ghost wanted = extensions(langs@[n as int]).map_values(
            |extension: Seq<char>| "**/*."@ + extension,
        );
        let ghost before = extension_globs(n as int);
        let mut k: usize = 0;
        assert(before + wanted.take(0) =~= before);
        assert(texts_of(own@) == extensions(langs@[n as int]));
        while k < own.len()
            invariant
                k <= own@.len(),
                texts_of(own@) == extensions(langs@[n as int]),
                wanted == extensions(langs@[n as int]).map_values(
                    |extension: Seq<char>| "**/*."@ + extension,
                ),
                texts_of(globs@) == before + wanted.take(k as int),
            decreases own.len() - k,
        {
            assert(texts_of(own@)[k as int] == own@[k as int]@);
            let ghost held = globs@;
            let glob: String = joined("**/*.", own[k].as_str());
            globs.push(glob);
            k += 1;
            assert(texts_of(globs@) =~= texts_of(held).push(glob@));
            assert(texts_of(globs@) =~= before + wanted.take(k as int));
        }
        assert(texts_of(own@).len() == own@.len());
        assert(wanted.take(k as int) =~= wanted);
        n += 1;
    }
    let configs = resolver_config_names();
    let ghost before = extension_globs(n as int);
    let ghost wanted = resolver_configs().map_values(|name: Seq<char>| "**/"@ + name);
    let mut i: usize = 0;
    assert(before + wanted.take(0) =~= before);
    while i < configs.len()
        invariant
            i <= configs@.len(),
            configs@.len() == resolver_configs().len(),
            forall|k: int| 0 <= k < configs@.len() ==> (#[trigger] configs@[k])@ == resolver_configs()[k],
            wanted == resolver_configs().map_values(|name: Seq<char>| "**/"@ + name),
            texts_of(globs@) == before + wanted.take(i as int),
        decreases configs.len() - i,
    {
        assert(configs@[i as int]@ == resolver_configs()[i as int]);
        let ghost held = globs@;
        let glob: String = joined("**/", configs[i].as_str());
        globs.push(glob);
        i += 1;
        assert(texts_of(globs@) =~= texts_of(held).push(glob@));
        assert(texts_of(globs@) =~= before + wanted.take(i as int));
    }
    assert(wanted.take(i as int) =~= wanted);
    globs
}

/// Patterns come in order and once each.
pub open spec fn is_sorted_set(globs: Seq<Seq<char>>) -> bool {
    forall|i: int, j: int|
        0 <= i < j < globs.len() ==> text_precedes(#[trigger] globs[i], #[trigger] globs[j])
}

/// Glob patterns for every parseable extension, plus the resolver config files:
/// sorted, each once.
pub fn watched_globs() -> (r: Vec<String>)
    ensures
        is_sorted_set(texts_of(r@)),
        forall|glob: Seq<char>| texts_of(r@).contains(glob) <==> all_globs().contains(glob),
{
    let globs = list_globs();
    let mut keys: Vec<String> = Vec::new();
    let mut i: usize = 0;
    while i < globs.len()
        invariant
            i <= globs@.len(),
            keys@.len() == i,
            forall|k: int| 0 <= k < i ==> #[trigger] keys@[k] == globs@[k],
        decreases globs.len() - i,
    {
        keys.push(globs[i].clone());
        i += 1;
    }
    let ghost list = globs@;
    assert(keys@ =~= list);
    let r = sort_distinct_by_keys(globs, &keys);
    proof {
        let order = distinct_order(list);
        lemma_distinct_order_bounds(list);
        distinct_order_keeps_every_key_once(list);
        let texts = texts_of(r@);
        assert forall|i: int| 0 <= i < r@.len() implies 0 <= order[i] < list.len() && r@[i]
            == list[order[i]] by {}
        assert forall|i: int, j: int| 0 <= i < j < texts.len() implies text_precedes(
            #[trigger] texts[i],
            #[trigger] texts[j],
        ) by {
            assert(list[order[i]].precedes(&list[order[j]]));
        }
        assert forall|glob: Seq<char>| texts.contains(glob) <==> all_globs().contains(glob) by {
            if texts.contains(glob) {
                let i = choose|i: int| 0 <= i < texts.len() && texts[i] == glob;
                assert(texts_of(list)[order[i]] == glob);
            }
            if all_globs().contains(glob) {
                let p = choose|p: int| 0 <= p < all_globs().len() && all_globs()[p] == glob;
                assert(texts_of(list)[p] == list[p]@);
                assert(is_represented(list, order, p));
                let j = choose|j: int|
                    0 <= j < order.len() && !list[#[trigger] order[j]].precedes(&list[p])
                        && !list[p].precedes(&list[order[j]]);
                lemma_text_level(list[order[j]]@, list[p]@);
                assert(texts[j] == glob);
            }
        }
    }
    r
}

// ---------------------------------------------------------------------------
// Capabilities

/// What the server offers in a negotiated encoding: edits come as ranges, saves
/// without their text, diagnostics are pulled file by file.
pub open spec fn is_offer(offer: ServerCapabilities, encoding: Encoding) -> bool {
    &&& offer.position_encoding@ == encoding.name()
    &&& offer.open_close
    &&& offer.change == SyncKind::Incremental
    &&& !offer.save_includes_text
    &&& offer.document_symbol
    &&& offer.hover
    &&& offer.definition
    &&& offer.references
    &&& offer.workspace_symbol
    &&& texts_of(offer.completion_triggers@) == seq!["."@, ":"@, "/"@]
    &&& offer.diagnostic_identifier@ == DIAGNOSTIC_SOURCE@
    &&& !offer.inter_file_dependencies
    &&& !offer.workspace_diagnostics
}

/// What the server offers in a negotiated encoding.
pub fn capabilities(encoding: Encoding) -> (r: ServerCapabilities)
    ensures
        is_offer(r, encoding),
{
    let mut completion_triggers: Vec<String> = Vec::new();
    completion_triggers.push(".".to_owned());
    completion_triggers.push(":".to_owned());
    completion_triggers.push("/".to_owned());
    assert(texts_of(completion_triggers@) =~= seq!["."@, ":"@, "/"@]);
    ServerCapabilities {
        position_encoding: encoding.as_lsp().to_owned(),
        open_close: true,
        change: SyncKind::Incremental,
        save_includes_text: false,
        document_symbol: true,
        hover: true,
        definition: true,
        references: true,
        workspace_symbol: true,
        completion_triggers,
        diagnostic_identifier: DIAGNOSTIC_SOURCE.to_owned(),
        inter_file_dependencies: false,
        workspace_diagnostics: false,
    }
}

/// Pull only: a client without `textDocument.diagnostic` cannot ask, so initialize
/// refuses instead of pushing.
pub fn supports_pull_diagnostics(caps: &ClientCapabilities) -> (r: bool)
    ensures
        r == caps.pull_diagnostics,
{
    caps.pull_diagnostics
}

/// Dynamic registration is the only portable way to receive external changes.
pub fn supports_watched_files(caps: &ClientCapabilities) -> (r: bool)
    ensures
        r == caps.watched_files_registration,
{
    caps.watched_files_registration
}

// ---------------------------------------------------------------------------
// The root

/// The path of the first folder that has one.
pub open spec fn first_path(folders: Seq<String>) -> Option<Seq<char>>
    decreases folders.len(),
{
    if folders.len() == 0 {
        None
    } else {
        let own = match parsed_url(folders[0]@) {
            Ok(url) => uri_path(url),
            Err(_) => None,
        };
        match own {
            Some(path) => Some(path),
            None => first_path(folders.drop_first()),
        }
    }
}

/// The path that the root is taken from: that of the first workspace folder that
/// is a file URI; the process CWD is never used.
pub fn root_from_params(params: &InitializeParams) -> (r: Result<DocPath, String>)
    ensures
        match params.workspace_folders {
            None => r matches Err(reason) && reason@
                == "client did not send workspaceFolders; metacall-lsp requires one workspace folder"@,
            Some(folders) => match first_path(folders@) {
                Some(path) => r matches Ok(root) && root.spelling() == path && root@ == path_parts(
                    path,
                ),
                None => r matches Err(reason) && reason@
                    == "no workspace folder resolves to a file path"@,
            },
        },
{
    let folders = match &params.workspace_folders {
        Some(folders) => folders,
        None => {
            return Err(
                "client did not send workspaceFolders; metacall-lsp requires one workspace folder".to_owned(),
            );
        },
    };
    let mut i: usize = 0;
    assert(folders@.skip(0) =~= folders@);
    while i < folders.len()
        invariant
            i <= folders@.len(),
            params.workspace_folders == Some(*folders),
            first_path(folders@) == first_path(folders@.skip(i as int)),
        decreases folders.len() - i,
    {
        assert(folders@.skip(i as int).drop_first() =~= folders@.skip(i as int + 1));
        if let Ok(uri) = DocUri::try_from(folders[i].as_str()) {
            if let Some(path) = uri.to_path() {
                return Ok(path.clone());
            }
        }
        i += 1;
    }
    Err("no workspace folder resolves to a file path".to_owned())
}

/// What serving a client takes, once it may be served.
#[derive(Debug)]
pub struct InitializePlan {
    pub root: RootDir,
    pub encoding: Encoding,
    pub progress_supported: bool,
    pub definition_links: bool,
    pub capabilities: ServerCapabilities,
    /// Patterns to register for, where the client takes the registration.
    pub watch: Option<Vec<String>>,
}

/// Decide whether and how to serve a client whose root was resolved, or was not.
/// A refusal says why.
pub fn plan_initialize(params: &InitializeParams, root: Result<RootDir, String>) -> (r: Result<
    InitializePlan,
    String,
>)
    ensures
        match (root, r) {
            (Err(reason), Err(refused)) => refused == reason,
            (Ok(_), Err(refused)) => !params.capabilities.pull_diagnostics && refused@
                == "client must support textDocument/diagnostic; this server is pull only"@,
            (Ok(root), Ok(plan)) => {
                &&& params.capabilities.pull_diagnostics
                &&& plan.root == root
                &&& plan.encoding == (if offers_utf8(params.capabilities) {
                    Encoding::Utf8
                } else {
                    Encoding::Utf16
                })
                &&& plan.progress_supported == params.capabilities.work_done_progress
                &&& plan.definition_links == params.capabilities.definition_link_support
                &&& is_offer(plan.capabilities, plan.encoding)
                &&& plan.watch is Some == params.capabilities.watched_files_registration
                &&& plan.watch matches Some(globs) ==> is_sorted_set(texts_of(globs@))
                    && forall|glob: Seq<char>|
                    texts_of(globs@).contains(glob) <==> all_globs().contains(glob)
            },
            (Err(_), Ok(_)) => false,
        },
{
    let root: RootDir = match root {
        Ok(root) => root,
        Err(reason) => {
            return Err(reason);
        },
    };
    if !supports_pull_diagnostics(&params.capabilities) {
        return Err(
            "client must support textDocument/diagnostic; this server is pull only".to_owned(),
        );
    }
    let encoding: Encoding = negotiate(&params.capabilities);
    let watch: Option<Vec<String>> = if supports_watched_files(&params.capabilities) {
        Some(watched_globs())
    } else {
        None
    };
    Ok(
        InitializePlan {
            root,
            encoding,
            progress_supported: params.capabilities.work_done_progress,
            definition_links: params.capabilities.definition_link_support,
            capabilities: capabilities(encoding),
            watch,
        },
    )
}

} // verus!
