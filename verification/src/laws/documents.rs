//! Open documents, and what the client's notifications do to a session.

use vstd::prelude::*;
use vstd::string::*;

use super::editing::a_patch_replaces_what_it_spans;
use crate::buffers::{
    edited, is_language_of, language_with_id, patched, BufferStore, ContentChange,
};
use crate::index::snapshot::belongs;
use crate::model::{is_file_of, LangId};
use crate::path::{is_under, name_of, path_parts, path_precedes, Part};
use crate::position::{position_of, Encoding};
use crate::protocol::{IdView, Outgoing, Range, RequestId};
use crate::server::dispatch::{
    after_events, name_views, notified, Notification, WatchView,
};
use crate::reindex::ReindexReq;
use crate::server::scheduler::carries;
use crate::server::session::Session;
use crate::text::byte_len;
use crate::types::{parsed_url, uri_parts, uri_path, RootDir};

verus! {

// ---------------------------------------------------------------------------
// Languages

/// A language id names a language: each by its protocol name and its aliases.
pub open spec fn names_language(id: Seq<char>, lang: LangId) -> bool {
    match lang {
        LangId::Python => id == "python"@ || id == "py"@,
        LangId::JavaScript => id == "javascript"@ || id == "js"@ || id == "jsx"@,
        LangId::TypeScript => id == "typescript"@ || id == "ts"@,
        LangId::Tsx => id == "typescriptreact"@ || id == "tsx"@,
        LangId::C => id == "c"@,
        LangId::Cpp => id == "cpp"@ || id == "c++"@ || id == "cc"@ || id == "cxx"@,
        LangId::Rust => id == "rust"@ || id == "rs"@,
        LangId::Go => id == "go"@,
        LangId::Ruby => id == "ruby"@ || id == "rb"@,
    }
}

/// A language id names at most one language, and is taken for that one.
pub proof fn an_id_names_one_language(id: Seq<char>, lang: LangId)
    ensures
        language_with_id(id) == Some(lang) <==> names_language(id, lang),
{
    reveal_strlit("python");
    reveal_strlit("py");
    reveal_strlit("javascript");
    reveal_strlit("js");
    reveal_strlit("jsx");
    reveal_strlit("typescript");
    reveal_strlit("ts");
    reveal_strlit("typescriptreact");
    reveal_strlit("tsx");
    reveal_strlit("c");
    reveal_strlit("cpp");
    reveal_strlit("c++");
    reveal_strlit("cc");
    reveal_strlit("cxx");
    reveal_strlit("rust");
    reveal_strlit("rs");
    reveal_strlit("go");
    reveal_strlit("ruby");
    reveal_strlit("rb");
    let two = seq!["py"@, "js"@, "ts"@, "cc"@, "rs"@, "go"@, "rb"@];
    let three = seq!["jsx"@, "tsx"@, "cpp"@, "c++"@, "cxx"@];
    assert forall|i: int, j: int| 0 <= i < j < two.len() implies #[trigger] two[i] != #[trigger] two[j] by {
        assert(two[i][0] != two[j][0] || two[i][1] != two[j][1]);
    }
    assert forall|i: int, j: int| 0 <= i < j < three.len() implies #[trigger] three[i]
        != #[trigger] three[j] by {
        assert(three[i][0] != three[j][0] || three[i][1] != three[j][1] || three[i][2]
            != three[j][2]);
    }
    assert("c"@.len() == 1 && "py"@.len() == 2 && "js"@.len() == 2 && "ts"@.len() == 2 && "cc"@.len()
        == 2 && "rs"@.len() == 2 && "go"@.len() == 2 && "rb"@.len() == 2);
    assert("jsx"@.len() == 3 && "tsx"@.len() == 3 && "cpp"@.len() == 3 && "c++"@.len() == 3
        && "cxx"@.len() == 3);
    assert("rust"@.len() == 4 && "ruby"@.len() == 4 && "python"@.len() == 6 && "javascript"@.len()
        == 10 && "typescript"@.len() == 10 && "typescriptreact"@.len() == 15);
    assert("rust"@[2] != "ruby"@[2] && "javascript"@[0] != "typescript"@[0]);
    assert(two[0] != two[1] && two[0] != two[2] && two[0] != two[3] && two[0] != two[4] && two[0]
        != two[5] && two[0] != two[6]);
    assert(two[1] != two[2] && two[1] != two[3] && two[1] != two[4] && two[1] != two[5] && two[1]
        != two[6]);
    assert(two[2] != two[3] && two[2] != two[4] && two[2] != two[5] && two[2] != two[6]);
    assert(two[3] != two[4] && two[3] != two[5] && two[3] != two[6]);
    assert(two[4] != two[5] && two[4] != two[6] && two[5] != two[6]);
    assert(three[0] != three[1] && three[0] != three[2] && three[0] != three[3] && three[0]
        != three[4]);
    assert(three[1] != three[2] && three[1] != three[3] && three[1] != three[4]);
}

/// A document is in a language: the one its id names, or where that names none, the one
/// its path's extension does.
pub open spec fn is_in(url: Seq<char>, id: Seq<char>, lang: LangId) -> bool {
    names_language(id, lang) || (forall|other: LangId| !names_language(id, other)) && (uri_parts(url)
        matches Some(path) && is_file_of(path, lang))
}

proof fn lemma_is_in(url: Seq<char>, id: Seq<char>, lang: LangId)
    ensures
        is_language_of(url, id, lang) <==> is_in(url, id, lang),
{
    an_id_names_one_language(id, lang);
    assert forall|other: LangId| language_with_id(id) == Some(other) <==> #[trigger] names_language(
        id,
        other,
    ) by {
        an_id_names_one_language(id, other);
    }
    if let Some(named) = language_with_id(id) {
        assert(names_language(id, named));
    }
}

// ---------------------------------------------------------------------------
// Documents

/// A session is as it was but for one document, and for what waits to be indexed.
pub open spec fn same_but_document(before: Session, after: Session, url: Seq<char>) -> bool {
    &&& after.root == before.root
    &&& after.encoding == before.encoding
    &&& after.definition_links == before.definition_links
    &&& after.warned_resolvers == before.warned_resolvers
    &&& after.index == before.index
    &&& after.applied_seq == before.applied_seq
    &&& after.scheduler == before.scheduler
    &&& after.progress == before.progress
    &&& forall|other: Seq<char>|
        other != url ==> (#[trigger] after.buffers@.contains_key(other)
            == before.buffers@.contains_key(other) && (before.buffers@.contains_key(other)
            ==> after.buffers@[other] == before.buffers@[other]))
}

/// A document has a path under the root.
pub open spec fn lies_under(url: Seq<char>, root: Seq<Part>) -> bool {
    uri_parts(url) matches Some(path) && is_under(path, root)
}

/// Opening a document of a known language holds it, at the version and with the text
/// sent, over whatever was held before; one of no known language changes nothing. What
/// lies under the root is to be indexed.
pub proof fn opening_holds_the_document(
    uri: String,
    language_id: String,
    version: i32,
    text: String,
    before: Session,
    after: Session,
    in_flight: Map<IdView, bool>,
    still: Map<IdView, bool>,
    messages: Seq<Outgoing>,
    url: Seq<char>,
)
    requires
        notified(
            Notification::DidOpen { uri, language_id, version, text },
            before,
            after,
            in_flight,
            still,
            messages,
        ),
        parsed_url(uri@) == Ok::<Seq<char>, Seq<char>>(url),
    ensures
        still == in_flight && messages.len() == 0,
        same_but_document(before, after, url),
        forall|lang: LangId| #[trigger]
            is_in(url, language_id@, lang) ==> after.buffers@.contains_key(url) && {
                let doc = after.buffers@[url];
                doc.version.0 == version && doc.text == text@ && doc.path == uri_parts(url) && is_in(
                    url,
                    language_id@,
                    doc.lang,
                )
            } && (after.dirty <==> before.dirty || lies_under(url, before.root@)),
        (forall|lang: LangId| !#[trigger] is_in(url, language_id@, lang)) ==> after.buffers@
            == before.buffers@ && after.dirty == before.dirty,
{
    assert forall|lang: LangId| is_language_of(url, language_id@, lang) <==> #[trigger] is_in(
        url,
        language_id@,
        lang,
    ) by {
        lemma_is_in(url, language_id@, lang);
    }
    assert forall|lang: LangId| #[trigger] is_language_of(url, language_id@, lang) implies is_in(
        url,
        language_id@,
        lang,
    ) by {
        lemma_is_in(url, language_id@, lang);
    }
}

/// A change of an open document with a newer version is applied to it: the edits one
/// after the other, the version as sent. One of another version, or of a document that is
/// not open, changes nothing.
pub proof fn a_change_edits_the_document(
    uri: String,
    version: i32,
    changes: Vec<ContentChange>,
    before: Session,
    after: Session,
    in_flight: Map<IdView, bool>,
    still: Map<IdView, bool>,
    messages: Seq<Outgoing>,
    url: Seq<char>,
)
    requires
        notified(
            Notification::DidChange { uri, version, changes },
            before,
            after,
            in_flight,
            still,
            messages,
        ),
        parsed_url(uri@) == Ok::<Seq<char>, Seq<char>>(url),
    ensures
        still == in_flight && messages.len() == 0,
        same_but_document(before, after, url),
        before.buffers@.contains_key(url) && version > before.buffers@[url].version.0 ==> {
            let (old_doc, doc) = (before.buffers@[url], after.buffers@[url]);
            &&& after.buffers@.contains_key(url)
            &&& doc.version.0 == version && doc.lang == old_doc.lang && doc.path == old_doc.path
            &&& doc.text == edited(old_doc.text, changes@, before.encoding)
            &&& after.dirty <==> before.dirty || lies_under(url, before.root@)
        },
        !(before.buffers@.contains_key(url) && version > before.buffers@[url].version.0)
            ==> after.buffers@ == before.buffers@ && after.dirty == before.dirty,
{
}

/// Edits apply one after the other: no edit leaves the text as it was, and each goes by
/// the text that those before it made, in full where it names no range.
pub proof fn edits_apply_one_after_the_other(
    s: Seq<char>,
    first: Seq<ContentChange>,
    last: ContentChange,
    encoding: Encoding,
)
    ensures
        edited(s, Seq::empty(), encoding) == s,
        last.range is None ==> edited(s, first.push(last), encoding) == last.text@,
        last.range matches Some(range) ==> edited(s, first.push(last), encoding) == patched(
            edited(s, first, encoding),
            range,
            last.text@,
            encoding,
        ),
{
    assert(first.push(last).drop_last() =~= first);
}

/// One edit between two characters of an open document leaves everything else of its text
/// as it was.
pub proof fn one_edit_replaces_what_it_spans(
    uri: String,
    version: i32,
    changes: Vec<ContentChange>,
    before: Session,
    after: Session,
    in_flight: Map<IdView, bool>,
    still: Map<IdView, bool>,
    messages: Seq<Outgoing>,
    url: Seq<char>,
    i: int,
    j: int,
)
    requires
        notified(
            Notification::DidChange { uri, version, changes },
            before,
            after,
            in_flight,
            still,
            messages,
        ),
        parsed_url(uri@) == Ok::<Seq<char>, Seq<char>>(url),
        before.buffers@.contains_key(url),
        version > before.buffers@[url].version.0,
        changes@.len() == 1,
        0 <= i <= j <= before.buffers@[url].text.len(),
        byte_len(before.buffers@[url].text) <= u32::MAX,
        changes@[0].range == Some(
            Range {
                start: position_of(before.buffers@[url].text, i, before.encoding),
                end: position_of(before.buffers@[url].text, j, before.encoding),
            },
        ),
    ensures
        after.buffers@[url].text == before.buffers@[url].text.take(i) + changes@[0].text@
            + before.buffers@[url].text.skip(j),
{
    let s = before.buffers@[url].text;
    a_change_edits_the_document(
        uri,
        version,
        changes,
        before,
        after,
        in_flight,
        still,
        messages,
        url,
    );
    assert(changes@ =~= Seq::<ContentChange>::empty().push(changes@[0]));
    edits_apply_one_after_the_other(s, Seq::empty(), changes@[0], before.encoding);
    a_patch_replaces_what_it_spans(s, i, j, changes@[0].text@, before.encoding);
}

/// Closing forgets the document, and has what lies under the root indexed from disk again.
pub proof fn closing_forgets_the_document(
    uri: String,
    before: Session,
    after: Session,
    in_flight: Map<IdView, bool>,
    still: Map<IdView, bool>,
    messages: Seq<Outgoing>,
    url: Seq<char>,
)
    requires
        notified(Notification::DidClose { uri }, before, after, in_flight, still, messages),
        parsed_url(uri@) == Ok::<Seq<char>, Seq<char>>(url),
    ensures
        still == in_flight && messages.len() == 0,
        same_but_document(before, after, url),
        !after.buffers@.contains_key(url),
        after.dirty <==> before.dirty || before.buffers@.contains_key(url) && lies_under(
            url,
            before.root@,
        ),
{
}

/// A save that carries the text gives it to an open document, whose version stays; it has
/// what lies under the root indexed again, open or not.
pub proof fn saving_takes_the_text(
    uri: String,
    saved: Option<String>,
    before: Session,
    after: Session,
    in_flight: Map<IdView, bool>,
    still: Map<IdView, bool>,
    messages: Seq<Outgoing>,
    url: Seq<char>,
)
    requires
        notified(Notification::DidSave { uri, saved }, before, after, in_flight, still, messages),
        parsed_url(uri@) == Ok::<Seq<char>, Seq<char>>(url),
    ensures
        still == in_flight && messages.len() == 0,
        same_but_document(before, after, url),
        after.buffers@.contains_key(url) == before.buffers@.contains_key(url),
        before.buffers@.contains_key(url) ==> {
            let (old_doc, doc) = (before.buffers@[url], after.buffers@[url]);
            &&& doc.version == old_doc.version && doc.lang == old_doc.lang && doc.path == old_doc.path
            &&& doc.text == (match saved {
                Some(text) => text@,
                None => old_doc.text,
            })
        },
        after.dirty <==> before.dirty || lies_under(url, before.root@),
{
}

/// A notification whose address does not parse, or that cannot be acted on, changes
/// nothing.
pub proof fn what_cannot_be_acted_on_changes_nothing(
    notification: Notification,
    before: Session,
    after: Session,
    in_flight: Map<IdView, bool>,
    still: Map<IdView, bool>,
    messages: Seq<Outgoing>,
)
    requires
        notified(notification, before, after, in_flight, still, messages),
        match notification {
            Notification::DidOpen { uri, .. } => parsed_url(uri@) is Err,
            Notification::DidChange { uri, .. } => parsed_url(uri@) is Err,
            Notification::DidClose { uri } => parsed_url(uri@) is Err,
            Notification::DidSave { uri, .. } => parsed_url(uri@) is Err,
            Notification::Ignored => true,
            _ => false,
        },
    ensures
        after == before,
        still == in_flight,
        messages.len() == 0,
{
}

/// A cancel marks the request in flight with its id, if there is one, and no other; the
/// session stays as it was.
pub proof fn a_cancel_marks_its_request(
    id: RequestId,
    before: Session,
    after: Session,
    in_flight: Map<IdView, bool>,
    still: Map<IdView, bool>,
    messages: Seq<Outgoing>,
    other: IdView,
)
    requires
        notified(Notification::Cancel { id }, before, after, in_flight, still, messages),
    ensures
        after == before,
        messages.len() == 0,
        still.contains_key(other) == in_flight.contains_key(other),
        in_flight.contains_key(other) ==> still[other] == (in_flight[other] || other == id@),
{
}

/// A request for a pass carries every document that is open under the root, once, with
/// its text, version, language and path, and no other; ordered by path.
pub proof fn a_request_carries_every_buffer(req: ReindexReq, root: RootDir, buffers: BufferStore)
    requires
        carries(req, root, buffers),
    ensures
        req.root@ == root@ && req.root.spelling() == root.spelling(),
        forall|url: Seq<char>| #[trigger]
            buffers@.contains_key(url) && lies_under(url, root@) ==> exists|k: int|
                0 <= k < req.overlays@.len() && (#[trigger] req.overlays@[k]).uri@ == url,
        forall|k: int|
            0 <= k < req.overlays@.len() ==> {
                let overlay = #[trigger] req.overlays@[k];
                let doc = buffers@[overlay.uri@];
                &&& buffers@.contains_key(overlay.uri@) && lies_under(overlay.uri@, root@)
                &&& overlay.text@ == doc.text
                &&& overlay.version == doc.version.0
                &&& overlay.lang == doc.lang
                &&& uri_parts(overlay.uri@) == Some(overlay.path@)
                &&& uri_path(overlay.uri@) == Some(overlay.path.spelling())
            },
        forall|j: int, k: int|
            0 <= j < k < req.overlays@.len() ==> (#[trigger] req.overlays@[j]).uri@ != (
            #[trigger] req.overlays@[k]).uri@ && !path_precedes(
                req.overlays@[k].path@,
                req.overlays@[j].path@,
            ),
{
    assert forall|url: Seq<char>| #[trigger]
        buffers@.contains_key(url) && lies_under(url, root@) implies exists|k: int|
        0 <= k < req.overlays@.len() && (#[trigger] req.overlays@[k]).uri@ == url by {
        assert(belongs(url, root@));
    }
}

// ---------------------------------------------------------------------------
// Watched files

/// A watched file lies under the root and is a source of some language.
pub open spec fn is_source_event(root: Seq<Part>, uri: Seq<char>) -> bool {
    parsed_url(uri) matches Ok(url) && (uri_parts(url) matches Some(path) && is_under(path, root) && (
    exists|lang: LangId| is_file_of(path, lang)))
}

/// A watched file lies under the root, is no source, and is a resolver config of a name.
pub open spec fn is_config_event(root: Seq<Part>, uri: Seq<char>, name: Seq<char>) -> bool {
    parsed_url(uri) matches Ok(url) && (uri_parts(url) matches Some(path) && is_under(path, root)
        && !(exists|lang: LangId| is_file_of(path, lang)) && name_of(path) == Some(name) && (name
        == "tsconfig.json"@ || name == "jsconfig.json"@ || name == "go.mod"@ || name
        == "pyproject.toml"@ || name == "package.json"@))
}

proof fn lemma_config_names(name: Seq<char>)
    ensures
        crate::server::capabilities::resolver_configs().contains(name) <==> (name
            == "tsconfig.json"@ || name == "jsconfig.json"@ || name == "go.mod"@ || name
            == "pyproject.toml"@ || name == "package.json"@),
{
    let all = crate::server::capabilities::resolver_configs();
    assert(all[0] == "tsconfig.json"@);
    assert(all[1] == "jsconfig.json"@);
    assert(all[2] == "go.mod"@);
    assert(all[3] == "pyproject.toml"@);
    assert(all[4] == "package.json"@);
}

proof fn lemma_events(root: Seq<Part>, state: WatchView, uris: Seq<String>)
    ensures
        ({
            let end = after_events(root, state, uris);
            &&& end.changed <==> state.changed || exists|k: int|
                0 <= k < uris.len() && is_source_event(root, (#[trigger] uris[k])@)
            &&& forall|name: Seq<char>| #[trigger]
                end.warned.contains(name) <==> state.warned.contains(name) || exists|k: int|
                    0 <= k < uris.len() && is_config_event(root, (#[trigger] uris[k])@, name)
            &&& end.warned.len() - state.warned.len() == end.warnings.len() - state.warnings.len()
            &&& end.warned.len() >= state.warned.len()
            &&& forall|k: int| 0 <= k < state.warned.len() ==> end.warned[k] == state.warned[k]
        }),
    decreases uris.len(),
{
    if uris.len() > 0 {
        let rest = uris.drop_last();
        let before = after_events(root, state, rest);
        let end = after_events(root, state, uris);
        let uri = uris.last()@;
        lemma_events(root, state, rest);
        assert(end.changed <==> before.changed || is_source_event(root, uri));
        assert((exists|k: int| 0 <= k < uris.len() && is_source_event(root, (#[trigger] uris[k])@))
            <==> (exists|k: int| 0 <= k < rest.len() && is_source_event(root, (#[trigger] rest[k])@))
            || is_source_event(root, uri)) by {
            if exists|k: int| 0 <= k < uris.len() && is_source_event(root, (#[trigger] uris[k])@) {
                let k = choose|k: int|
                    0 <= k < uris.len() && is_source_event(root, (#[trigger] uris[k])@);
                if k < rest.len() {
                    assert(is_source_event(root, rest[k]@));
                }
            }
            if exists|k: int| 0 <= k < rest.len() && is_source_event(root, (#[trigger] rest[k])@) {
                let k = choose|k: int|
                    0 <= k < rest.len() && is_source_event(root, (#[trigger] rest[k])@);
                assert(is_source_event(root, uris[k]@));
            }
            if is_source_event(root, uri) {
                assert(is_source_event(root, uris[uris.len() - 1]@));
            }
        }
        assert forall|name: Seq<char>| #[trigger] end.warned.contains(name) <==> (
        state.warned.contains(name) || exists|k: int|
            0 <= k < uris.len() && is_config_event(root, (#[trigger] uris[k])@, name)) by {
            lemma_config_names(name);
            assert(before.warned.contains(name) <==> (state.warned.contains(name) || exists|k: int|
                0 <= k < rest.len() && is_config_event(root, (#[trigger] rest[k])@, name)));
            assert(end.warned.contains(name) <==> before.warned.contains(name) || is_config_event(
                root,
                uri,
                name,
            )) by {
                if end.warned.contains(name) {
                    let k = choose|k: int| 0 <= k < end.warned.len() && end.warned[k] == name;
                    if k < before.warned.len() {
                        assert(before.warned[k] == name);
                    }
                }
                if before.warned.contains(name) {
                    let k = choose|k: int| 0 <= k < before.warned.len() && before.warned[k] == name;
                    assert(end.warned[k] == name);
                }
                if is_config_event(root, uri, name) && !before.warned.contains(name) {
                    assert(end.warned[before.warned.len() as int] == name);
                }
            }
            if exists|k: int| 0 <= k < uris.len() && is_config_event(root, (#[trigger] uris[k])@, name) {
                let k = choose|k: int|
                    0 <= k < uris.len() && is_config_event(root, (#[trigger] uris[k])@, name);
                if k < rest.len() {
                    assert(is_config_event(root, rest[k]@, name));
                }
            }
            if exists|k: int| 0 <= k < rest.len() && is_config_event(root, (#[trigger] rest[k])@, name) {
                let k = choose|k: int|
                    0 <= k < rest.len() && is_config_event(root, (#[trigger] rest[k])@, name);
                assert(is_config_event(root, uris[k]@, name));
            }
            if is_config_event(root, uri, name) {
                assert(is_config_event(root, uris[uris.len() - 1]@, name));
            }
        }
    }
}

/// A warning names the path of a resolver config among some addresses.
pub open spec fn warns_of(root: Seq<Part>, uris: Seq<String>, text: Seq<char>) -> bool {
    exists|k: int, name: Seq<char>|
        0 <= k < uris.len() && #[trigger] is_config_event(root, uris[k]@, name) && text == uri_path(
            parsed_url(uris[k]@)->Ok_0,
        )->0 + " changed. Restart the server to apply the new resolver configuration."@
}

proof fn lemma_warnings(root: Seq<Part>, state: WatchView, uris: Seq<String>)
    ensures
        ({
            let end = after_events(root, state, uris);
            &&& end.warnings.len() >= state.warnings.len()
            &&& forall|m: int|
                0 <= m < state.warnings.len() ==> #[trigger] end.warnings[m] == state.warnings[m]
            &&& forall|m: int|
                state.warnings.len() <= m < end.warnings.len() ==> warns_of(
                    root,
                    uris,
                    #[trigger] end.warnings[m],
                )
        }),
    decreases uris.len(),
{
    if uris.len() > 0 {
        let rest = uris.drop_last();
        let before = after_events(root, state, rest);
        let end = after_events(root, state, uris);
        lemma_warnings(root, state, rest);
        assert forall|m: int| state.warnings.len() <= m < end.warnings.len() implies warns_of(
            root,
            uris,
            #[trigger] end.warnings[m],
        ) by {
            if m < before.warnings.len() {
                assert(end.warnings[m] == before.warnings[m]);
                assert(warns_of(root, rest, before.warnings[m]));
                let (k, name) = choose|k: int, name: Seq<char>|
                    0 <= k < rest.len() && #[trigger] is_config_event(root, rest[k]@, name)
                        && before.warnings[m] == uri_path(parsed_url(rest[k]@)->Ok_0)->0
                        + " changed. Restart the server to apply the new resolver configuration."@;
                assert(is_config_event(root, uris[k]@, name));
            } else {
                let last = uris.len() - 1;
                let url = parsed_url(uris[last]@)->Ok_0;
                let name = name_of(path_parts(uri_path(url)->0))->0;
                lemma_config_names(name);
                assert(is_config_event(root, uris[last]@, name));
            }
        }
    }
}

/// Watched files have the workspace indexed again if and only if one of them is a source
/// under the root. Each name of a resolver config under the root is warned of once, with
/// one message, and stays warned of.
pub proof fn watched_files_are_noticed(
    uris: Vec<String>,
    before: Session,
    after: Session,
    in_flight: Map<IdView, bool>,
    still: Map<IdView, bool>,
    messages: Seq<Outgoing>,
)
    requires
        notified(Notification::WatchedFiles { uris }, before, after, in_flight, still, messages),
    ensures
        still == in_flight,
        after.dirty <==> before.dirty || exists|k: int|
            0 <= k < uris@.len() && is_source_event(before.root@, (#[trigger] uris@[k])@),
        forall|name: Seq<char>| #[trigger]
            name_views(after.warned_resolvers@).contains(name) <==> name_views(
                before.warned_resolvers@,
            ).contains(name) || exists|k: int|
                0 <= k < uris@.len() && is_config_event(before.root@, (#[trigger] uris@[k])@, name),
        messages.len() == after.warned_resolvers@.len() - before.warned_resolvers@.len(),
        forall|m: int|
            0 <= m < messages.len() ==> ((#[trigger] messages[m]) matches Outgoing::ShowWarning {
                message,
            } && warns_of(before.root@, uris@, message@)),
        after == (Session {
            warned_resolvers: after.warned_resolvers,
            dirty: after.dirty,
            ..before
        }),
{
    let start = WatchView {
        warned: name_views(before.warned_resolvers@),
        changed: false,
        warnings: Seq::empty(),
    };
    lemma_events(before.root@, start, uris@);
    lemma_warnings(before.root@, start, uris@);
    let state = after_events(before.root@, start, uris@);
    assert forall|m: int| 0 <= m < messages.len() implies ((#[trigger] messages[m]) matches Outgoing::ShowWarning {
        message,
    } && warns_of(before.root@, uris@, message@)) by {
        assert(crate::server::dispatch::shows_warning(messages[m], state.warnings[m]));
        assert(warns_of(before.root@, uris@, state.warnings[m]));
    }
    assert(name_views(after.warned_resolvers@).len() == after.warned_resolvers@.len());
    assert(name_views(before.warned_resolvers@).len() == before.warned_resolvers@.len());
}

} // verus!
