//! What a request is answered with, from the message to the findings.

use vstd::prelude::*;
use vstd::string::*;
use vstd::utf8::*;

use crate::convert::word_of;
use crate::error::{ErrorView, ServerError};
use crate::handlers::complete::{completion_offers, shows_offers};
use crate::handlers::diagnostics::{diagnostics_about, shows_diagnostics};
use crate::handlers::goto::{answers_definition, referenced_places, shows_places};
use crate::handlers::symbol::{
    addressed, capped, ordered_matches, shows_symbols, shows_workspace_symbols, symbols_in,
    CAP_WORKSPACE_SYMBOLS,
};
use crate::handlers::{cursor_of, range_by, Texts};
use crate::index::query::{innermost_symbol, resolution_in};
use crate::index::{file_place, hash_of, version_of, Analysis};
use crate::model::{content_fingerprint, Symbol};
use crate::path::{is_under, DocPath, Part};
use crate::position::{offset_of, position_of, round_trip, Encoding};
use crate::protocol::{IdView, Outgoing, Position, Reply};
use crate::server::dispatch::{answers_query, dispatch_request, given, notified, Notification, Query};
use crate::server::progress::{is_about_progress, progress_message, pumped};
use crate::server::{confirms, ends_with_progress, noted_and_pumped, replies, turns_away};
use crate::server::session::{session_gives, DiskText, IndexState, Session};
use crate::text::{byte_len, byte_offset, decimal_text, signed_text};
use crate::types::{parsed_url, uri_parts};

verus! {

// ---------------------------------------------------------------------------
// Which requests are answered

/// An extraction of a path is there.
pub open spec fn is_indexed(a: Analysis, path: Seq<Part>) -> bool {
    exists|f: int| 0 <= f < a.extractions@.len() && (#[trigger] a.extractions@[f]).path@ == path
}

/// A snapshot was made from a version of a path: the last one it recorded.
pub open spec fn has_version(a: Analysis, path: Seq<Part>, version: i32) -> bool {
    exists|i: int|
        0 <= i < a.versions@.len() && (#[trigger] a.versions@[i]).path@ == path
            && a.versions@[i].version.0 == version && forall|k: int|
            i < k < a.versions@.len() ==> (#[trigger] a.versions@[k]).path@ != path
}

/// A session can answer for a document: there is a snapshot, and it was made from the
/// version the client has open, or has the file where none is open.
pub open spec fn can_answer(session: Session, url: Seq<char>) -> bool {
    session.index matches IndexState::Ready(snapshot) && (uri_parts(url) matches Some(path) && (
    if session.buffers@.contains_key(url) {
        is_under(path, session.root@) && has_version(
            snapshot@,
            path,
            session.buffers@[url].version.0,
        )
    } else {
        is_indexed(snapshot@, path)
    }))
}

/// The document that a query is about.
pub open spec fn document(query: Query) -> Option<String> {
    match query {
        Query::DocumentSymbol { uri } => Some(uri),
        Query::Hover { uri, .. } => Some(uri),
        Query::Definition { uri, .. } => Some(uri),
        Query::References { uri, .. } => Some(uri),
        Query::Completion { uri, .. } => Some(uri),
        Query::Diagnostic { uri, .. } => Some(uri),
        _ => None,
    }
}

proof fn lemma_can_answer(session: Session, url: Seq<char>)
    ensures
        crate::server::session::refusal(session, url) is None <==> can_answer(session, url),
{
    if let IndexState::Ready(snapshot) = session.index {
        if let Some(path) = uri_parts(url) {
            let a = snapshot@;
            super::findings::a_path_finds_its_extraction(a, path);
            super::findings::a_path_finds_its_version(a.versions@, path);
            if let Some(f) = file_place(a, path) {
                assert(a.extractions@[f].path@ == path);
            }
            if session.buffers@.contains_key(url) {
                let open = session.buffers@[url].version;
                if version_of(a.versions@, path) == Some(open) {
                    let i = choose|i: int|
                        0 <= i < a.versions@.len() && (#[trigger] a.versions@[i]).path@ == path
                            && a.versions@[i].version == open && forall|k: int|
                            i < k < a.versions@.len() ==> (#[trigger] a.versions@[k]).path@ != path;
                    assert(a.versions@[i].version.0 == open.0);
                }
                if has_version(a, path, open.0) {
                    let i = choose|i: int|
                        0 <= i < a.versions@.len() && (#[trigger] a.versions@[i]).path@ == path
                            && a.versions@[i].version.0 == open.0 && forall|k: int|
                            i < k < a.versions@.len() ==> (#[trigger] a.versions@[k]).path@ != path;
                    let own = version_of(a.versions@, path)->0;
                    let j = choose|j: int|
                        0 <= j < a.versions@.len() && (#[trigger] a.versions@[j]).path@ == path
                            && a.versions@[j].version == own && forall|k: int|
                            j < k < a.versions@.len() ==> (#[trigger] a.versions@[k]).path@ != path;
                    if i < j {
                        assert(a.versions@[j].path@ != path);
                    }
                    if j < i {
                        assert(a.versions@[i].path@ != path);
                    }
                    assert(own == open);
                }
            }
        }
    }
}

/// A query about a document is answered if and only if its address parses and the
/// session can answer for it. Where it cannot, the error says which: an address that
/// does not parse is invalid params; a document open at another version than the
/// snapshot's is modified content, and every other one a failed request.
pub proof fn a_document_is_answered_when_it_can_be<D: DiskText>(
    session: Session,
    disk: D,
    query: Query,
    r: Result<Reply, ServerError>,
)
    requires
        call_ensures(dispatch_request::<D>, (&session, &disk, &query), r),
        document(query) is Some,
    ensures
        match parsed_url(document(query)->0@) {
            Err(reason) => r matches Err(ServerError::InvalidParams(detail)) && detail@
                == "document URI "@ + document(query)->0@ + ": "@ + reason,
            Ok(url) => {
                &&& r is Ok <==> can_answer(session, url)
                &&& r matches Err(error) ==> {
                    &&& error is ContentModified <==> (session.index matches IndexState::Ready(
                        snapshot,
                    ) && (uri_parts(url) matches Some(path) && session.buffers@.contains_key(url)
                        && is_under(path, session.root@)))
                    &&& error is ContentModified || error is RequestFailed
                }
            },
        },
{
    if let Ok(url) = parsed_url(document(query)->0@) {
        lemma_can_answer(session, url);
    }
}

/// A workspace query is answered if and only if there is a snapshot; what is malformed or
/// unknown never is.
pub proof fn other_requests_are_answered_when_they_can_be<D: DiskText>(
    session: Session,
    disk: D,
    query: Query,
    r: Result<Reply, ServerError>,
)
    requires
        call_ensures(dispatch_request::<D>, (&session, &disk, &query), r),
    ensures
        query is WorkspaceSymbol ==> (r is Ok <==> session.index is Ready),
        query is WorkspaceSymbol ==> (r matches Err(error) ==> error is RequestFailed),
        query matches Query::Malformed { detail } ==> (r matches Err(ServerError::InvalidParams(said))
            && said@ == detail@),
        query matches Query::Unknown { method } ==> (r matches Err(ServerError::MethodNotFound(said))
            && said@ == method@),
{
}

/// A refusal says why: the index is gone, the document is not indexed, lies outside the
/// root, or is open at a version that the snapshot was not made from.
pub proof fn a_refusal_says_why<D: DiskText>(
    session: Session,
    disk: D,
    query: Query,
    error: ServerError,
    url: Seq<char>,
)
    requires
        call_ensures(
            dispatch_request::<D>,
            (&session, &disk, &query),
            Err::<Reply, ServerError>(error),
        ),
        document(query) is Some,
        parsed_url(document(query)->0@) == Ok::<Seq<char>, Seq<char>>(url),
    ensures
        match session.index {
            IndexState::Unavailable { reason } => error@ == ErrorView::RequestFailed(
                "index unavailable: "@ + reason@,
            ),
            IndexState::Ready(snapshot) => if !(uri_parts(url) is Some)
                || !session.buffers@.contains_key(url) {
                error@ == ErrorView::RequestFailed("document is not indexed: "@ + url)
            } else if !is_under(uri_parts(url)->0, session.root@) {
                error@ == ErrorView::RequestFailed(
                    "document is outside the indexed root: "@ + url,
                )
            } else {
                error@ == ErrorView::ContentModified(
                    url + " at version "@ + signed_text(session.buffers@[url].version.0 as int)
                        + " was not indexed by snapshot "@ + decimal_text(snapshot@.generation as nat),
                )
            },
        },
{
    lemma_can_answer(session, url);
}

/// A request that is answered, or turned away after a shutdown, is so under its own id;
/// one cancelled in flight is refused as cancelled, and after a shutdown every one is
/// refused as invalid.
pub proof fn a_request_is_answered_under_its_id<D: DiskText>(
    message: Outgoing,
    id: IdView,
    query: Query,
    session: Session,
    disk: D,
    in_flight: Map<IdView, bool>,
)
    ensures
        replies(message, id, query, session, disk, in_flight) ==> match message {
            Outgoing::Answer { id: to, .. } => to@ == id,
            Outgoing::Refuse(reply) => reply.id@ == id,
            _ => false,
        },
        replies(message, id, query, session, disk, in_flight) && in_flight.contains_key(id)
            && in_flight[id] ==> (message matches Outgoing::Refuse(reply) && reply.code == -32800),
        replies(message, id, query, session, disk, in_flight) && !(in_flight.contains_key(id)
            && in_flight[id]) ==> (message is Answer <==> crate::server::dispatch::query_refusal(
            session,
            query,
        ) is None),
        turns_away(message, id) ==> (message matches Outgoing::Refuse(reply) && reply.id@ == id
            && reply.code == -32600 && reply.message@ == "server is shutting down"@),
        confirms(message, id) ==> (message matches Outgoing::Answer { id: to, reply } && to@ == id
            && reply is Null),
{
}

/// A notification is taken in full: the session is what the notification makes of it, but
/// for a progress that may start; its messages come first and all, and behind them at most
/// the request that creates the progress.
pub proof fn a_notification_is_taken_in_full(
    notification: Notification,
    before: Session,
    after: Session,
    in_flight: Map<IdView, bool>,
    still: Map<IdView, bool>,
    messages: Seq<Outgoing>,
) -> (r: (Session, Seq<Outgoing>))
    requires
        noted_and_pumped(notification, before, after, in_flight, still, messages),
    ensures
        ({
            let (noted, first) = r;
            &&& notified(notification, before, noted, in_flight, still, first)
            &&& after == (Session { progress: after.progress, ..noted })
            &&& first.len() <= messages.len() <= first.len() + 1
            &&& forall|k: int| 0 <= k < first.len() ==> #[trigger] messages[k] == first[k]
            &&& messages.len() == first.len() + 1 <==> noted.progress@.progress is Idle
                && noted.progress@.armed is Some
            &&& messages.len() == first.len() + 1 ==> (messages.last() matches Outgoing::CreateProgress {
                token,
                ..
            } && token@ == after.progress@.token)
            &&& messages.len() == first.len() ==> after.progress@ == noted.progress@
        }),
{
    let (noted, first, last) = choose|noted: Session, first: Seq<Outgoing>, last: Option<Outgoing>|
        {
            &&& #[trigger] notified(notification, before, noted, in_flight, still, first)
            &&& crate::server::session::same_but_progress(after, noted)
            &&& (after.progress@, progress_message(last)) == pumped(noted.progress@)
            &&& is_about_progress(last)
            &&& #[trigger] ends_with_progress(messages, first, last)
        };
    (noted, first)
}

/// A text of a file that is not open is the text of the bytes on disk, whenever these are
/// UTF-8 and have the hash that the snapshot recorded; otherwise there is none.
pub proof fn disk_text_is_used_when_it_matches<D: DiskText>(
    session: Session,
    disk: D,
    path: Seq<Part>,
    text: Option<Seq<char>>,
)
    requires
        session_gives(session, disk, path, text),
        forall|uri: Seq<char>| #[trigger]
            session.buffers@.contains_key(uri) ==> session.buffers@[uri].path != Some(path),
    ensures
        exists|at: DocPath, bytes: Option<Vec<u8>>|
            {
                &&& at@ == path
                &&& #[trigger] call_ensures(D::read, (&disk, &at), bytes)
                &&& text == (match (session.index, bytes) {
                    (IndexState::Ready(snapshot), Some(bytes)) => if hash_of(
                        snapshot@.content_hashes@,
                        path,
                    ) == Some(content_fingerprint(bytes@)) && valid_utf8(bytes@) {
                        Some(decode_utf8(bytes@))
                    } else {
                        None
                    },
                    _ => None,
                })
            },
{
    assert(!crate::server::session::is_open_at(session.buffers@, path));
    let (at, bytes) = choose|at: DocPath, bytes: Option<Vec<u8>>|
        at@ == path && text == crate::server::session::text_from_disk(
            session.index,
            path,
            crate::server::session::optional_bytes(bytes),
        ) && #[trigger] call_ensures(D::read, (&disk, &at), bytes);
    assert(call_ensures(D::read, (&disk, &at), bytes));
}

/// A text of an open file is that of a document open at its path.
pub proof fn an_open_text_is_the_buffers<D: DiskText>(
    session: Session,
    disk: D,
    path: Seq<Part>,
    text: Option<Seq<char>>,
    uri: Seq<char>,
)
    requires
        session_gives(session, disk, path, text),
        session.buffers@.contains_key(uri),
        session.buffers@[uri].path == Some(path),
        forall|other: Seq<char>| #[trigger]
            session.buffers@.contains_key(other) && session.buffers@[other].path == Some(path) ==> other
                == uri,
    ensures
        text == Some(session.buffers@[uri].text),
{
    assert(crate::server::session::is_open_at(session.buffers@, path));
}

// ---------------------------------------------------------------------------
// What the answers are

/// A cursor points at a byte of the last extraction of its document's path: the one its
/// position names in the text looked up for it.
pub proof fn a_cursor_points_into_its_document(
    a: Analysis,
    texts: Texts,
    uri: Seq<char>,
    pos: Position,
    encoding: Encoding,
)
    ensures
        match cursor_of(a, texts, uri, pos, encoding) {
            Some((file, byte)) => exists|f: int|
                0 <= f < a.extractions@.len() && (#[trigger] a.extractions@[f]) == file && uri_parts(
                    uri,
                ) == Some(file.path@) && (texts[file.path@] matches Some(text) && offset_of(
                    text,
                    pos,
                    encoding,
                ) == Some(byte)) && forall|k: int|
                    f < k < a.extractions@.len() ==> (#[trigger] a.extractions@[k]).path@
                        != file.path@,
            None => uri_parts(uri) matches Some(path) ==> (is_indexed(a, path) ==> (texts[path]
                matches Some(text) ==> offset_of(text, pos, encoding) is None)),
        },
{
    if let Some(path) = uri_parts(uri) {
        super::findings::a_path_finds_its_extraction(a, path);
        if let Some(f) = file_place(a, path) {
            assert(a.extractions@[f].path@ == path);
        }
    }
}

/// A cursor on a character of a document's text points at the byte of that character.
pub proof fn a_cursor_on_a_character_points_at_its_byte(
    a: Analysis,
    texts: Texts,
    uri: Seq<char>,
    encoding: Encoding,
    text: Seq<char>,
    i: int,
)
    requires
        uri_parts(uri) matches Some(path) && is_indexed(a, path) && texts[path] == Some(text),
        0 <= i <= text.len(),
        byte_len(text) <= u32::MAX,
    ensures
        cursor_of(a, texts, uri, position_of(text, i, encoding), encoding) matches Some(found)
            && uri_parts(uri) == Some(found.0.path@) && found.1 == byte_offset(text, i),
{
    let path = uri_parts(uri)->0;
    super::findings::a_path_finds_its_extraction(a, path);
    round_trip(text, i, encoding);
    crate::text::lemma_byte_offset_ends(text);
    crate::text::lemma_byte_offset_monotone(text, i, text.len() as int);
}

/// Every text is one that the session has over the disk.
pub open spec fn reads_from<D: DiskText>(session: Session, disk: D, texts: Texts) -> bool {
    forall|path: Seq<Part>| #[trigger]
        texts.contains_key(path) ==> session_gives(session, disk, path, texts[path])
}

/// An answer is read off a snapshot by texts that the session has over the disk, each the
/// one of an open buffer where there is one; the text of the document itself is among
/// them where a position has to be found in it.
pub open spec fn reads<D: DiskText>(
    session: Session,
    disk: D,
    texts: Texts,
    a: Analysis,
    url: Seq<char>,
) -> bool {
    &&& session.index matches IndexState::Ready(snapshot) && snapshot@ == a
    &&& reads_from(session, disk, texts)
    &&& uri_parts(url) matches Some(path) ==> (is_indexed(a, path) ==> texts.contains_key(path))
}

proof fn lemma_reads<D: DiskText>(session: Session, disk: D, query: Query, reply: Reply) -> (r: (
    Texts,
    Analysis,
))
    requires
        call_ensures(
            dispatch_request::<D>,
            (&session, &disk, &query),
            Ok::<Reply, ServerError>(reply),
        ),
    ensures
        session.index matches IndexState::Ready(snapshot) && snapshot@ == r.1,
        given(session, disk, r.0),
        answers_query(reply, r.1, r.0, query, session.encoding, session.definition_links),
{
    let snapshot = session.index->Ready_0;
    let texts = choose|texts: Texts| #[trigger]
        given(session, disk, texts) && answers_query(
            reply,
            snapshot@,
            texts,
            query,
            session.encoding,
            session.definition_links,
        );
    (texts, snapshot@)
}

proof fn lemma_looked<D: DiskText>(
    session: Session,
    disk: D,
    texts: Texts,
    a: Analysis,
    url: Seq<char>,
)
    requires
        session.index matches IndexState::Ready(snapshot) && snapshot@ == a,
        given(session, disk, texts),
        crate::handlers::has_looked(a, texts, url),
    ensures
        reads(session, disk, texts, a, url),
{
    if let Some(path) = uri_parts(url) {
        super::findings::a_path_finds_its_extraction(a, path);
        if let Some(f) = file_place(a, path) {
            assert(a.extractions@[f].path@ == path);
        }
    }
}

/// A definition request is answered with the definitions of what its cursor points at.
pub proof fn a_definition_request_gets_definitions<D: DiskText>(
    session: Session,
    disk: D,
    uri: String,
    position: Position,
    reply: Reply,
) -> (r: (Texts, Analysis))
    requires
        call_ensures(
            dispatch_request::<D>,
            (&session, &disk, &Query::Definition { uri, position }),
            Ok::<Reply, ServerError>(reply),
        ),
    ensures
        ({
            let (texts, a) = r;
            parsed_url(uri@) matches Ok(url) && reads(session, disk, texts, a, url) && (reply
                matches Reply::Definition(definition) && match cursor_of(
                a,
                texts,
                url,
                position,
                session.encoding,
            ) {
                Some((file, byte)) => answers_definition(
                    definition,
                    a,
                    texts,
                    file,
                    byte,
                    session.definition_links,
                    session.encoding,
                ),
                None => definition is None,
            })
        }),
{
    let (texts, a) = lemma_reads(session, disk, Query::Definition { uri, position }, reply);
    let url = parsed_url(uri@)->Ok_0;
    lemma_looked(session, disk, texts, a, url);
    (texts, a)
}

/// A references request is answered with the places that use what its cursor points at.
pub proof fn a_references_request_gets_uses<D: DiskText>(
    session: Session,
    disk: D,
    uri: String,
    position: Position,
    include_declaration: bool,
    reply: Reply,
) -> (r: (Texts, Analysis))
    requires
        call_ensures(
            dispatch_request::<D>,
            (&session, &disk, &Query::References { uri, position, include_declaration }),
            Ok::<Reply, ServerError>(reply),
        ),
    ensures
        ({
            let (texts, a) = r;
            parsed_url(uri@) matches Ok(url) && reads(session, disk, texts, a, url) && (reply
                matches Reply::References(locations) && match cursor_of(
                a,
                texts,
                url,
                position,
                session.encoding,
            ) {
                Some((file, byte)) => shows_places(
                    locations@,
                    texts,
                    referenced_places(a, resolution_in(a, file, byte), include_declaration),
                    session.encoding,
                ),
                None => locations@.len() == 0,
            })
        }),
{
    let (texts, a) = lemma_reads(
        session,
        disk,
        Query::References { uri, position, include_declaration },
        reply,
    );
    let url = parsed_url(uri@)->Ok_0;
    lemma_looked(session, disk, texts, a, url);
    (texts, a)
}

/// A completion request is answered with what can be offered at its cursor.
pub proof fn a_completion_request_gets_offers<D: DiskText>(
    session: Session,
    disk: D,
    uri: String,
    position: Position,
    reply: Reply,
) -> (r: (Texts, Analysis))
    requires
        call_ensures(
            dispatch_request::<D>,
            (&session, &disk, &Query::Completion { uri, position }),
            Ok::<Reply, ServerError>(reply),
        ),
    ensures
        ({
            let (texts, a) = r;
            parsed_url(uri@) matches Ok(url) && reads(session, disk, texts, a, url) && (reply
                matches Reply::Completion(items) && match cursor_of(
                a,
                texts,
                url,
                position,
                session.encoding,
            ) {
                Some((file, byte)) => shows_offers(
                    items@,
                    a,
                    completion_offers(a, texts, file, byte),
                ),
                None => items@.len() == 0,
            })
        }),
{
    let (texts, a) = lemma_reads(session, disk, Query::Completion { uri, position }, reply);
    let url = parsed_url(uri@)->Ok_0;
    lemma_looked(session, disk, texts, a, url);
    (texts, a)
}

/// A hover request is answered with the symbol around its cursor: its name in bold and
/// its kind, its signature as code of its language, its documentation where it has one,
/// over the range of the symbol; where no symbol is, with nothing.
pub proof fn a_hover_request_gets_the_symbol<D: DiskText>(
    session: Session,
    disk: D,
    uri: String,
    position: Position,
    reply: Reply,
) -> (r: (Texts, Analysis))
    requires
        call_ensures(
            dispatch_request::<D>,
            (&session, &disk, &Query::Hover { uri, position }),
            Ok::<Reply, ServerError>(reply),
        ),
    ensures
        ({
            let (texts, a) = r;
            parsed_url(uri@) matches Ok(url) && reads(session, disk, texts, a, url) && (reply
                matches Reply::Hover(hover) && match cursor_of(
                a,
                texts,
                url,
                position,
                session.encoding,
            ) {
                None => hover is None,
                Some((file, byte)) => match innermost_symbol(file, byte) {
                    None => hover is None,
                    Some(symbol) => hover matches Some(shown) && shown.range == range_by(
                        texts,
                        file.path@,
                        symbol.source_range,
                        session.encoding,
                    ) && describes(shown.value@, symbol),
                },
            })
        }),
{
    let (texts, a) = lemma_reads(session, disk, Query::Hover { uri, position }, reply);
    let url = parsed_url(uri@)->Ok_0;
    lemma_looked(session, disk, texts, a, url);
    (texts, a)
}

/// A text describes a symbol.
pub open spec fn describes(text: Seq<char>, symbol: Symbol) -> bool {
    let head = "**"@ + symbol.name@ + "** ("@ + word_of(symbol.kind) + ")\n\n```"@
        + symbol.language.spec_name() + "\n"@;
    let code = match symbol.signature {
        Some(signature) => signature@,
        None => symbol.name@,
    };
    match symbol.docstring {
        Some(docstring) => text == head + code + "\n```"@ + "\n\n"@ + docstring@,
        None => text == head + code + "\n```"@,
    }
}

/// A document symbol request is answered with the symbols of the document.
pub proof fn a_document_symbol_request_gets_symbols<D: DiskText>(
    session: Session,
    disk: D,
    uri: String,
    reply: Reply,
) -> (r: (Texts, Analysis))
    requires
        call_ensures(
            dispatch_request::<D>,
            (&session, &disk, &Query::DocumentSymbol { uri }),
            Ok::<Reply, ServerError>(reply),
        ),
    ensures
        ({
            let (texts, a) = r;
            &&& session.index matches IndexState::Ready(snapshot) && snapshot@ == a
            &&& reads_from(session, disk, texts)
            &&& parsed_url(uri@) matches Ok(url) && (reply matches Reply::DocumentSymbols(entries)
                && shows_symbols(entries@, texts, symbols_in(a, url), session.encoding))
        }),
{
    lemma_reads(session, disk, Query::DocumentSymbol { uri }, reply)
}

/// A workspace symbol request is answered with the symbols that the query hits.
pub proof fn a_workspace_symbol_request_gets_matches<D: DiskText>(
    session: Session,
    disk: D,
    query: String,
    reply: Reply,
) -> (r: (Texts, Analysis))
    requires
        call_ensures(
            dispatch_request::<D>,
            (&session, &disk, &Query::WorkspaceSymbol { query }),
            Ok::<Reply, ServerError>(reply),
        ),
    ensures
        ({
            let (texts, a) = r;
            &&& session.index matches IndexState::Ready(snapshot) && snapshot@ == a
            &&& reads_from(session, disk, texts)
            &&& reply matches Reply::WorkspaceSymbols(entries) && shows_workspace_symbols(
                entries@,
                texts,
                addressed(capped(ordered_matches(a, query@), CAP_WORKSPACE_SYMBOLS as nat)),
                session.encoding,
            )
        }),
{
    lemma_reads(session, disk, Query::WorkspaceSymbol { query }, reply)
}

/// The id of a pull report names the snapshot, and the version of a document that the
/// snapshot has one of.
pub open spec fn names_report(id: Seq<char>, a: Analysis, url: Seq<char>) -> bool {
    let head = "meta-ast:"@ + decimal_text(a.generation as nat);
    match uri_parts(url) {
        Some(path) => {
            &&& forall|version: i32| #[trigger]
                has_version(a, path, version) ==> id == head + ":"@ + signed_text(version as int)
            &&& (forall|version: i32| !#[trigger] has_version(a, path, version)) ==> id == head
        },
        None => id == head,
    }
}

/// A diagnostics request is answered with all diagnostics of the document under the id of
/// the report, or where the client has that report already, with the id alone.
pub proof fn a_diagnostics_request_gets_a_report<D: DiskText>(
    session: Session,
    disk: D,
    uri: String,
    previous_result_id: Option<String>,
    reply: Reply,
) -> (r: (Texts, Analysis))
    requires
        call_ensures(
            dispatch_request::<D>,
            (&session, &disk, &Query::Diagnostic { uri, previous_result_id }),
            Ok::<Reply, ServerError>(reply),
        ),
    ensures
        ({
            let (texts, a) = r;
            &&& session.index matches IndexState::Ready(snapshot) && snapshot@ == a
            &&& reads_from(session, disk, texts)
            &&& parsed_url(uri@) matches Ok(url) && match reply {
                Reply::DiagnosticsUnchanged { result_id } => names_report(result_id@, a, url) && (
                previous_result_id matches Some(previous) && previous@ == result_id@),
                Reply::DiagnosticsFull { result_id, items } => {
                    &&& names_report(result_id@, a, url)
                    &&& previous_result_id matches Some(previous) ==> previous@ != result_id@
                    &&& shows_diagnostics(
                        items@,
                        texts,
                        diagnostics_about(a, url),
                        session.encoding,
                    )
                },
                _ => false,
            }
        }),
{
    let (texts, a) = lemma_reads(
        session,
        disk,
        Query::Diagnostic { uri, previous_result_id },
        reply,
    );
    let url = parsed_url(uri@)->Ok_0;
    lemma_report(a, url);
    (texts, a)
}

proof fn lemma_report(a: Analysis, url: Seq<char>)
    ensures
        names_report(crate::server::dispatch::report_id(a, url), a, url),
{
    if let Some(path) = uri_parts(url) {
        super::findings::a_path_finds_its_version(a.versions@, path);
        match version_of(a.versions@, path) {
            Some(own) => {
                let j = choose|j: int|
                    0 <= j < a.versions@.len() && (#[trigger] a.versions@[j]).path@ == path
                        && a.versions@[j].version == own && forall|k: int|
                        j < k < a.versions@.len() ==> (#[trigger] a.versions@[k]).path@ != path;
                assert(a.versions@[j].version.0 == own.0);
                assert(has_version(a, path, own.0));
                assert forall|version: i32| #[trigger] has_version(a, path, version) implies version
                    == own.0 by {
                    let i = choose|i: int|
                        0 <= i < a.versions@.len() && (#[trigger] a.versions@[i]).path@ == path
                            && a.versions@[i].version.0 == version && forall|k: int|
                            i < k < a.versions@.len() ==> (#[trigger] a.versions@[k]).path@ != path;
                    if i < j {
                        assert(a.versions@[j].path@ != path);
                    }
                    if j < i {
                        assert(a.versions@[i].path@ != path);
                    }
                }
            },
            None => {
                assert forall|version: i32| !#[trigger] has_version(a, path, version) by {}
            },
        }
    }
}

} // verus!
