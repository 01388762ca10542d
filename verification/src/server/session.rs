//! One served workspace: documents, index state, batching, progress.

use std::sync::Arc;

use vstd::prelude::*;
use vstd::string::*;
use vstd::utf8::*;

use super::progress::{
    acked, armed, closed_progress, finished, is_about_progress, progress_message, pumped,
    ProgressTracker,
};
use super::scheduler::{after_send, after_submit, carries, upcoming, Scheduler, SendOutcome};
use crate::buffers::{BufferStore, DocView};
use crate::error::{ErrorView, ServerError};
use crate::index::snapshot::{belongs, IndexSnapshot};
use crate::index::{file_place, hash_of, version_of, Analysis, SourceText};
use crate::model::{content_fingerprint, fingerprint_of};
use crate::path::{DocPath, Part};
use crate::position::Encoding;
use crate::protocol::{optional_text, Outgoing, RequestId};
use crate::reindex::{ReindexReq, ReindexResp};
use crate::text::{decimal, decimal_text, joined, signed_decimal, signed_text};
use crate::types::{uri_parts, DocUri, RootDir};

verus! {

/// Index availability; an index that cannot describe the requested version never
/// answers.
#[derive(Debug)]
pub enum IndexState {
    Ready(Arc<IndexSnapshot>),
    Unavailable { reason: String },
}

/// One served workspace.
#[derive(Debug)]
pub struct Session {
    pub root: RootDir,
    pub encoding: Encoding,
    pub definition_links: bool,
    pub buffers: BufferStore,
    /// Names of the resolver configs the client was warned of.
    pub warned_resolvers: Vec<String>,
    pub index: IndexState,
    pub applied_seq: u64,
    pub scheduler: Scheduler,
    pub progress: ProgressTracker,
    /// True when workspace state changed and no request carries it yet.
    pub dirty: bool,
}

/// Two sessions differ at most in their progress.
pub open spec fn same_but_progress(a: Session, b: Session) -> bool {
    a == (Session { progress: a.progress, ..b })
}

/// A session has a request to make: something changed, and a worker is there.
pub open spec fn makes_request(dirty: bool, scheduler: Scheduler) -> bool {
    dirty && !scheduler.gone
}

/// A batch still waits after its request: only where the worker had no room.
pub open spec fn still_waits(dirty: bool, scheduler: Scheduler, outcome: SendOutcome) -> bool {
    dirty && outcome == SendOutcome::Full && !scheduler.gone
}

// ---------------------------------------------------------------------------
// Readiness

/// Why no document can be answered.
pub open spec fn unavailable(index: IndexState) -> Option<ErrorView> {
    match index {
        IndexState::Ready(_) => None,
        IndexState::Unavailable { reason } => Some(
            ErrorView::RequestFailed("index unavailable: "@ + reason@),
        ),
    }
}

/// Why a document cannot be answered by a snapshot, if it cannot: an open one must
/// be indexable and at the exact version the client sent, any other must be
/// indexed.
pub open spec fn unready(
    a: Analysis,
    root: Seq<Part>,
    open: Map<Seq<char>, DocView>,
    uri: Seq<char>,
) -> Option<ErrorView> {
    match uri_parts(uri) {
        None => Some(ErrorView::RequestFailed("document is not indexed: "@ + uri)),
        Some(path) => if open.contains_key(uri) {
            if !belongs(uri, root) {
                Some(ErrorView::RequestFailed("document is outside the indexed root: "@ + uri))
            } else if version_of(a.versions@, path) != Some(open[uri].version) {
                Some(
                    ErrorView::ContentModified(
                        uri + " at version "@ + signed_text(open[uri].version.0 as int)
                            + " was not indexed by snapshot "@ + decimal_text(a.generation as nat),
                    ),
                )
            } else {
                None
            }
        } else if file_place(a, path) is None {
            Some(ErrorView::RequestFailed("document is not indexed: "@ + uri))
        } else {
            None
        },
    }
}

/// Why a session cannot answer for a document, if it cannot.
pub open spec fn refusal(session: Session, uri: Seq<char>) -> Option<ErrorView> {
    match session.index {
        IndexState::Unavailable { .. } => unavailable(session.index),
        IndexState::Ready(snapshot) => unready(
            snapshot@,
            session.root@,
            session.buffers@,
            uri,
        ),
    }
}

impl Session {
    pub fn new(
        root: RootDir,
        encoding: Encoding,
        snapshot: Arc<IndexSnapshot>,
        progress_supported: bool,
    ) -> (r: Session)
        ensures
            r.root == root,
            r.encoding == encoding,
            !r.definition_links,
            r.buffers@ == Map::<Seq<char>, DocView>::empty(),
            r.warned_resolvers@.len() == 0,
            r.index == IndexState::Ready(snapshot),
            r.applied_seq == 0,
            r.scheduler == (Scheduler { seq: 0, queued: None, gone: false }),
            r.progress.supported == progress_supported,
            r.progress.progress is Idle,
            r.progress.token@.len() == 0,
            r.progress.next_id == 0,
            r.progress.armed is None,
            !r.dirty,
    {
        Session {
            root,
            encoding,
            definition_links: false,
            buffers: BufferStore::default(),
            warned_resolvers: Vec::new(),
            index: IndexState::Ready(snapshot),
            applied_seq: 0,
            scheduler: Scheduler::new(),
            progress: ProgressTracker::new(progress_supported),
            dirty: false,
        }
    }

    /// The snapshot, if there is one to answer from.
    pub fn ready(&self) -> (r: Result<&Arc<IndexSnapshot>, ServerError>)
        ensures
            match r {
                Ok(snapshot) => self.index == IndexState::Ready(*snapshot),
                Err(error) => unavailable(self.index) == Some(error@),
            },
    {
        match &self.index {
            IndexState::Ready(snapshot) => Ok(snapshot),
            IndexState::Unavailable { reason } => Err(
                ServerError::RequestFailed(joined("index unavailable: ", reason.as_str())),
            ),
        }
    }

    /// An open document must be indexable and at the exact version the client
    /// sent.
    pub fn ready_for(&self, uri: &DocUri) -> (r: Result<&Arc<IndexSnapshot>, ServerError>)
        ensures
            match r {
                Ok(snapshot) => self.index == IndexState::Ready(*snapshot) && refusal(
                    *self,
                    uri@,
                ) is None,
                Err(error) => refusal(*self, uri@) == Some(error@),
            },
    {
        let snapshot = match self.ready() {
            Ok(snapshot) => snapshot,
            Err(error) => {
                return Err(error);
            },
        };
        let path = match uri.to_path() {
            Some(path) => path,
            None => {
                return Err(
                    ServerError::RequestFailed(joined("document is not indexed: ", uri.as_str())),
                );
            },
        };
        if let Some(doc) = self.buffers.get(uri) {
            if !self.indexable(uri) {
                return Err(
                    ServerError::RequestFailed(
                        joined("document is outside the indexed root: ", uri.as_str()),
                    ),
                );
            }
            let indexed: bool = match snapshot.document_version(path) {
                Some(version) => version == doc.version,
                None => false,
            };
            if !indexed {
                let mut detail: String = joined(uri.as_str(), " at version ");
                detail.append(signed_decimal(doc.version.get()).as_str());
                detail.append(" was not indexed by snapshot ");
                detail.append(decimal(snapshot.generation() as u64).as_str());
                return Err(ServerError::ContentModified(detail));
            }
            return Ok(snapshot);
        }
        if snapshot.file_by_path(path).is_none() {
            return Err(
                ServerError::RequestFailed(joined("document is not indexed: ", uri.as_str())),
            );
        }
        Ok(snapshot)
    }

    /// Whether a document has a path under the root.
    pub fn indexable(&self, uri: &DocUri) -> (r: bool)
        ensures
            r == belongs(uri@, self.root@),
    {
        match uri.to_path() {
            Some(path) => self.root.contains(path),
            None => false,
        }
    }

    // -----------------------------------------------------------------------
    // Batching

    pub fn mark_dirty(&mut self)
        ensures
            *final(self) == (Session { dirty: true, ..*old(self) }),
    {
        self.dirty = true;
    }

    /// The request that carries what changed since the last one, if anything did.
    /// Its outcome goes to `request_sent`.
    pub fn flush_batch(&mut self) -> (r: Option<ReindexReq>)
        ensures
            r is Some == makes_request(old(self).dirty, old(self).scheduler),
            match r {
                None => *final(self) == (Session { dirty: false, ..*old(self) }),
                Some(req) => {
                    &&& req.seq == upcoming(old(self).scheduler)
                    &&& carries(req, old(self).root, old(self).buffers)
                    &&& *final(self) == (Session {
                        scheduler: after_submit(old(self).scheduler),
                        ..*old(self)
                    })
                },
            },
    {
        if !self.dirty {
            return None;
        }
        match self.scheduler.submit(&self.root, &self.buffers) {
            Some(req) => Some(req),
            None => {
                self.dirty = false;
                None
            },
        }
    }

    /// Take what became of the request of a batch: one that was sent ends the
    /// batch and arms progress for it, one that found no room leaves it dirty.
    pub fn request_sent(&mut self, seq: u64, outcome: SendOutcome)
        ensures
            *final(self) == (Session {
                scheduler: after_send(old(self).scheduler, seq, outcome),
                dirty: still_waits(old(self).dirty, old(self).scheduler, outcome),
                progress: final(self).progress,
                ..*old(self)
            }),
            final(self).progress@ == (if outcome == SendOutcome::Sent {
                armed(old(self).progress@, seq)
            } else {
                old(self).progress@
            }),
    {
        match self.scheduler.sent(seq, outcome) {
            Some(seq) => {
                self.dirty = false;
                self.progress.arm(seq);
            },
            None => {
                if self.scheduler.is_gone() {
                    self.dirty = false;
                }
            },
        }
    }

    // -----------------------------------------------------------------------
    // Progress and responses

    /// Start progress for what was sent, if none runs.
    pub fn pump_progress(&mut self) -> (r: Option<Outgoing>)
        ensures
            same_but_progress(*final(self), *old(self)),
            (final(self).progress@, progress_message(r)) == pumped(old(self).progress@),
            is_about_progress(r),
    {
        self.progress.pump()
    }

    /// Take a client's response.
    pub fn on_progress_ack(&mut self, id: &RequestId, accepted: bool) -> (r: Option<Outgoing>)
        ensures
            same_but_progress(*final(self), *old(self)),
            (final(self).progress@, progress_message(r)) == acked(
                old(self).progress@,
                id@,
                accepted,
                old(self).applied_seq,
            ),
            is_about_progress(r),
    {
        self.progress.on_ack(id, accepted, self.applied_seq)
    }

    /// End what is shown before the server stops.
    pub fn shutdown(&mut self) -> (r: Option<Outgoing>)
        ensures
            same_but_progress(*final(self), *old(self)),
            (final(self).progress@, progress_message(r)) == closed_progress(old(self).progress@),
            is_about_progress(r),
    {
        self.progress.abandon()
    }

    /// Apply one reindex response: stale seqs drop, newest wins; a failed pass
    /// disables the index.
    pub fn on_reindex_response(&mut self, resp: ReindexResp) -> (r: Option<Outgoing>)
        ensures
            final(self).applied_seq == applied_after(old(self).applied_seq, resp.seq),
            resp.seq <= old(self).applied_seq ==> *final(self) == *old(self) && r is None,
            resp.seq > old(self).applied_seq ==> {
                &&& *final(self) == (Session {
                    applied_seq: resp.seq,
                    index: final(self).index,
                    progress: final(self).progress,
                    ..*old(self)
                })
                &&& match resp.result {
                    Ok(snapshot) => final(self).index == IndexState::Ready(snapshot),
                    Err(error) => final(self).index matches IndexState::Unavailable { reason }
                        && reason@ == error.text(),
                }
                &&& (final(self).progress@, progress_message(r)) == finished(
                    old(self).progress@,
                    resp.seq,
                )
            },
            is_about_progress(r),
    {
        if resp.seq <= self.applied_seq {
            return None;
        }
        self.applied_seq = resp.seq;
        match resp.result {
            Ok(snapshot) => {
                self.index = IndexState::Ready(snapshot);
            },
            Err(error) => {
                self.index = IndexState::Unavailable { reason: error.message() };
            },
        }
        self.progress.finish(resp.seq)
    }

    /// A lost worker cannot maintain the index: disable it.
    pub fn worker_lost(&mut self) -> (r: Option<Outgoing>)
        ensures
            *final(self) == (Session {
                scheduler: Scheduler { queued: None, ..old(self).scheduler },
                index: final(self).index,
                progress: final(self).progress,
                ..*old(self)
            }),
            final(self).index matches IndexState::Unavailable { reason } && reason@
                == "reindex worker gone"@,
            (final(self).progress@, progress_message(r)) == closed_progress(old(self).progress@),
            is_about_progress(r),
    {
        self.scheduler.reset();
        self.index = IndexState::Unavailable { reason: "reindex worker gone".to_owned() };
        self.progress.abandon()
    }

    /// A save only marks the workspace dirty; the worker compares fingerprints.
    pub fn on_save(&mut self, uri: &DocUri, text: Option<&str>)
        ensures
            *final(self) == (Session {
                buffers: final(self).buffers,
                dirty: old(self).dirty || belongs(uri@, old(self).root@),
                ..*old(self)
            }),
            final(self).buffers@ == (match text {
                Some(text) => if old(self).buffers@.contains_key(uri@) {
                    old(self).buffers@.insert(
                        uri@,
                        DocView { text: text@, ..old(self).buffers@[uri@] },
                    )
                } else {
                    old(self).buffers@
                },
                None => old(self).buffers@,
            }),
    {
        if let Some(text) = text {
            let _ = self.buffers.save(uri, text);
            proof {
                if old(self).buffers@.contains_key(uri@) && old(self).buffers@[uri@].text == text@ {
                    assert(old(self).buffers@.insert(
                        uri@,
                        DocView { text: text@, ..old(self).buffers@[uri@] },
                    ) =~= old(self).buffers@);
                }
            }
        }
        if self.indexable(uri) {
            self.mark_dirty();
        }
    }
}

// ---------------------------------------------------------------------------
// Source text

/// Calls `String::from_utf8`: the text whose UTF-8 form the bytes are, if they are
/// one.
#[verifier::external_body]
fn decode(bytes: Vec<u8>) -> (r: Option<String>)
    ensures
        match r {
            Some(text) => valid_utf8(bytes@) && encode_utf8(text@) == bytes@,
            None => !valid_utf8(bytes@),
        },
{
    String::from_utf8(bytes).ok()
}

/// What reads files. What a read gives is up to the disk.
pub trait DiskText {
    fn read(&self, path: &DocPath) -> Option<Vec<u8>>;
}

/// The text that a file's bytes give a snapshot: theirs, if they are what the
/// snapshot was made from.
pub open spec fn analyzed_text(a: Analysis, path: Seq<Part>, bytes: Option<Seq<u8>>) -> Option<
    Seq<char>,
> {
    match bytes {
        Some(bytes) => if hash_of(a.content_hashes@, path) == Some(content_fingerprint(bytes))
            && valid_utf8(bytes) {
            Some(decode_utf8(bytes))
        } else {
            None
        },
        None => None,
    }
}

/// The text that a file's bytes give a session without a buffer for the file.
pub open spec fn text_from_disk(index: IndexState, path: Seq<Part>, bytes: Option<Seq<u8>>) -> Option<
    Seq<char>,
> {
    match index {
        IndexState::Ready(snapshot) => analyzed_text(snapshot@, path, bytes),
        IndexState::Unavailable { .. } => None,
    }
}

/// The bytes that a read gave.
pub open spec fn optional_bytes(bytes: Option<Vec<u8>>) -> Option<Seq<u8>> {
    match bytes {
        Some(bytes) => Some(bytes@),
        None => None,
    }
}

/// An open document has a path.
pub open spec fn is_open_at(open: Map<Seq<char>, DocView>, path: Seq<Part>) -> bool {
    exists|uri: Seq<char>| open.contains_key(uri) && (#[trigger] open[uri]).path == Some(path)
}

impl Session {
    /// The text that a file's bytes give.
    pub fn disk_text(&self, path: &DocPath, bytes: Option<Vec<u8>>) -> (r: Option<String>)
        ensures
            optional_text(r) == text_from_disk(self.index, path@, optional_bytes(bytes)),
    {
        let snapshot = match &self.index {
            IndexState::Ready(snapshot) => snapshot,
            IndexState::Unavailable { .. } => {
                return None;
            },
        };
        let bytes: Vec<u8> = match bytes {
            Some(bytes) => bytes,
            None => {
                return None;
            },
        };
        match snapshot.content_hash(path) {
            Some(hash) => {
                if !fingerprint_of(&bytes).same(&hash) {
                    return None;
                }
            },
            None => {
                return None;
            },
        }
        let r = decode(bytes);
        proof {
            if r is Some {
                encode_utf8_decode_utf8(r->0@);
            }
        }
        r
    }
}

/// The texts of a session: buffers win over disk, and disk text is used only when
/// it matches the snapshot fingerprint.
pub struct SessionText<'a, D: DiskText> {
    pub session: &'a Session,
    pub disk: &'a D,
}

/// The text is what a read of the path gives, if the bytes are what the snapshot
/// was made from.
pub open spec fn reads_as<D: DiskText>(
    disk: D,
    index: IndexState,
    path: Seq<Part>,
    text: Option<Seq<char>>,
) -> bool {
    exists|at: DocPath, bytes: Option<Vec<u8>>|
        at@ == path && text == text_from_disk(index, path, optional_bytes(bytes))
            && #[trigger] call_ensures(D::read, (&disk, &at), bytes)
}

fn call_read<D: DiskText, F: Fn(&D, &DocPath) -> Option<Vec<u8>>>(
    read: F,
    disk: &D,
    path: &DocPath,
) -> (r: Option<Vec<u8>>)
    requires
        read.requires((disk, path)),
    ensures
        read.ensures((disk, path), r),
{
    read(disk, path)
}

/// A session may give this text for a path: that of an open document of the path,
/// or without one what a read of the path gives, if that is what the snapshot was
/// made from.
pub open spec fn session_gives<D: DiskText>(
    session: Session,
    disk: D,
    path: Seq<Part>,
    text: Option<Seq<char>>,
) -> bool {
    if is_open_at(session.buffers@, path) {
        exists|uri: Seq<char>|
            session.buffers@.contains_key(uri) && (#[trigger] session.buffers@[uri]).path == Some(
                path,
            ) && text == Some(session.buffers@[uri].text)
    } else {
        reads_as(disk, session.index, path, text)
    }
}

impl<'a, D: DiskText> SourceText for SessionText<'a, D> {
    fn source(&self, path: &DocPath) -> (r: Option<String>)
        ensures
            session_gives(*self.session, *self.disk, path@, optional_text(r)),
    {
        if let Some(doc) = self.session.buffers.by_path(path) {
            let text: String = doc.text.clone();
            proof {
                let open = self.session.buffers@;
                let uri = choose|uri: Seq<char>| open.contains_key(uri) && #[trigger] open[uri] == doc@;
                assert(open[uri].path == Some(path@));
                assert(is_open_at(open, path@));
            }
            return Some(text);
        }
        let bytes: Option<Vec<u8>> = call_read(D::read, self.disk, path);
        let ghost given = bytes;
        let r = self.session.disk_text(path, bytes);
        assert(call_ensures(D::read, (self.disk, path), given));
        r
    }
}

// ---------------------------------------------------------------------------
// Laws

/// One batch makes one request: once that is sent, the session has none to make
/// until something changes again.
pub proof fn one_batch_makes_one_request(dirty: bool, scheduler: Scheduler, seq: u64)
    requires
        makes_request(dirty, scheduler),
    ensures
        ({
            let after = after_send(after_submit(scheduler), seq, SendOutcome::Sent);
            !makes_request(still_waits(dirty, after_submit(scheduler), SendOutcome::Sent), after)
        }),
{
}

/// A batch that found no room is asked for again, under the same seq.
pub proof fn a_full_worker_delays_the_batch(dirty: bool, scheduler: Scheduler)
    requires
        makes_request(dirty, scheduler),
    ensures
        ({
            let seq = upcoming(scheduler);
            let after = after_send(after_submit(scheduler), seq, SendOutcome::Full);
            &&& makes_request(still_waits(dirty, after_submit(scheduler), SendOutcome::Full), after)
            &&& upcoming(after) == seq
        }),
{
}

/// An unavailable index answers no document at all.
pub proof fn an_unavailable_index_answers_nothing(session: Session, uri: Seq<char>)
    requires
        session.index is Unavailable,
    ensures
        refusal(session, uri) matches Some(ErrorView::RequestFailed(_)),
{
}

/// An open document is answered only at the version the snapshot was made from.
pub proof fn an_open_document_is_answered_at_its_version(session: Session, uri: Seq<char>)
    requires
        session.buffers@.contains_key(uri),
        refusal(session, uri) is None,
    ensures
        session.index matches IndexState::Ready(snapshot) && version_of(
            snapshot@.versions@,
            uri_parts(uri)->0,
        ) == Some(session.buffers@[uri].version),
{
}

/// The seq applied after a response: it never goes back.
pub open spec fn applied_after(applied: u64, response: u64) -> u64 {
    if response <= applied {
        applied
    } else {
        response
    }
}

/// The newest response wins, in whatever order responses come.
pub proof fn the_newest_response_wins(applied: u64, first: u64, second: u64)
    ensures
        applied_after(applied_after(applied, first), second) == applied_after(
            applied_after(applied, second),
            first,
        ),
        applied <= applied_after(applied, first),
        first <= applied_after(applied, first),
{
}

/// Buffers win over disk: the text of an open path is that of a document open at
/// it, whatever the disk holds.
pub proof fn buffers_win_over_disk<D: DiskText>(
    session: Session,
    disk: D,
    path: Seq<Part>,
    text: Option<Seq<char>>,
)
    requires
        is_open_at(session.buffers@, path),
        session_gives(session, disk, path, text),
    ensures
        exists|uri: Seq<char>|
            session.buffers@.contains_key(uri) && (#[trigger] session.buffers@[uri]).path == Some(
                path,
            ) && text == Some(session.buffers@[uri].text),
{
}

/// A text from disk is that of bytes a read of the path gave, with the hash the
/// snapshot recorded for it: a file that changed after the pass gives none.
pub proof fn disk_text_is_what_was_analyzed<D: DiskText>(
    session: Session,
    disk: D,
    path: Seq<Part>,
    text: Option<Seq<char>>,
)
    requires
        !is_open_at(session.buffers@, path),
        session_gives(session, disk, path, text),
        text is Some,
    ensures
        session.index matches IndexState::Ready(snapshot) && exists|at: DocPath, bytes: Vec<u8>|
            {
                &&& at@ == path
                &&& #[trigger] call_ensures(D::read, (&disk, &at), Some(bytes))
                &&& hash_of(snapshot@.content_hashes@, path) == Some(content_fingerprint(bytes@))
                &&& valid_utf8(bytes@) && text == Some(decode_utf8(bytes@))
            },
{
    let (at, bytes) = choose|at: DocPath, bytes: Option<Vec<u8>>|
        at@ == path && text == text_from_disk(session.index, path, optional_bytes(bytes))
            && #[trigger] call_ensures(D::read, (&disk, &at), bytes);
    assert(call_ensures(D::read, (&disk, &at), Some(bytes->0)));
}

} // verus!
