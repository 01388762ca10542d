//! Reindex request pipeline: one request per drained protocol batch.

use vstd::prelude::*;

use crate::buffers::BufferStore;
use crate::index::snapshot::{belongs, collect_inputs, shows};
use crate::order::SortKey;
use crate::reindex::ReindexReq;
use crate::types::RootDir;

verus! {

/// What became of a request handed to the worker.
#[derive(Clone, Copy, Debug, PartialEq, Eq, Structural)]
pub enum SendOutcome {
    Sent,
    /// The worker had no room for it.
    Full,
    /// The worker is gone.
    Disconnected,
}

/// One request per drained batch; a queued-full seq is retried with its own
/// retry-time buffer state.
#[derive(Clone, Copy, Debug, PartialEq, Eq, Structural)]
pub struct Scheduler {
    pub seq: u64,
    /// Seq of the newest request the worker had no room for.
    pub queued: Option<u64>,
    pub gone: bool,
}

/// A request carries the state of the buffers.
pub open spec fn carries(req: ReindexReq, root: RootDir, buffers: BufferStore) -> bool {
    &&& req.root@ == root@
    &&& req.root.spelling() == root.spelling()
    &&& forall|i: int|
        0 <= i < req.overlays@.len() ==> buffers@.contains_key((#[trigger] req.overlays@[i]).uri@)
            && belongs(req.overlays@[i].uri@, root@) && shows(
            req.overlays@[i],
            req.overlays@[i].uri@,
            buffers@[req.overlays@[i].uri@],
        )
    &&& forall|uri: Seq<char>| #[trigger]
        buffers@.contains_key(uri) && belongs(uri, root@) ==> exists|i: int|
            0 <= i < req.overlays@.len() && (#[trigger] req.overlays@[i]).uri@ == uri
    &&& forall|i: int, j: int|
        0 <= i < j < req.overlays@.len() ==> (#[trigger] req.overlays@[i]).uri@ != (
        #[trigger] req.overlays@[j]).uri@ && !req.overlays@[j].path.precedes(
            &req.overlays@[i].path,
        )
}

/// The number after a number, the first after the last.
pub open spec fn following(seq: u64) -> u64 {
    if seq == u64::MAX {
        0
    } else {
        (seq + 1) as u64
    }
}

/// The seq that the next request gets: that of a request the worker had no room
/// for, else the next one.
pub open spec fn upcoming(s: Scheduler) -> u64 {
    match s.queued {
        Some(seq) => seq,
        None => following(s.seq),
    }
}

/// A scheduler that has prepared a request.
pub open spec fn after_submit(s: Scheduler) -> Scheduler {
    match s.queued {
        Some(_) => Scheduler { queued: None, ..s },
        None => Scheduler { seq: following(s.seq), ..s },
    }
}

/// A scheduler that has learned what became of a request.
pub open spec fn after_send(s: Scheduler, seq: u64, outcome: SendOutcome) -> Scheduler {
    match outcome {
        SendOutcome::Sent => s,
        SendOutcome::Full => Scheduler { queued: Some(seq), ..s },
        SendOutcome::Disconnected => Scheduler { gone: true, ..s },
    }
}

impl Scheduler {
    pub fn new() -> (r: Self)
        ensures
            r == (Scheduler { seq: 0, queued: None, gone: false }),
    {
        Scheduler { seq: 0, queued: None, gone: false }
    }

    /// The request for the current buffers; none once the worker is gone.
    pub fn submit(&mut self, root: &RootDir, buffers: &BufferStore) -> (r: Option<ReindexReq>)
        ensures
            r is None == old(self).gone,
            r is None ==> *final(self) == *old(self),
            r matches Some(req) ==> req.seq == upcoming(*old(self)) && carries(req, *root, *buffers)
                && *final(self) == after_submit(*old(self)),
    {
        if self.gone {
            return None;
        }
        let seq: u64 = match self.queued {
            Some(seq) => {
                self.queued = None;
                seq
            },
            None => {
                self.seq = self.seq.wrapping_add(1);
                self.seq
            },
        };
        Some(ReindexReq { seq, root: root.clone(), overlays: collect_inputs(root, buffers) })
    }

    /// Take what became of the request. `None` means the channel is full, so the
    /// batch stays dirty, or the worker is gone.
    pub fn sent(&mut self, seq: u64, outcome: SendOutcome) -> (r: Option<u64>)
        ensures
            *final(self) == after_send(*old(self), seq, outcome),
            r == (if outcome == SendOutcome::Sent {
                Some(seq)
            } else {
                None
            }),
    {
        match outcome {
            SendOutcome::Sent => Some(seq),
            SendOutcome::Full => {
                // Held as a seq, not a request: a retry carries its own send-time buffers.
                self.queued = Some(seq);
                None
            },
            SendOutcome::Disconnected => {
                self.gone = true;
                None
            },
        }
    }

    pub fn is_gone(&self) -> (r: bool)
        ensures
            r == self.gone,
    {
        self.gone
    }

    pub fn reset(&mut self)
        ensures
            *final(self) == (Scheduler { queued: None, ..*old(self) }),
    {
        self.queued = None;
    }
}

// ---------------------------------------------------------------------------
// Laws

/// A request that the worker had no room for is retried under its own seq: the
/// retry gets it, and the numbering goes on as if the first try had been sent.
pub proof fn a_retry_keeps_its_seq(s: Scheduler)
    requires
        !s.gone,
    ensures
        ({
            let seq = upcoming(s);
            let full = after_send(after_submit(s), seq, SendOutcome::Full);
            &&& upcoming(full) == seq
            &&& after_submit(full) == after_submit(s)
        }),
{
}

/// Requests that are sent have growing seqs, as long as the numbers last.
pub proof fn sent_seqs_grow(s: Scheduler)
    requires
        s.queued is None,
        s.seq < u64::MAX - 1,
    ensures
        ({
            let next = after_send(after_submit(s), upcoming(s), SendOutcome::Sent);
            &&& next.queued is None
            &&& upcoming(next) == upcoming(s) + 1
        }),
{
}

} // verus!
