//! Client-visible work-done progress for reindex operations.

use vstd::prelude::*;
use vstd::string::*;

use crate::protocol::{IdView, Outgoing, RequestId};
use crate::text::{decimal, decimal_text, joined};

verus! {

/// Work-done progress, one operation at a time.
#[derive(Debug)]
pub enum Progress {
    Idle,
    /// Create request sent, waiting for the client ack.
    Launching { ack: RequestId, seq: u64 },
    /// Client acked; the End notification is still owed.
    Active { seq: u64 },
}

/// Work-done progress as a value.
pub enum ProgressView {
    Idle,
    Launching { ack: IdView, seq: u64 },
    Active { seq: u64 },
}

impl View for Progress {
    type V = ProgressView;

    open spec fn view(&self) -> ProgressView {
        match self {
            Progress::Idle => ProgressView::Idle,
            Progress::Launching { ack, seq } => ProgressView::Launching { ack: ack@, seq: *seq },
            Progress::Active { seq } => ProgressView::Active { seq: *seq },
        }
    }
}

#[derive(Debug)]
pub struct ProgressTracker {
    pub supported: bool,
    pub progress: Progress,
    pub token: String,
    pub next_id: u64,
    pub armed: Option<u64>,
}

/// A tracker as a value.
pub struct TrackerView {
    pub supported: bool,
    pub progress: ProgressView,
    pub token: Seq<char>,
    pub next_id: u64,
    pub armed: Option<u64>,
}

impl View for ProgressTracker {
    type V = TrackerView;

    open spec fn view(&self) -> TrackerView {
        TrackerView {
            supported: self.supported,
            progress: self.progress@,
            token: self.token@,
            next_id: self.next_id,
            armed: self.armed,
        }
    }
}

/// A progress message as a value.
pub enum ProgressMessage {
    Create { id: IdView, token: Seq<char> },
    Begin { token: Seq<char> },
    End { token: Seq<char> },
}

/// The progress message that a tracker sends, if it sends one.
pub open spec fn progress_message(message: Option<Outgoing>) -> Option<ProgressMessage> {
    match message {
        Some(Outgoing::CreateProgress { id, token }) => Some(
            ProgressMessage::Create { id: id@, token: token@ },
        ),
        Some(Outgoing::ProgressBegin { token }) => Some(ProgressMessage::Begin { token: token@ }),
        Some(Outgoing::ProgressEnd { token }) => Some(ProgressMessage::End { token: token@ }),
        _ => None,
    }
}

/// A message, if it is there, is about progress.
pub open spec fn is_about_progress(message: Option<Outgoing>) -> bool {
    message is Some ==> progress_message(message) is Some
}

// ---------------------------------------------------------------------------
// Transitions

/// Arm for a request: only where the client shows progress.
pub open spec fn armed(t: TrackerView, seq: u64) -> TrackerView {
    if t.supported {
        TrackerView { armed: Some(seq), ..t }
    } else {
        t
    }
}

/// The token of the n-th progress, under the engine's name.
pub open spec fn progress_token(number: u64) -> Seq<char> {
    "meta-ast-reindex-"@ + decimal_text(number as nat)
}

/// The id of the request that creates the n-th progress, under the engine's name.
pub open spec fn progress_ack(number: u64) -> Seq<char> {
    "meta-ast-progress-"@ + decimal_text(number as nat)
}

/// The number of the next progress.
pub open spec fn next_number(t: TrackerView) -> u64 {
    if t.next_id == u64::MAX {
        0
    } else {
        (t.next_id + 1) as u64
    }
}

/// Start what is armed, if nothing runs.
pub open spec fn pumped(t: TrackerView) -> (TrackerView, Option<ProgressMessage>) {
    match (t.progress, t.armed) {
        (ProgressView::Idle, Some(seq)) => {
            let number = next_number(t);
            let ack = IdView::Text(progress_ack(number));
            let token = progress_token(number);
            (
                TrackerView {
                    progress: ProgressView::Launching { ack, seq },
                    token,
                    next_id: number,
                    armed: None,
                    ..t
                },
                Some(ProgressMessage::Create { id: ack, token }),
            )
        },
        _ => (t, None),
    }
}

/// Take a client's response: the awaited one launches the progress, unless it
/// declines or the work is done.
pub open spec fn acked(t: TrackerView, id: IdView, accepted: bool, applied_seq: u64) -> (
    TrackerView,
    Option<ProgressMessage>,
) {
    match t.progress {
        ProgressView::Launching { ack, seq } => if id != ack {
            (t, None)
        } else if accepted && seq > applied_seq {
            (
                TrackerView { progress: ProgressView::Active { seq }, ..t },
                Some(ProgressMessage::Begin { token: t.token }),
            )
        } else {
            (TrackerView { progress: ProgressView::Idle, ..t }, None)
        },
        _ => (t, None),
    }
}

/// Close whatever runs: what the client was shown is ended.
pub open spec fn closed_progress(t: TrackerView) -> (TrackerView, Option<ProgressMessage>) {
    (
        TrackerView { progress: ProgressView::Idle, ..t },
        match t.progress {
            ProgressView::Active { .. } => Some(ProgressMessage::End { token: t.token }),
            _ => None,
        },
    )
}

/// The work of a request is done, and with it that of all before.
pub open spec fn finished(t: TrackerView, seq: u64) -> (TrackerView, Option<ProgressMessage>) {
    let t = match t.armed {
        Some(waiting) => if seq >= waiting {
            TrackerView { armed: None, ..t }
        } else {
            t
        },
        None => t,
    };
    let closes = match t.progress {
        ProgressView::Launching { seq: own, .. } => seq >= own,
        ProgressView::Active { seq: own } => seq >= own,
        ProgressView::Idle => false,
    };
    if closes {
        closed_progress(t)
    } else {
        (t, None)
    }
}

impl ProgressTracker {
    pub fn new(supported: bool) -> (r: Self)
        ensures
            r.supported == supported,
            r.progress is Idle,
            r.token@.len() == 0,
            r.next_id == 0,
            r.armed is None,
    {
        ProgressTracker {
            supported,
            progress: Progress::Idle,
            token: String::new(),
            next_id: 0,
            armed: None,
        }
    }

    /// Arm progress for one seq; unsupported clients arm nothing, and every armed
    /// request reports once.
    pub fn arm(&mut self, seq: u64)
        ensures
            final(self)@ == armed(old(self)@, seq),
    {
        if self.supported {
            self.armed = Some(seq);
        }
    }

    /// Start what is armed, if nothing runs.
    pub fn pump(&mut self) -> (r: Option<Outgoing>)
        ensures
            (final(self)@, progress_message(r)) == pumped(old(self)@),
            is_about_progress(r),
    {
        match self.progress {
            Progress::Idle => match self.armed {
                Some(seq) => {
                    self.armed = None;
                    Some(self.start(seq))
                },
                None => None,
            },
            _ => None,
        }
    }

    fn start(&mut self, seq: u64) -> (r: Outgoing)
        ensures
            ({
                let number = next_number(old(self)@);
                let ack = IdView::Text(progress_ack(number));
                let token = progress_token(number);
                &&& final(self)@ == (TrackerView {
                    progress: ProgressView::Launching { ack, seq },
                    token,
                    next_id: number,
                    ..old(self)@
                })
                &&& r matches Outgoing::CreateProgress { id, token: sent } && id@ == ack && sent@
                    == token
            }),
    {
        self.next_id = self.next_id.wrapping_add(1);
        let number: String = decimal(self.next_id);
        let token: String = joined("meta-ast-reindex-", number.as_str());
        let ack: RequestId = RequestId::Text(joined("meta-ast-progress-", number.as_str()));
        self.progress = Progress::Launching { ack: ack.clone(), seq };
        self.token = token.clone();
        Outgoing::CreateProgress { id: ack, token }
    }

    /// The create request was acked: report Begin. A declined create reports
    /// nothing.
    pub fn on_ack(&mut self, id: &RequestId, accepted: bool, applied_seq: u64) -> (r: Option<Outgoing>)
        ensures
            (final(self)@, progress_message(r)) == acked(old(self)@, id@, accepted, applied_seq),
            is_about_progress(r),
    {
        let seq: u64 = match &self.progress {
            Progress::Launching { ack, seq } => {
                if !id.same(ack) {
                    return None;
                }
                *seq
            },
            _ => {
                return None;
            },
        };
        if accepted && seq > applied_seq {
            self.progress = Progress::Active { seq };
            Some(Outgoing::ProgressBegin { token: self.token.clone() })
        } else {
            self.progress = Progress::Idle;
            None
        }
    }

    /// A reindex response closes progress armed for or tracking that seq.
    pub fn finish(&mut self, seq: u64) -> (r: Option<Outgoing>)
        ensures
            (final(self)@, progress_message(r)) == finished(old(self)@, seq),
            is_about_progress(r),
    {
        if let Some(waiting) = self.armed {
            if seq >= waiting {
                self.armed = None;
            }
        }
        let closes: bool = match &self.progress {
            Progress::Launching { seq: own, .. } => seq >= *own,
            Progress::Active { seq: own } => seq >= *own,
            Progress::Idle => false,
        };
        if closes {
            self.close()
        } else {
            None
        }
    }

    /// Close any open progress after a worker loss or shutdown.
    pub fn abandon(&mut self) -> (r: Option<Outgoing>)
        ensures
            (final(self)@, progress_message(r)) == closed_progress(old(self)@),
            is_about_progress(r),
    {
        self.close()
    }

    fn close(&mut self) -> (r: Option<Outgoing>)
        ensures
            (final(self)@, progress_message(r)) == closed_progress(old(self)@),
            is_about_progress(r),
    {
        let owed: bool = match &self.progress {
            Progress::Active { .. } => true,
            _ => false,
        };
        self.progress = Progress::Idle;
        if owed {
            Some(Outgoing::ProgressEnd { token: self.token.clone() })
        } else {
            None
        }
    }
}

// ---------------------------------------------------------------------------
// Laws

/// What can happen to a tracker.
pub enum ProgressEvent {
    Arm { seq: u64 },
    Pump,
    Ack { id: IdView, accepted: bool, applied_seq: u64 },
    Finish { seq: u64 },
    Abandon,
}

/// A tracker after one event, and the message it sends.
pub open spec fn progress_step(t: TrackerView, event: ProgressEvent) -> (
    TrackerView,
    Option<ProgressMessage>,
) {
    match event {
        ProgressEvent::Arm { seq } => (armed(t, seq), None),
        ProgressEvent::Pump => pumped(t),
        ProgressEvent::Ack { id, accepted, applied_seq } => acked(t, id, accepted, applied_seq),
        ProgressEvent::Finish { seq } => finished(t, seq),
        ProgressEvent::Abandon => closed_progress(t),
    }
}

/// A tracker after a list of events.
pub open spec fn progress_after(t: TrackerView, events: Seq<ProgressEvent>) -> TrackerView
    decreases events.len(),
{
    if events.len() == 0 {
        t
    } else {
        progress_step(progress_after(t, events.drop_last()), events.last()).0
    }
}

/// The messages that a list of events makes a tracker send.
pub open spec fn progress_trace(t: TrackerView, events: Seq<ProgressEvent>) -> Seq<ProgressMessage>
    decreases events.len(),
{
    if events.len() == 0 {
        Seq::empty()
    } else {
        let before = progress_trace(t, events.drop_last());
        match progress_step(progress_after(t, events.drop_last()), events.last()).1 {
            Some(message) => before.push(message),
            None => before,
        }
    }
}

/// The token of the progress that a trace leaves open, if every Begin in it but
/// maybe the last is followed by the End of its token before the next, and no End
/// stands elsewhere.
pub open spec fn open_token(trace: Seq<ProgressMessage>) -> Result<Option<Seq<char>>, ()>
    decreases trace.len(),
{
    if trace.len() == 0 {
        Ok(None)
    } else {
        match (open_token(trace.drop_last()), trace.last()) {
            (Ok(open), ProgressMessage::Create { .. }) => Ok(open),
            (Ok(None), ProgressMessage::Begin { token }) => Ok(Some(token)),
            (Ok(Some(token)), ProgressMessage::End { token: ended }) => if ended == token {
                Ok(None)
            } else {
                Err(())
            },
            _ => Err(()),
        }
    }
}

/// Begin and End are paired: whatever happens, each Begin is followed by at most
/// one End, with its token and before the next Begin, no End comes without a
/// Begin, and one is owed exactly while the progress is active.
pub proof fn begin_and_end_are_paired(t: TrackerView, events: Seq<ProgressEvent>)
    requires
        t.progress is Idle,
    ensures
        open_token(progress_trace(t, events)) == Ok::<Option<Seq<char>>, ()>(
            match progress_after(t, events).progress {
                ProgressView::Active { .. } => Some(progress_after(t, events).token),
                _ => None,
            },
        ),
    decreases events.len(),
{
    if events.len() > 0 {
        begin_and_end_are_paired(t, events.drop_last());
        let before = progress_trace(t, events.drop_last());
        let state = progress_after(t, events.drop_last());
        if let Some(message) = progress_step(state, events.last()).1 {
            assert(before.push(message).drop_last() =~= before);
        }
    }
}

/// Shutting down leaves nothing open.
pub proof fn abandoning_ends_every_progress(t: TrackerView, events: Seq<ProgressEvent>)
    requires
        t.progress is Idle,
        events.len() > 0,
        events.last() == ProgressEvent::Abandon,
    ensures
        open_token(progress_trace(t, events)) == Ok::<Option<Seq<char>>, ()>(None),
{
    begin_and_end_are_paired(t, events);
}

/// A client that shows no progress is never asked to.
pub proof fn unsupported_clients_see_no_progress(supported: bool, events: Seq<ProgressEvent>)
    requires
        !supported,
    ensures
        ({
            let t = TrackerView {
                supported,
                progress: ProgressView::Idle,
                token: Seq::empty(),
                next_id: 0,
                armed: None,
            };
            progress_trace(t, events).len() == 0 && progress_after(t, events) == t
        }),
    decreases events.len(),
{
    if events.len() > 0 {
        unsupported_clients_see_no_progress(supported, events.drop_last());
    }
}

} // verus!
