//! The server's decisions: what a message changes and what is answered.

use vstd::prelude::*;
use vstd::string::*;

pub mod capabilities;
pub mod dispatch;
pub mod ids;
pub mod progress;
pub mod scheduler;
pub mod session;

use crate::cancel::Cancellation;
use crate::error::{ErrorView, INVALID_PARAMS};
use crate::protocol::{ErrorReply, IdView, Outgoing, Reply, RequestId};
use crate::server::dispatch::{
    answered, handle_notification, handle_request, notified, query_refusal, refuses, Notification,
    Query,
};
use crate::server::progress::{acked, is_about_progress, progress_message, pumped};
use crate::server::session::{same_but_progress, DiskText, Session};

verus! {

pub const INVALID_REQUEST: i32 = -32600;

/// One message of the client, taken out of its wire form.
#[derive(Debug)]
pub enum ClientMessage {
    Request { id: RequestId, query: Query },
    Shutdown { id: RequestId },
    Notification(Notification),
    Exit,
    /// The client's response to a request of the server.
    Response { id: RequestId, accepted: bool },
}

/// Whether to go on serving.
#[derive(Clone, Copy, Debug, PartialEq, Eq, Structural)]
pub enum LoopControl {
    Continue,
    Exit,
}

/// What handling one message comes to.
#[derive(Debug)]
pub struct Handled {
    pub control: LoopControl,
    pub messages: Vec<Outgoing>,
}

/// A message answers a shutdown.
pub open spec fn confirms(message: Outgoing, id: IdView) -> bool {
    message matches Outgoing::Answer { id: to, reply } && to@ == id && reply is Null
}

/// A message turns away a request after a shutdown.
pub open spec fn turns_away(message: Outgoing, id: IdView) -> bool {
    message matches Outgoing::Refuse(reply) && reply.id@ == id && reply.code == INVALID_REQUEST
        && reply.message@ == "server is shutting down"@
}

/// A message is the answer to a query: an error if the request was cancelled in
/// flight or cannot be answered, else the result.
pub open spec fn replies<D: DiskText>(
    message: Outgoing,
    id: IdView,
    query: Query,
    session: Session,
    disk: D,
    in_flight: Map<IdView, bool>,
) -> bool {
    if in_flight.contains_key(id) && in_flight[id] {
        refuses(message, id, ErrorView::Cancelled)
    } else {
        match query_refusal(session, query) {
            Some(error) => refuses(message, id, error),
            None => message matches Outgoing::Answer { id: to, reply } && to@ == id && answered(
                reply,
                session,
                disk,
                query,
            ),
        }
    }
}

/// Messages end with the progress message, if there is one.
pub open spec fn ends_with_progress(
    messages: Seq<Outgoing>,
    first: Seq<Outgoing>,
    last: Option<Outgoing>,
) -> bool {
    match last {
        Some(message) => messages == first.push(message),
        None => messages == first,
    }
}

/// A session that took a notification and then started what progress it could.
pub open spec fn noted_and_pumped(
    notification: Notification,
    before: Session,
    after: Session,
    in_flight: Map<IdView, bool>,
    still: Map<IdView, bool>,
    messages: Seq<Outgoing>,
) -> bool {
    exists|noted: Session, first: Seq<Outgoing>, last: Option<Outgoing>|
        {
            &&& #[trigger] notified(notification, before, noted, in_flight, still, first)
            &&& same_but_progress(after, noted)
            &&& (after.progress@, progress_message(last)) == pumped(noted.progress@)
            &&& is_about_progress(last)
            &&& #[trigger] ends_with_progress(messages, first, last)
        }
}

fn one(message: Outgoing) -> (r: Vec<Outgoing>)
    ensures
        r@ == seq![message],
{
    let mut r: Vec<Outgoing> = Vec::new();
    r.push(message);
    assert(r@ =~= seq![message]);
    r
}

fn optional(message: Option<Outgoing>) -> (r: Vec<Outgoing>)
    ensures
        ends_with_progress(r@, Seq::empty(), message),
{
    match message {
        Some(message) => {
            let r = one(message);
            assert(r@ =~= Seq::empty().push(message));
            r
        },
        None => Vec::new(),
    }
}

/// Handle one message of the client. After a shutdown every request but another
/// shutdown is turned away; `exit` ends the loop.
pub fn handle_client_message<D: DiskText>(
    session: &mut Session,
    cancel: &mut Cancellation,
    shutdown: &mut bool,
    disk: &D,
    message: ClientMessage,
) -> (r: Handled)
    ensures
        r.control == (if message is Exit {
            LoopControl::Exit
        } else {
            LoopControl::Continue
        }),
        *final(shutdown) == (*old(shutdown) || message is Shutdown),
        match message {
            ClientMessage::Request { id, query } => {
                &&& *final(session) == *old(session)
                &&& r.messages@.len() == 1
                &&& if *old(shutdown) {
                    turns_away(r.messages@[0], id@) && final(cancel)@ == old(cancel)@
                } else {
                    replies(r.messages@[0], id@, query, *old(session), *disk, old(cancel)@)
                        && final(cancel)@ == old(cancel)@.remove(id@)
                }
            },
            ClientMessage::Shutdown { id } => {
                &&& *final(session) == *old(session)
                &&& final(cancel)@ == old(cancel)@
                &&& r.messages@.len() == 1
                &&& confirms(r.messages@[0], id@)
            },
            ClientMessage::Notification(notification) => noted_and_pumped(
                notification,
                *old(session),
                *final(session),
                old(cancel)@,
                final(cancel)@,
                r.messages@,
            ),
            ClientMessage::Exit => {
                &&& *final(session) == *old(session)
                &&& final(cancel)@ == old(cancel)@
                &&& r.messages@.len() == 0
            },
            ClientMessage::Response { id, accepted } => {
                &&& same_but_progress(*final(session), *old(session))
                &&& final(cancel)@ == old(cancel)@
                &&& exists|last: Option<Outgoing>|
                    {
                        &&& (final(session).progress@, progress_message(last)) == acked(
                            old(session).progress@,
                            id@,
                            accepted,
                            old(session).applied_seq,
                        )
                        &&& is_about_progress(last)
                        &&& #[trigger] ends_with_progress(r.messages@, Seq::empty(), last)
                    }
            },
        },
{
    match message {
        ClientMessage::Request { id, query } => {
            let answer: Outgoing = if *shutdown {
                Outgoing::Refuse(
                    ErrorReply {
                        id,
                        code: INVALID_REQUEST,
                        message: "server is shutting down".to_owned(),
                    },
                )
            } else {
                handle_request(session, cancel, disk, id, &query)
            };
            Handled { control: LoopControl::Continue, messages: one(answer) }
        },
        ClientMessage::Shutdown { id } => {
            *shutdown = true;
            Handled {
                control: LoopControl::Continue,
                messages: one(Outgoing::Answer { id, reply: Reply::Null }),
            }
        },
        ClientMessage::Notification(notification) => {
            let mut messages = handle_notification(session, cancel, &notification);
            let ghost noted = *session;
            let ghost first = messages@;
            let last = session.pump_progress();
            let ghost sent = last;
            if let Some(message) = last {
                messages.push(message);
            }
            proof {
                assert(notified(
                    notification,
                    *old(session),
                    noted,
                    old(cancel)@,
                    cancel@,
                    first,
                ));
                assert(ends_with_progress(messages@, first, sent));
            }
            Handled { control: LoopControl::Continue, messages }
        },
        ClientMessage::Exit => Handled { control: LoopControl::Exit, messages: Vec::new() },
        ClientMessage::Response { id, accepted } => {
            let last = session.on_progress_ack(&id, accepted);
            let ghost sent = last;
            let messages = optional(last);
            assert(ends_with_progress(messages@, Seq::empty(), sent));
            Handled { control: LoopControl::Continue, messages }
        },
    }
}

/// How serving ends: an exit before a shutdown is an error, and so is a worker
/// that panicked.
pub fn exit_status(shutdown: bool, worker_panicked: bool) -> (r: Result<(), String>)
    ensures
        match r {
            Ok(()) => shutdown && !worker_panicked,
            Err(reason) => reason@ == (if worker_panicked {
                "reindex worker panicked"@
            } else {
                "client exited without shutdown"@
            }) && (worker_panicked || !shutdown),
        },
{
    if worker_panicked {
        return Err("reindex worker panicked".to_owned());
    }
    if !shutdown {
        return Err("client exited without shutdown".to_owned());
    }
    Ok(())
}

/// The answer to an initialize request that is refused.
pub fn reject_initialize(id: RequestId, message: &str) -> (r: ErrorReply)
    ensures
        r.id == id,
        r.code == INVALID_PARAMS,
        r.message@ == message@,
{
    ErrorReply { id, code: INVALID_PARAMS, message: message.to_owned() }
}

} // verus!
