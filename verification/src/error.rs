//! Typed server errors.

use vstd::prelude::*;
use vstd::string::*;

use crate::protocol::{ErrorReply, RequestId};
use crate::text::joined;

verus! {

/// Failure of one reindex pass.
#[derive(Debug)]
pub enum ReindexError {
    /// The engine refused the pass: discovery, extraction or resolution failed.
    Engine(String),
    /// The snapshot id space is exhausted; the pass cannot be recorded.
    Exhausted,
}

impl ReindexError {
    /// What the error says.
    pub open spec fn text(&self) -> Seq<char> {
        match self {
            ReindexError::Engine(detail) => "engine reanalysis failed: "@ + detail@,
            ReindexError::Exhausted => "snapshot counter exhausted"@,
        }
    }

    /// What the error says.
    pub fn message(&self) -> (r: String)
        ensures
            r@ == self.text(),
    {
        match self {
            ReindexError::Engine(detail) => joined("engine reanalysis failed: ", detail.as_str()),
            ReindexError::Exhausted => "snapshot counter exhausted".to_owned(),
        }
    }
}

pub const METHOD_NOT_FOUND: i32 = -32601;

pub const INVALID_PARAMS: i32 = -32602;

pub const INTERNAL_ERROR: i32 = -32603;

pub const REQUEST_CANCELLED: i32 = -32800;

pub const CONTENT_MODIFIED: i32 = -32801;

pub const REQUEST_FAILED: i32 = -32803;

/// Why a request gets no result.
#[derive(Debug)]
pub enum ServerError {
    MethodNotFound(String),
    InvalidParams(String),
    Internal(String),
    Cancelled,
    /// The index does not describe the document version the request saw.
    ContentModified(String),
    /// The index cannot answer at all, for example after a worker loss.
    RequestFailed(String),
}

/// A server error as a value.
pub enum ErrorView {
    MethodNotFound(Seq<char>),
    InvalidParams(Seq<char>),
    Internal(Seq<char>),
    Cancelled,
    ContentModified(Seq<char>),
    RequestFailed(Seq<char>),
}

impl View for ServerError {
    type V = ErrorView;

    open spec fn view(&self) -> ErrorView {
        match self {
            ServerError::MethodNotFound(detail) => ErrorView::MethodNotFound(detail@),
            ServerError::InvalidParams(detail) => ErrorView::InvalidParams(detail@),
            ServerError::Internal(detail) => ErrorView::Internal(detail@),
            ServerError::Cancelled => ErrorView::Cancelled,
            ServerError::ContentModified(detail) => ErrorView::ContentModified(detail@),
            ServerError::RequestFailed(detail) => ErrorView::RequestFailed(detail@),
        }
    }
}

impl ErrorView {
    /// The JSON-RPC code of the error.
    pub open spec fn code(self) -> i32 {
        match self {
            ErrorView::MethodNotFound(_) => METHOD_NOT_FOUND,
            ErrorView::InvalidParams(_) => INVALID_PARAMS,
            ErrorView::Internal(_) => INTERNAL_ERROR,
            ErrorView::Cancelled => REQUEST_CANCELLED,
            ErrorView::ContentModified(_) => CONTENT_MODIFIED,
            ErrorView::RequestFailed(_) => REQUEST_FAILED,
        }
    }

    /// What the error says.
    pub open spec fn text(self) -> Seq<char> {
        match self {
            ErrorView::MethodNotFound(detail) => "method not found: "@ + detail,
            ErrorView::InvalidParams(detail) => "protocol: "@ + detail,
            ErrorView::Internal(detail) => "internal error: "@ + detail,
            ErrorView::Cancelled => "request cancelled"@,
            ErrorView::ContentModified(detail) => "content modified: "@ + detail,
            ErrorView::RequestFailed(detail) => "request failed: "@ + detail,
        }
    }
}

impl ServerError {
    /// The JSON-RPC code of the error.
    pub fn code(&self) -> (r: i32)
        ensures
            r == self@.code(),
    {
        match self {
            ServerError::MethodNotFound(_) => METHOD_NOT_FOUND,
            ServerError::InvalidParams(_) => INVALID_PARAMS,
            ServerError::Internal(_) => INTERNAL_ERROR,
            ServerError::Cancelled => REQUEST_CANCELLED,
            ServerError::ContentModified(_) => CONTENT_MODIFIED,
            ServerError::RequestFailed(_) => REQUEST_FAILED,
        }
    }

    /// What the error says.
    pub fn message(&self) -> (r: String)
        ensures
            r@ == self@.text(),
    {
        match self {
            ServerError::MethodNotFound(detail) => joined("method not found: ", detail.as_str()),
            ServerError::InvalidParams(detail) => joined("protocol: ", detail.as_str()),
            ServerError::Internal(detail) => joined("internal error: ", detail.as_str()),
            ServerError::Cancelled => "request cancelled".to_owned(),
            ServerError::ContentModified(detail) => joined("content modified: ", detail.as_str()),
            ServerError::RequestFailed(detail) => joined("request failed: ", detail.as_str()),
        }
    }

    /// The answer to the request `id` that failed with this error.
    pub fn to_response(&self, id: RequestId) -> (r: ErrorReply)
        ensures
            r.id == id,
            r.code == self@.code(),
            r.message@ == self@.text(),
    {
        ErrorReply { id, code: self.code(), message: self.message() }
    }
}

/// No two kinds of error share a code: the code tells the kind.
pub proof fn codes_tell_errors_apart(a: ErrorView, b: ErrorView)
    ensures
        a.code() == b.code() <==> {
            ||| a is MethodNotFound && b is MethodNotFound
            ||| a is InvalidParams && b is InvalidParams
            ||| a is Internal && b is Internal
            ||| a is Cancelled && b is Cancelled
            ||| a is ContentModified && b is ContentModified
            ||| a is RequestFailed && b is RequestFailed
        },
{
}

} // verus!
