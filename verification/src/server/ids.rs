//! Canonical transport identifiers: one spelling per concern.

use vstd::prelude::*;
use vstd::string::*;

use crate::protocol::{IdView, RequestId};
use crate::text::{decimal, decimal_text, joined};

verus! {

pub const SERVER_NAME: &'static str = "meta-call-lsp";

pub const WATCHED_FILES_REGISTRATION: &'static str = "meta-call-lsp-watched-files";

/// Id of the request that registers for watched files.
pub fn watched_files_request_id() -> (r: RequestId)
    ensures
        r@ == IdView::Text("meta-call-lsp-register-watched-files"@),
{
    RequestId::Text("meta-call-lsp-register-watched-files".to_owned())
}

/// The server's own token for the n-th progress.
pub fn reindex_progress_token(number: u64) -> (r: String)
    ensures
        r@ == SERVER_NAME@ + "-reindex-"@ + decimal_text(number as nat),
{
    let mut token: String = joined(SERVER_NAME, "-reindex-");
    token.append(decimal(number).as_str());
    token
}

/// The server's own id for the request that creates the n-th progress.
pub fn reindex_progress_ack(number: u64) -> (r: RequestId)
    ensures
        r@ == IdView::Text(SERVER_NAME@ + "-progress-"@ + decimal_text(number as nat)),
{
    let mut id: String = joined(SERVER_NAME, "-progress-");
    id.append(decimal(number).as_str());
    RequestId::Text(id)
}

} // verus!
