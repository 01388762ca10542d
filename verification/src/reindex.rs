//! Requests to the background reindex worker and its responses.

use std::sync::Arc;

use vstd::prelude::*;

use crate::error::ReindexError;
use crate::index::snapshot::IndexSnapshot;
use crate::model::Overlay;
use crate::types::RootDir;

verus! {

/// One pass to make, with the buffers of its send time.
#[derive(Debug)]
pub struct ReindexReq {
    pub seq: u64,
    pub root: RootDir,
    pub overlays: Vec<Overlay>,
}

/// What came of one pass.
#[derive(Debug)]
pub struct ReindexResp {
    pub seq: u64,
    pub elapsed_ms: u64,
    pub result: Result<Arc<IndexSnapshot>, ReindexError>,
}

/// Of the requests that wait, the worker answers the newest: each carries the
/// whole state of its send time.
pub fn latest_request(first: ReindexReq, newer: Vec<ReindexReq>) -> (r: ReindexReq)
    ensures
        r == (if newer@.len() == 0 {
            first
        } else {
            newer@.last()
        }),
{
    let mut newer = newer;
    match newer.pop() {
        Some(last) => last,
        None => first,
    }
}

} // verus!
