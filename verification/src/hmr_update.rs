//! What a hot-update request is answered with.

use vstd::prelude::*;

verus! {

/// The code that a client applies to hot-update itself.
#[derive(Debug, Clone)]
pub struct HmrPatch {
    pub code: String,
    pub filename: String,
}

/// The server never decides a reload: it ships a patch that covers every client, and each client
/// walks its own module graph to decide whether to apply it, skip it, or reload.
#[derive(Debug, Clone)]
pub enum HmrUpdate {
    Patch(HmrPatch),
    /// Nothing has to be done for the request.
    Noop,
}

} // verus!
