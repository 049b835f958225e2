//! Read-model records handed to clients that list feed sources.

use vstd::prelude::*;

verus! {

/// The client-facing summary of one feed source: a display title and the
/// home-page URL of its first outline.
#[derive(Debug, PartialEq, Eq)]
pub struct OPMLResponse {
    pub title: String,
    pub html_url: String,
}

/// A batch of feed-source summaries, one per queried seller.
#[derive(Debug, PartialEq, Eq)]
pub struct OPMLResponses {
    pub res: Vec<OPMLResponse>,
}

} // verus!
