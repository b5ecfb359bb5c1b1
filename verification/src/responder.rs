//! The scrape responder: whatever is asked, the answer is the registry as it
//! stands, in the text exposition format.

use crate::exposition::{encode, exposition};
use crate::model::FamilyView;
use crate::registry::{Registry, Snapshot};
use vstd::prelude::*;

verus! {

/// What is read of an inbound request. None of it changes the answer.
pub struct ScrapeRequest {
    pub method: String,
    pub path: String,
    pub headers: Vec<(String, String)>,
}

/// The answer to a scrape, as plain values.
pub struct ScrapeResponse {
    pub status: u16,
    pub content_type: String,
    pub body: String,
}

/// What a response says, as mathematics.
pub struct ResponseView {
    pub status: int,
    pub content_type: Seq<char>,
    pub body: Seq<char>,
}

impl View for ScrapeResponse {
    type V = ResponseView;

    open spec fn view(&self) -> ResponseView {
        ResponseView {
            status: self.status as int,
            content_type: self.content_type@,
            body: self.body@,
        }
    }
}

/// The answer for given families: success, the media type of the text
/// exposition format, and the families written in that format.
pub open spec fn scrape_of(families: Seq<FamilyView>) -> ResponseView {
    ResponseView {
        status: 200,
        content_type: "text/plain; version=0.0.4"@,
        body: exposition(families),
    }
}

/// Wraps a snapshot in a response.
pub fn respond(snapshot: &Snapshot) -> (response: ScrapeResponse)
    ensures
        response@ == scrape_of(snapshot@),
{
    ScrapeResponse {
        status: 200,
        content_type: "text/plain; version=0.0.4".to_owned(),
        body: encode(snapshot),
    }
}

/// Answers a request, whatever its method and path: the registry is read,
/// never changed, and the answer depends on nothing but what it holds.
pub fn metric_service(request: &ScrapeRequest, registry: &Registry) -> (response: ScrapeResponse)
    ensures
        response@ == scrape_of(registry@),
{
    let snapshot = registry.gather();
    respond(&snapshot)
}

} // verus!
