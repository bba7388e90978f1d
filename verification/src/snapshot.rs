//! The pull path of synchronization: a one-shot query for a document's
//! current content, answered by whichever peer holds it, under a bounded
//! timeout.
//!
//! The waiting, sending and timing live with the caller; this module owns
//! the decisions: which topic to query, what a responder replies, and what
//! each outcome of the wait means.

use vstd::prelude::*;
use vstd::string::StringExecFns;

use crate::codec::CodecError;
use crate::codec::decode_doc_spec;
use crate::document::Text;

verus! {

/// The query parameters a content-listing request carries.
pub struct User {
    pub name: String,
}

/// The query parameters a per-document request carries.
pub struct Block {
    pub user: String,
    pub id: String,
}

/// What ended a pull: the first reply's payload, or the timeout.
pub enum PullEvent {
    FirstReply(Vec<u8>),
    TimedOut,
}

/// How a pull ended.
pub enum PullOutcome {
    /// The reply decoded into a live document.
    Decoded(Text),
    /// No responder within the timeout: the document is treated as absent
    /// and the caller falls back to starting fresh.
    NotFound,
    /// A reply arrived but was not a document payload.
    Malformed(CodecError),
}

/// The query topic for a document's current text, keyed by its owner; the
/// document id travels as a query parameter.
pub fn snapshot_query_topic(owner: &str) -> (r: String)
    ensures
        r@ == owner@ + "/holobank/block/text"@,
{
    let mut r = owner.to_owned();
    r.append("/holobank/block/text");
    r
}

/// The topic a document's refreshed full text is pushed on.
pub fn snapshot_update_topic(owner: &str, id: &str) -> (r: String)
    ensures
        r@ == owner@ + "/holobank/block/text/"@ + id@,
{
    let mut r = owner.to_owned();
    r.append("/holobank/block/text/");
    r.append(id);
    r
}

/// The query topic a whole encoded document is pulled from before live
/// editing starts; the document id travels as a query parameter.
pub fn document_query_topic(owner: &str) -> (r: String)
    ensures
        r@ == owner@ + "/editor/encodedtext"@,
{
    let mut r = owner.to_owned();
    r.append("/editor/encodedtext");
    r
}

/// Resolve a pull.  A timeout is [`PullOutcome::NotFound`], never a wait:
/// with no responder the caller always gets an answer.  A reply resolves to
/// exactly what the wire codec makes of it.
pub fn resolve_pull(ev: PullEvent) -> (r: PullOutcome)
    ensures
        ev is TimedOut ==> r is NotFound,
        (ev matches PullEvent::FirstReply(payload) ==> (match decode_doc_spec(payload@) {
            Ok(m) => (r matches PullOutcome::Decoded(d) && d@ == m && d.wf()),
            Err(e) => r == PullOutcome::Malformed(e),
        })),
{
    match ev {
        PullEvent::TimedOut => PullOutcome::NotFound,
        PullEvent::FirstReply(payload) => {
            match Text::decode(payload.as_slice()) {
                Ok(d) => PullOutcome::Decoded(d),
                Err(e) => PullOutcome::Malformed(e),
            }
        },
    }
}

/// What a responder replies to a content query: the stored text, or the
/// empty string where the document is unknown.  Empty content and an
/// unknown document deliberately answer alike, as the pull protocol
/// defines; the requester treats both as a fresh start.
pub fn snapshot_reply(content: Option<String>) -> (r: String)
    ensures
        (content matches Some(c) ==> r@ == c@),
        content is None ==> r@ == Seq::<char>::empty(),
{
    match content {
        Option::Some(c) => c,
        Option::None => String::new(),
    }
}

} // verus!
