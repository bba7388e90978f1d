//! The push path of synchronization: every local edit travels, encoded, to
//! a topic keyed by the document's owner and id; every edit received on
//! that topic is integrated into the local document.
//!
//! Subscribing, publishing and the queue between them live with the
//! caller; this module owns the decisions: the topic, the payload of an
//! outgoing edit, and what an incoming payload does to the document.  A
//! malformed payload is reported and skipped, never integrated and never a
//! panic, so one bad message cannot stop the listener.

use vstd::prelude::*;
use vstd::string::StringExecFns;

use crate::codec::CodecError;
use crate::codec::decode_edit_spec;
use crate::codec::encode_edit;
use crate::codec::encode_edit_spec;
use crate::document::Edit;
use crate::document::Text;
use crate::document::edit_model;
use crate::document::replayed_model;

verus! {

/// The request parameters a live-edit relay request carries.
pub struct Block {
    pub user: String,
    pub id: String,
}

/// The topic live edits of one document travel on, in both messaging
/// scopes; a relay forwards payloads between the scopes' identically-keyed
/// topics without decoding them.
pub fn live_topic(owner: &str, id: &str) -> (r: String)
    ensures
        r@ == owner@ + "/realtime/block/text/"@ + id@,
{
    let mut r = owner.to_owned();
    r.append("/realtime/block/text/");
    r.append(id);
    r
}

/// The payload that broadcasts one local edit.
pub fn edit_payload(edit: &Edit) -> (r: Vec<u8>)
    ensures
        r@ == encode_edit_spec(edit_model(*edit)),
{
    encode_edit(edit)
}

/// Integrate one payload received on the live-edit topic.  A well-formed
/// payload replays its edit on the document; anything else changes nothing
/// and hands the error back for logging.
pub fn apply_live_payload(doc: &mut Text, payload: &[u8]) -> (r: Result<(), CodecError>)
    requires
        old(doc).wf(),
    ensures
        final(doc).wf(),
        match decode_edit_spec(payload@) {
            Ok(e) => r is Ok && final(doc)@ == replayed_model(old(doc)@, e),
            Err(e) => r == Err::<(), CodecError>(e) && final(doc)@ == old(doc)@,
        },
{
    match crate::codec::decode_edit(payload) {
        Ok(edit) => {
            doc.replay(edit);
            Ok(())
        },
        Err(e) => Err(e),
    }
}

} // verus!
