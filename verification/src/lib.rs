//! A replicated text document engine: a CRDT-backed text buffer whose
//! concurrent edits merge without coordination, an append-only edit history,
//! a self-describing wire codec, and the decision logic of the pull
//! (snapshot) and push (live edit) synchronization paths.

use vstd::prelude::*;

pub mod asset;
pub mod bank;
mod codec;
mod crdt;
mod document;
mod editor;
mod ident;
mod laws;
mod live;
mod snapshot;
pub mod system;

pub use codec::CodecError;
pub use codec::EncodedText;
pub use codec::decode_edit;
pub use codec::encode_edit;
pub use crdt::Elem;
pub use crdt::Replica;
pub use document::Deletion;
pub use document::Edit;
pub use document::InsertAnchor;
pub use document::Insertion;
pub use document::Text;
pub use document::TextError;
pub use editor::EditIntent;
pub use editor::EditorKey;
pub use editor::flat_len;
pub use editor::flat_offset;
pub use editor::key_intent;
pub use editor::supported_char;
pub use ident::Id;
pub use live::apply_live_payload;
pub use live::edit_payload;
pub use live::live_topic;
pub use snapshot::PullEvent;
pub use snapshot::PullOutcome;
pub use snapshot::User;
pub use snapshot::document_query_topic;
pub use snapshot::resolve_pull;
pub use snapshot::snapshot_query_topic;
pub use snapshot::snapshot_reply;
pub use snapshot::snapshot_update_topic;

verus! {

} // verus!
