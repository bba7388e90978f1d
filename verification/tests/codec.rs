use holotext::CodecError;
use holotext::EncodedText;
use holotext::Text;
use holotext::decode_edit;
use holotext::encode_edit;
use holotext::Edit;

#[test]
fn ser_de() {
    let peer_1 = Text::new("Hello, world", 1);

    let encoded = peer_1.encode(2);
    let wire = encoded.as_slice();

    let peer_2_enc = EncodedText::from_bytes(wire).unwrap();
    let peer_2: Text = From::from(peer_2_enc);

    assert_eq!(peer_1.buffer, peer_2.buffer);
    assert_eq!(peer_2.crdt.id(), 2);
}

#[test]
fn round_trip_keeps_history_and_edits_stay_distinct() {
    let mut peer_1 = Text::new("Hello, world", 1);
    let mut peer_2 = peer_1.fork(2);
    let del = peer_1.delete(5..6).unwrap();
    let ins = peer_2.insert(12, "!").unwrap();
    peer_1.integrate_insertion(ins);
    peer_2.integrate_deletion(del);

    let wire = peer_1.encode(3);
    let mut peer_3 = Text::decode(wire.as_slice()).unwrap();
    assert_eq!(peer_3.buffer, "Hello world!");
    assert_eq!(peer_3.crdt.id(), 3);
    assert_eq!(peer_3.history.len(), peer_1.history.len());

    // Continued edits on the decoded replica integrate cleanly everywhere.
    let more = peer_3.insert(0, ">").unwrap();
    peer_1.integrate_insertion(more);
    assert_eq!(peer_1.buffer, ">Hello world!");
    assert_eq!(peer_1.buffer, peer_3.buffer);
}

#[test]
fn empty_payload_is_truncated() {
    let empty: Vec<u8> = Vec::new();
    assert_eq!(Text::decode(empty.as_slice()).unwrap_err(), CodecError::Truncated);
}

#[test]
fn unknown_tag_is_refused() {
    let payload = vec![0x00u8, 1, 2, 3];
    assert_eq!(Text::decode(payload.as_slice()).unwrap_err(), CodecError::UnknownTag);
}

#[test]
fn truncated_payload_is_refused() {
    let doc = Text::new("hello", 9);
    let mut wire = doc.encode(9);
    wire.truncate(wire.len() - 1);
    assert_eq!(Text::decode(wire.as_slice()).unwrap_err(), CodecError::Truncated);
}

#[test]
fn trailing_bytes_are_refused() {
    let doc = Text::new("hello", 9);
    let mut wire = doc.encode(9);
    wire.push(0);
    assert_eq!(Text::decode(wire.as_slice()).unwrap_err(), CodecError::Malformed);
}

#[test]
fn edit_payload_round_trip() {
    let mut doc = Text::new("abc", 5);
    let ins = doc.insert(3, "de").unwrap();
    let wire = encode_edit(&Edit::Inserted(ins));

    let mut peer = Text::new("abc", 5).fork(6);
    match decode_edit(wire.as_slice()).unwrap() {
        Edit::Inserted(i) => peer.integrate_insertion(i),
        Edit::Deleted(d) => peer.integrate_deletion(d),
    }
    assert_eq!(peer.buffer, "abcde");

    let del = doc.delete(0..1).unwrap();
    let wire = encode_edit(&Edit::Deleted(del));
    match decode_edit(wire.as_slice()).unwrap() {
        Edit::Inserted(i) => peer.integrate_insertion(i),
        Edit::Deleted(d) => peer.integrate_deletion(d),
    }
    assert_eq!(peer.buffer, "bcde");
}

#[test]
fn edit_payload_rejects_garbage() {
    let garbage = vec![0xE1u8, 7, 7, 7];
    assert!(decode_edit(garbage.as_slice()).is_err());
    let wrong_tag = vec![0x01u8];
    assert_eq!(decode_edit(wrong_tag.as_slice()).unwrap_err(), CodecError::UnknownTag);
}

#[test]
fn round_trip_with_non_ascii_text() {
    let mut doc = Text::new("gr\u{fc}n", 1);
    doc.insert(4, "\u{2713}").unwrap();
    doc.delete(0..1).unwrap();
    let wire = doc.encode(2);
    let copy = Text::decode(wire.as_slice()).unwrap();
    assert_eq!(copy.buffer, "r\u{fc}n\u{2713}");
    assert_eq!(copy.buffer, doc.buffer);
    assert_eq!(copy.crdt.id(), 2);
}
