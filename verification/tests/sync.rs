use holotext::CodecError;
use holotext::PullEvent;
use holotext::PullOutcome;
use holotext::Text;
use holotext::apply_live_payload;
use holotext::document_query_topic;
use holotext::edit_payload;
use holotext::live_topic;
use holotext::resolve_pull;
use holotext::snapshot_query_topic;
use holotext::snapshot_reply;
use holotext::snapshot_update_topic;
use holotext::Edit;

#[test]
fn pull_timeout_is_not_found() {
    match resolve_pull(PullEvent::TimedOut) {
        PullOutcome::NotFound => {}
        _ => panic!("a timed-out pull must resolve to NotFound"),
    }
}

#[test]
fn pull_reply_decodes() {
    let doc = Text::new("shared text", 4);
    let wire = doc.encode(5);
    match resolve_pull(PullEvent::FirstReply(wire)) {
        PullOutcome::Decoded(d) => {
            assert_eq!(d.buffer, "shared text");
            assert_eq!(d.crdt.id(), 5);
        }
        _ => panic!("a well-formed reply must decode"),
    }
}

#[test]
fn pull_garbage_is_malformed() {
    match resolve_pull(PullEvent::FirstReply(vec![9, 9, 9])) {
        PullOutcome::Malformed(CodecError::UnknownTag) => {}
        _ => panic!("a garbage reply must be reported malformed"),
    }
}

#[test]
fn topics() {
    assert_eq!(snapshot_query_topic("alice"), "alice/holobank/block/text");
    assert_eq!(snapshot_update_topic("alice", "doc1"), "alice/holobank/block/text/doc1");
    assert_eq!(document_query_topic("alice"), "alice/editor/encodedtext");
    assert_eq!(live_topic("alice", "doc1"), "alice/realtime/block/text/doc1");
}

#[test]
fn snapshot_reply_is_content_or_empty() {
    assert_eq!(snapshot_reply(Some("body".to_string())), "body");
    assert_eq!(snapshot_reply(None), "");
}

#[test]
fn live_payload_integrates() {
    let mut a = Text::new("Hello, world", 1);
    let mut b = a.fork(2);
    let ins = b.insert(12, "!").unwrap();
    let payload = edit_payload(&Edit::Inserted(ins));

    apply_live_payload(&mut a, payload.as_slice()).unwrap();
    assert_eq!(a.buffer, "Hello, world!");
    assert_eq!(a.buffer, b.buffer);
}

#[test]
fn bad_live_payload_is_skipped() {
    let mut a = Text::new("intact", 1);
    let r = apply_live_payload(&mut a, &[1, 2, 3]);
    assert!(r.is_err());
    assert_eq!(a.buffer, "intact");
}
