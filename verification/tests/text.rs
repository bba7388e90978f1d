use holotext::Edit;
use holotext::Text;
use holotext::TextError;

#[test]
fn ins_del() {
    let mut peer_1 = Text::new("Hello, world", 1);
    let mut peer_2 = peer_1.fork(2);

    let delete_comma = peer_1.delete(5..6).unwrap();
    let insert_exclamation = peer_2.insert(12, "!").unwrap();

    peer_1.integrate_insertion(insert_exclamation);
    peer_2.integrate_deletion(delete_comma);

    assert_eq!(peer_1.buffer, "Hello world!");
    assert_eq!(peer_2.buffer, "Hello world!");
}

#[test]
fn history() {
    let mut peer_1 = Text::new("Hello, world", 1);
    let mut peer_2 = peer_1.fork(2);
    let mut peer_3 = peer_1.fork(3);
    let mut peer_4 = peer_1.fork(4);

    let delete_comma = peer_1.delete(5..6).unwrap();
    let insert_exclamation = peer_2.insert(12, "!").unwrap();

    peer_1.integrate_insertion(insert_exclamation);
    peer_2.integrate_deletion(delete_comma);

    let history_1 = peer_1.history.clone();
    let history_2 = peer_2.history.clone();

    println!("{:?}", history_1);
    println!("{:?}", history_2);

    for edit in history_1 {
        match edit {
            Edit::Inserted(insertion) => {
                peer_3.integrate_insertion(insertion);
            }
            Edit::Deleted(deletion) => {
                peer_3.integrate_deletion(deletion);
            }
        }
    }

    for edit in history_2 {
        match edit {
            Edit::Inserted(insertion) => {
                peer_4.integrate_insertion(insertion);
            }
            Edit::Deleted(deletion) => {
                peer_4.integrate_deletion(deletion);
            }
        }
    }

    assert_eq!(peer_3.buffer, "Hello world!");
    assert_eq!(peer_4.buffer, "Hello world!");
}

#[test]
fn insert_is_idempotent() {
    let mut source = Text::new("abc", 1);
    let mut sink = source.fork(2);
    let ins = source.insert(1, "XY").unwrap();

    sink.integrate_insertion(ins.clone());
    assert_eq!(sink.buffer, "aXYbc");
    sink.integrate_insertion(ins);
    assert_eq!(sink.buffer, "aXYbc");
}

#[test]
fn delete_is_idempotent() {
    let mut source = Text::new("abcd", 1);
    let mut sink = source.fork(2);
    let del = source.delete(1..3).unwrap();

    sink.integrate_deletion(del.clone());
    assert_eq!(sink.buffer, "ad");
    sink.integrate_deletion(del);
    assert_eq!(sink.buffer, "ad");
}

#[test]
fn insert_past_end_is_refused() {
    let mut doc = Text::new("abc", 1);
    let r = doc.insert(4, "x");
    assert_eq!(r.unwrap_err(), TextError::OutOfRange);
    assert_eq!(doc.buffer, "abc");
}

#[test]
fn inverted_range_is_refused() {
    let mut doc = Text::new("abc", 1);
    let r = doc.delete(2..1);
    assert_eq!(r.unwrap_err(), TextError::InvalidRange);
    assert_eq!(doc.buffer, "abc");
}

#[test]
fn out_of_bounds_range_is_refused() {
    let mut doc = Text::new("abc", 1);
    let r = doc.delete(1..9);
    assert_eq!(r.unwrap_err(), TextError::OutOfRange);
    assert_eq!(doc.buffer, "abc");
}

#[test]
fn insert_at_start_and_empty_document() {
    let mut doc = Text::new("", 7);
    assert_eq!(doc.buffer, "");
    doc.insert(0, "b").unwrap();
    doc.insert(0, "a").unwrap();
    doc.insert(2, "c").unwrap();
    assert_eq!(doc.buffer, "abc");
}

#[test]
fn concurrent_inserts_converge() {
    let mut a = Text::new("mid", 1);
    let mut b = a.fork(2);

    let ia = a.insert(0, "L").unwrap();
    let ib = b.insert(3, "R").unwrap();

    a.integrate_insertion(ib);
    b.integrate_insertion(ia);

    assert_eq!(a.buffer, "LmidR");
    assert_eq!(a.buffer, b.buffer);
}

#[test]
fn unknown_insertion_anchor_is_skipped() {
    let mut a = Text::new("base", 1);
    let mut b = a.fork(2);
    // An edit anchored on text the receiver has never seen.
    b.insert(4, "x").unwrap();
    let dangling = b.insert(5, "y").unwrap();

    a.integrate_insertion(dangling);
    assert_eq!(a.buffer, "base");
}

#[test]
fn unicode_edits() {
    let mut a = Text::new("caf", 1);
    let mut b = a.fork(2);
    let ins = a.insert(3, "\u{e9}").unwrap();
    b.integrate_insertion(ins);
    assert_eq!(a.buffer, "caf\u{e9}");
    assert_eq!(b.buffer, "caf\u{e9}");
    let del = a.delete(3..4).unwrap();
    b.integrate_deletion(del);
    assert_eq!(b.buffer, "caf");
}
