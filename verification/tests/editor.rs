use holotext::EditIntent;
use holotext::EditorKey;
use holotext::Text;
use holotext::flat_len;
use holotext::flat_offset;
use holotext::key_intent;
use holotext::supported_char;

#[test]
fn printable_keys_insert_at_the_cursor() {
    assert_eq!(
        key_intent(EditorKey::Printable('a'), 3, 10),
        EditIntent::Insert { offset: 3, ch: 'a' }
    );
    assert_eq!(
        key_intent(EditorKey::Printable('!'), 0, 10),
        EditIntent::Insert { offset: 0, ch: '!' }
    );
    assert_eq!(
        key_intent(EditorKey::Enter, 5, 10),
        EditIntent::Insert { offset: 5, ch: '\n' }
    );
    assert_eq!(key_intent(EditorKey::Printable('~'), 3, 10), EditIntent::Ignore);
    assert_eq!(key_intent(EditorKey::Other, 3, 10), EditIntent::Ignore);
}

#[test]
fn backspace_and_delete_respect_the_edges() {
    assert_eq!(key_intent(EditorKey::Backspace, 0, 10), EditIntent::Ignore);
    assert_eq!(
        key_intent(EditorKey::Backspace, 4, 10),
        EditIntent::Remove { start: 3, end: 4 }
    );
    assert_eq!(key_intent(EditorKey::DeleteForward, 10, 10), EditIntent::Ignore);
    assert_eq!(
        key_intent(EditorKey::DeleteForward, 4, 10),
        EditIntent::Remove { start: 5, end: 6 }
    );
}

#[test]
fn supported_characters() {
    assert!(supported_char('z'));
    assert!(supported_char('Q'));
    assert!(supported_char('7'));
    assert!(supported_char(' '));
    assert!(supported_char('@'));
    assert!(!supported_char('~'));
    assert!(!supported_char('\n'));
}

#[test]
fn cursor_position_flattens_over_lines() {
    let rows = vec!["ab\n".to_string(), "cd\n".to_string(), "e".to_string()];
    assert_eq!(flat_offset(&rows, 0, 0), 0);
    assert_eq!(flat_offset(&rows, 1, 1), 4);
    assert_eq!(flat_offset(&rows, 2, 1), 7);
    assert_eq!(flat_len(&rows), 7);
}

#[test]
fn intents_drive_the_document() {
    let mut doc = Text::new("ab", 9);
    match key_intent(EditorKey::Printable('c'), 2, 2) {
        EditIntent::Insert { offset, ch } => {
            doc.insert(offset, ch.to_string().as_str()).unwrap();
        }
        _ => panic!("expected an insertion"),
    }
    assert_eq!(doc.buffer, "abc");
    match key_intent(EditorKey::Backspace, 1, 3) {
        EditIntent::Remove { start, end } => {
            doc.delete(start..end).unwrap();
        }
        _ => panic!("expected a removal"),
    }
    assert_eq!(doc.buffer, "bc");
}
