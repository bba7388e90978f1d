//! From keystrokes to edit intents.
//!
//! A renderer tracks the cursor as a row and column over the document's
//! lines; edits address the flat buffer.  This module owns the two
//! decisions between them: where the cursor sits in the flat buffer, and
//! what a keystroke means there — one function over the printable
//! characters and control keys, in place of a branch per key.

use vstd::prelude::*;
use vstd::string::StrSliceExecFns;

verus! {

/// A keystroke, reduced to what editing cares about.
#[derive(Clone, Copy, Debug)]
pub enum EditorKey {
    Printable(char),
    Enter,
    Backspace,
    DeleteForward,
    Other,
}

/// What a keystroke asks of the document: an insertion at a flat offset, a
/// removal of a flat range, or nothing.
#[derive(Clone, Copy, PartialEq, Eq, Structural, Debug)]
pub enum EditIntent {
    Insert { offset: usize, ch: char },
    Remove { start: usize, end: usize },
    Ignore,
}

/// The printable characters the editor inserts directly.
pub open spec fn is_supported_char(c: char) -> bool {
    ||| ('a' <= c && c <= 'z')
    ||| ('A' <= c && c <= 'Z')
    ||| ('0' <= c && c <= '9')
    ||| c == ' ' || c == '!' || c == '@' || c == '#' || c == '$' || c == '%' || c == '^' || c
        == '&' || c == '*' || c == '(' || c == ')' || c == '_' || c == '-' || c == '=' || c == '+'
        || c == ':' || c == ';' || c == '\'' || c == '"' || c == '?' || c == '.' || c == ',' || c
        == '<' || c == '>'
}

/// Whether the editor inserts this character directly.
pub fn supported_char(c: char) -> (r: bool)
    ensures
        r == is_supported_char(c),
{
    if ('a' <= c && c <= 'z') || ('A' <= c && c <= 'Z') || ('0' <= c && c <= '9') {
        return true;
    }
    match c {
        ' ' | '!' | '@' | '#' | '$' | '%' | '^' | '&' | '*' | '(' | ')' | '_' | '-' | '=' | '+'
            | ':' | ';' | '\'' | '"' | '?' | '.' | ',' | '<' | '>' => true,
        _ => false,
    }
}

/// What one keystroke means with the cursor at flat offset `at` of a
/// buffer whose flat length is `end`: a supported character or the enter
/// key inserts at the cursor; backspace removes the character before it,
/// unless at the start; delete removes the range one past it, unless at
/// the end; everything else is ignored.
pub fn key_intent(key: EditorKey, at: usize, end: usize) -> (r: EditIntent)
    requires
        at <= end,
        end < usize::MAX - 1,
    ensures
        (key matches EditorKey::Printable(c) ==> r == (if is_supported_char(c) {
            EditIntent::Insert { offset: at, ch: c }
        } else {
            EditIntent::Ignore
        })),
        key is Enter ==> r == (EditIntent::Insert { offset: at, ch: '\n' }),
        key is Backspace ==> r == (if at != 0 {
            EditIntent::Remove { start: (at - 1) as usize, end: at }
        } else {
            EditIntent::Ignore
        }),
        key is DeleteForward ==> r == (if at != end {
            EditIntent::Remove { start: (at + 1) as usize, end: (at + 2) as usize }
        } else {
            EditIntent::Ignore
        }),
        key is Other ==> r == EditIntent::Ignore,
{
    match key {
        EditorKey::Printable(c) => {
            if supported_char(c) {
                EditIntent::Insert { offset: at, ch: c }
            } else {
                EditIntent::Ignore
            }
        },
        EditorKey::Enter => EditIntent::Insert { offset: at, ch: '\n' },
        EditorKey::Backspace => {
            if at != 0 {
                EditIntent::Remove { start: at - 1, end: at }
            } else {
                EditIntent::Ignore
            }
        },
        EditorKey::DeleteForward => {
            if at != end {
                EditIntent::Remove { start: at + 1, end: at + 2 }
            } else {
                EditIntent::Ignore
            }
        },
        EditorKey::Other => EditIntent::Ignore,
    }
}

/// The flat length of the first `row` lines together.
pub open spec fn rows_prefix_len(rows: Seq<String>, row: int) -> int
    decreases row,
{
    if row <= 0 {
        0
    } else {
        rows_prefix_len(rows, row - 1) + rows[row - 1]@.len()
    }
}

/// A longer prefix of lines is at least as long flat.
pub proof fn lemma_rows_prefix_mono(rows: Seq<String>, a: int, b: int)
    requires
        0 <= a <= b,
    ensures
        rows_prefix_len(rows, a) <= rows_prefix_len(rows, b),
    decreases b,
{
    if a < b {
        lemma_rows_prefix_mono(rows, a, b - 1);
    }
}

/// Where a cursor at line `row`, column `col` sits in the flat buffer the
/// lines spell out.
pub fn flat_offset(rows: &Vec<String>, row: usize, col: usize) -> (r: usize)
    requires
        row <= rows@.len(),
        rows_prefix_len(rows@, row as int) + col <= usize::MAX,
    ensures
        r == rows_prefix_len(rows@, row as int) + col,
{
    let mut sum: usize = 0;
    let mut i: usize = 0;
    proof {
        lemma_rows_prefix_mono(rows@, 0, row as int);
    }
    while i < row
        invariant
            i <= row <= rows@.len(),
            sum == rows_prefix_len(rows@, i as int),
            rows_prefix_len(rows@, row as int) + col <= usize::MAX,
        decreases row - i,
    {
        let l = rows[i].as_str().unicode_len();
        proof {
            assert(rows_prefix_len(rows@, i + 1) == rows_prefix_len(rows@, i as int)
                + rows@[i as int]@.len());
            lemma_rows_prefix_mono(rows@, i + 1, row as int);
        }
        sum = sum + l;
        i += 1;
    }
    sum + col
}

/// The flat length of all the lines together: the buffer offset of its
/// end.
pub fn flat_len(rows: &Vec<String>) -> (r: usize)
    requires
        rows_prefix_len(rows@, rows@.len() as int) <= usize::MAX,
    ensures
        r == rows_prefix_len(rows@, rows@.len() as int),
{
    let n = rows.len();
    flat_offset(rows, n, 0)
}

} // verus!
