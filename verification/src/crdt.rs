//! The per-character merge state of one replica.
//!
//! A document is modelled as a sequence of elements, one per unit of text
//! ever inserted, in document order.  Deleted elements stay in the sequence
//! as invisible tombstones, so concurrent edits can still resolve their
//! anchors.  Every element carries a stable identity ([`Id`]), the logical
//! timestamp of the insertion that minted it, its character, and its
//! visibility.  The visible characters, in order, are the document's buffer.
//!
//! Integration of a remote insertion places its run of elements just after
//! the element its anchor names, skipping runs minted with a greater
//! (timestamp, replica) pair; integration of a remote deletion marks the
//! named identities invisible.  Both are pure functions of the element
//! sequence and the edit ([`apply_insertion`], [`mark_deleted`]), which is
//! what makes replicas converge.

use vstd::prelude::*;

use crate::ident::Id;

verus! {

/// One unit of text: its identity, the logical timestamp of the insertion
/// that minted it, its character, and whether it is still visible.
#[derive(Clone, Copy, Debug)]
pub struct Elem {
    pub id: Id,
    pub ts: u64,
    pub ch: char,
    pub vis: bool,
}

/// The mathematical content of an insertion: the run of identities
/// `(rid, seq) .. (rid, seq + text.len())`, the timestamp they were minted
/// at, the identity of the element to the left of the insertion point at
/// creation time (`None` at the start of the document), and the text.
pub struct InsModel {
    pub rid: u64,
    pub seq: u64,
    pub ts: u64,
    pub left: Option<Id>,
    pub text: Seq<char>,
}

/// The mathematical content of one edit.
pub enum EditModel {
    Ins(InsModel),
    Del(Seq<Id>),
}

/// The visible characters of an element sequence, in order: the buffer the
/// sequence materializes to.
pub open spec fn vis_chars(s: Seq<Elem>) -> Seq<char>
    decreases s.len(),
{
    if s.len() == 0 {
        Seq::empty()
    } else {
        (if s[0].vis {
            seq![s[0].ch]
        } else {
            Seq::empty()
        }) + vis_chars(s.drop_first())
    }
}

/// The buffer offset element `i` materializes at: how many visible elements
/// precede it.
pub open spec fn vis_idx(s: Seq<Elem>, i: int) -> int {
    vis_chars(s.take(i)).len() as int
}

/// The element holding the `k`-th visible character.
pub open spec fn nth_visible(s: Seq<Elem>, k: int) -> Elem
    decreases s.len(),
{
    if s.len() == 0 {
        arbitrary()
    } else if s[0].vis {
        if k == 0 {
            s[0]
        } else {
            nth_visible(s.drop_first(), k - 1)
        }
    } else {
        nth_visible(s.drop_first(), k)
    }
}

pub open spec fn contains_id(s: Seq<Elem>, id: Id) -> bool {
    exists|i: int| 0 <= i < s.len() && s[i].id == id
}

/// The index of the element with the given identity, or `s.len()` if there
/// is none.
pub open spec fn idx_of_id(s: Seq<Elem>, id: Id) -> int
    decreases s.len(),
{
    if s.len() == 0 {
        0
    } else if s[0].id == id {
        0
    } else {
        1 + idx_of_id(s.drop_first(), id)
    }
}

pub open spec fn ids_distinct(s: Seq<Elem>) -> bool {
    forall|i: int, j: int| 0 <= i < j < s.len() ==> s[i].id != s[j].id
}

pub open spec fn ts_bounded(s: Seq<Elem>, clock: u64) -> bool {
    forall|i: int| 0 <= i < s.len() ==> #[trigger] s[i].ts <= clock
}

pub open spec fn seqs_below(s: Seq<Elem>, rid: u64, n: u64) -> bool {
    forall|i: int| 0 <= i < s.len() && (#[trigger] s[i].id).rid == rid ==> s[i].id.seq < n
}

pub open spec fn seqs_lt_max(s: Seq<Elem>) -> bool {
    forall|i: int| 0 <= i < s.len() ==> (#[trigger] s[i].id).seq < u64::MAX
}

/// Whether an existing element outranks an incoming insertion minted at
/// `(ts, rid)`: greater timestamp, or equal timestamp from a greater
/// replica.  Incoming runs are placed after every element that outranks
/// them, which orders concurrent insertions at one anchor the same way on
/// every replica.
pub open spec fn outranks(e: Elem, ts: u64, rid: u64) -> bool {
    e.ts > ts || (e.ts == ts && e.id.rid > rid)
}

/// How many leading elements of `s` outrank an insertion minted at
/// `(ts, rid)`.
pub open spec fn skip_count(s: Seq<Elem>, ts: u64, rid: u64) -> int
    decreases s.len(),
{
    if s.len() > 0 && outranks(s[0], ts, rid) {
        1 + skip_count(s.drop_first(), ts, rid)
    } else {
        0
    }
}

/// The `k`-th identity counter of a run starting at `base`.
pub open spec fn seq_at(base: u64, k: int) -> u64 {
    (base + k) as u64
}

/// The `k`-th character of `t`.
pub open spec fn ch_at(t: Seq<char>, k: int) -> char {
    t[k]
}

/// `e` with its visibility withdrawn.
pub open spec fn hide_elem(e: Elem) -> Elem {
    Elem { vis: false, ..e }
}

/// The run of elements an insertion contributes.
pub open spec fn run_elems(m: InsModel) -> Seq<Elem> {
    Seq::new(
        m.text.len(),
        |k: int| Elem { id: Id { rid: m.rid, seq: seq_at(m.seq, k) }, ts: m.ts, ch: ch_at(m.text, k), vis: true },
    )
}

/// The identities an insertion mints.
pub open spec fn run_ids(m: InsModel) -> Seq<Id> {
    Seq::new(m.text.len(), |k: int| Id { rid: m.rid, seq: seq_at(m.seq, k) })
}

/// An insertion whose identity arithmetic cannot wrap.
pub open spec fn ins_wf(m: InsModel) -> bool {
    m.seq + m.text.len() <= u64::MAX
}

pub open spec fn edit_wf(e: EditModel) -> bool {
    match e {
        EditModel::Ins(m) => ins_wf(m),
        EditModel::Del(_) => true,
    }
}

pub open spec fn hist_wf(h: Seq<EditModel>) -> bool {
    forall|i: int| 0 <= i < h.len() ==> edit_wf(#[trigger] h[i])
}

/// Where the scan for an insertion's position starts: just after the
/// element its anchor names, or at the front of the document.
pub open spec fn ins_start(s: Seq<Elem>, m: InsModel) -> int {
    match m.left {
        Option::None => 0,
        Option::Some(a) => idx_of_id(s, a) + 1,
    }
}

/// The element index an insertion's run is placed at.
pub open spec fn ins_pos(s: Seq<Elem>, m: InsModel) -> int {
    let st = ins_start(s, m);
    st + skip_count(s.subrange(st, s.len() as int), m.ts, m.rid)
}

/// Whether any identity of the insertion's run is already present.
pub open spec fn run_present(s: Seq<Elem>, m: InsModel) -> bool {
    exists|i: int|
        0 <= i < s.len() && (#[trigger] s[i]).id.rid == m.rid && m.seq <= s[i].id.seq < m.seq
            + m.text.len()
}

/// An insertion applies when its identity block is new and its anchor
/// resolves.  Otherwise integrating it leaves the elements unchanged: a
/// duplicate is dropped (idempotence), and so is an insertion whose
/// causally-prior edits have not been seen.
pub open spec fn ins_applicable(s: Seq<Elem>, m: InsModel) -> bool {
    &&& !run_present(s, m)
    &&& match m.left {
        Option::None => true,
        Option::Some(a) => contains_id(s, a),
    }
}

/// The anchor a local insertion at buffer offset `at` records: the identity
/// of the visible element just before the insertion point.
pub open spec fn left_of(s: Seq<Elem>, at: int) -> Option<Id> {
    if at == 0 {
        Option::None
    } else {
        Option::Some(nth_visible(s, at - 1).id)
    }
}

/// Integrating an insertion: splice its run in at [`ins_pos`], or leave the
/// sequence unchanged if it does not apply.
pub open spec fn apply_insertion(s: Seq<Elem>, m: InsModel) -> Seq<Elem> {
    if ins_applicable(s, m) {
        let p = ins_pos(s, m);
        s.subrange(0, p) + run_elems(m) + s.subrange(p, s.len() as int)
    } else {
        s
    }
}

/// An element after a deletion of `ids` has been integrated.
pub open spec fn mark_elem(e: Elem, ids: Seq<Id>) -> Elem {
    if ids.contains(e.id) {
        hide_elem(e)
    } else {
        e
    }
}

/// Integrating a deletion: the named identities become invisible; nothing
/// moves.
pub open spec fn mark_deleted(s: Seq<Elem>, ids: Seq<Id>) -> Seq<Elem> {
    Seq::new(s.len(), |i: int| mark_elem(s[i], ids))
}

/// A local deletion of visible positions `[a, b)`, stated positionally.
pub open spec fn mark_range(s: Seq<Elem>, a: int, b: int) -> Seq<Elem> {
    Seq::new(
        s.len(),
        |i: int| if s[i].vis && a <= vis_idx(s, i) < b {
            hide_elem(s[i])
        } else {
            s[i]
        },
    )
}

/// The identities of the visible elements at positions `[a, b)`, in order:
/// what a local deletion of that range names.
pub open spec fn range_ids(s: Seq<Elem>, a: int, b: int) -> Seq<Id> {
    Seq::new((b - a) as nat, |k: int| nth_visible(s, a + k).id)
}

pub open spec fn apply_edit(s: Seq<Elem>, e: EditModel) -> Seq<Elem> {
    match e {
        EditModel::Ins(m) => apply_insertion(s, m),
        EditModel::Del(ids) => mark_deleted(s, ids),
    }
}

/// Replaying a chronological sequence of edits, oldest first.
pub open spec fn apply_edits(s: Seq<Elem>, es: Seq<EditModel>) -> Seq<Elem>
    decreases es.len(),
{
    if es.len() == 0 {
        s
    } else {
        apply_edits(apply_edit(s, es[0]), es.drop_first())
    }
}

/// The next sequence number a replica with id `rid` can mint without
/// colliding with any identity already in `s`.
pub open spec fn next_seq_for(s: Seq<Elem>, rid: u64) -> u64
    decreases s.len(),
{
    if s.len() == 0 {
        0
    } else {
        let rest = next_seq_for(s.drop_last(), rid);
        if s.last().id.rid == rid && s.last().id.seq >= rest {
            (s.last().id.seq + 1) as u64
        } else {
            rest
        }
    }
}

/// The counter [`next_seq_for`] yields is ahead of every identity `rid`
/// already owns in `s`.
pub proof fn lemma_next_seq_for(s: Seq<Elem>, rid: u64)
    requires
        seqs_lt_max(s),
    ensures
        seqs_below(s, rid, next_seq_for(s, rid)),
    decreases s.len(),
{
    if s.len() > 0 {
        assert(seqs_lt_max(s.drop_last())) by {
            assert(forall|i: int| 0 <= i < s.len() - 1 ==> s.drop_last()[i] == s[i]);
        }
        lemma_next_seq_for(s.drop_last(), rid);
        let rest = next_seq_for(s.drop_last(), rid);
        assert(forall|i: int| 0 <= i < s.len() - 1 ==> s[i] == s.drop_last()[i]);
        if s.last().id.rid == rid && s.last().id.seq >= rest {
            assert(s.last().id.seq < u64::MAX);
        }
    }
}

/// The elements a fresh document is seeded with: every character of the
/// seed text already owned by the creating replica, at timestamp zero.
pub open spec fn seed_elems(text: Seq<char>, rid: u64) -> Seq<Elem> {
    Seq::new(
        text.len(),
        |k: int| Elem { id: Id { rid, seq: seq_at(0, k) }, ts: 0, ch: ch_at(text, k), vis: true },
    )
}

pub proof fn lemma_vis_chars_concat(a: Seq<Elem>, b: Seq<Elem>)
    ensures
        vis_chars(a + b) == vis_chars(a) + vis_chars(b),
    decreases a.len(),
{
    if a.len() == 0 {
        assert(a + b =~= b);
        assert(vis_chars(a) + vis_chars(b) =~= vis_chars(b));
    } else {
        lemma_vis_chars_concat(a.drop_first(), b);
        assert((a + b).drop_first() =~= a.drop_first() + b);
        assert((a + b)[0] == a[0]);
        assert(vis_chars(a + b) =~= vis_chars(a) + vis_chars(b));
    }
}

/// Splitting the element sequence splits its buffer.
pub proof fn lemma_vis_chars_split(s: Seq<Elem>, i: int)
    requires
        0 <= i <= s.len(),
    ensures
        vis_chars(s) == vis_chars(s.take(i)) + vis_chars(s.skip(i)),
{
    assert(s =~= s.take(i) + s.skip(i));
    lemma_vis_chars_concat(s.take(i), s.skip(i));
}

pub proof fn lemma_vis_chars_len(s: Seq<Elem>)
    ensures
        vis_chars(s).len() <= s.len(),
    decreases s.len(),
{
    if s.len() > 0 {
        lemma_vis_chars_len(s.drop_first());
    }
}

/// One step of the visible-offset count.
pub proof fn lemma_vis_idx_step(s: Seq<Elem>, i: int)
    requires
        0 <= i < s.len(),
    ensures
        vis_idx(s, i + 1) == vis_idx(s, i) + (if s[i].vis {
            1int
        } else {
            0int
        }),
{
    assert(s.take(i + 1) =~= s.take(i) + seq![s[i]]);
    lemma_vis_chars_concat(s.take(i), seq![s[i]]);
    lemma_vis_chars_single(s[i]);
}

proof fn lemma_vis_chars_single(e: Elem)
    ensures
        vis_chars(seq![e]) == (if e.vis {
            seq![e.ch]
        } else {
            Seq::<char>::empty()
        }),
{
    let s = seq![e];
    assert(s.drop_first() =~= Seq::<Elem>::empty());
    assert(vis_chars(Seq::<Elem>::empty()) =~= Seq::<char>::empty());
    if e.vis {
        assert(vis_chars(s) =~= seq![e.ch]);
    } else {
        assert(vis_chars(s) =~= Seq::<char>::empty());
    }
}

/// Peeling the first element off the visible-offset count.
pub proof fn lemma_vis_idx_cons(s: Seq<Elem>, i: int)
    requires
        1 <= i <= s.len(),
        s.len() > 0,
    ensures
        vis_idx(s, i) == (if s[0].vis {
            1int
        } else {
            0int
        }) + vis_idx(s.drop_first(), i - 1),
{
    assert(s.take(i) =~= seq![s[0]] + s.drop_first().take(i - 1));
    lemma_vis_chars_concat(seq![s[0]], s.drop_first().take(i - 1));
    lemma_vis_chars_single(s[0]);
}

/// A visible element materializes its character at its visible offset.
pub proof fn lemma_vis_at(s: Seq<Elem>, i: int)
    requires
        0 <= i < s.len(),
        s[i].vis,
    ensures
        0 <= vis_idx(s, i) < vis_chars(s).len(),
        vis_chars(s)[vis_idx(s, i)] == s[i].ch,
        nth_visible(s, vis_idx(s, i)) == s[i],
    decreases i,
{
    if i == 0 {
        assert(s.take(0) =~= Seq::<Elem>::empty());
    } else {
        lemma_vis_at(s.drop_first(), i - 1);
        lemma_vis_idx_cons(s, i);
    }
}

/// Every visible offset is materialized by some visible element.
pub proof fn lemma_nth_visible_exists(s: Seq<Elem>, k: int)
    requires
        0 <= k < vis_chars(s).len(),
    ensures
        exists|i: int|
            0 <= i < s.len() && (#[trigger] s[i]).vis && vis_idx(s, i) == k && s[i]
                == nth_visible(s, k),
    decreases s.len(),
{
    if s[0].vis && k == 0 {
        assert(s.take(0) =~= Seq::<Elem>::empty());
        assert(s[0].vis && vis_idx(s, 0) == 0 && s[0] == nth_visible(s, 0));
    } else {
        let k2: int = if s[0].vis {
            k - 1
        } else {
            k
        };
        lemma_nth_visible_exists(s.drop_first(), k2);
        let j = choose|j: int|
            0 <= j < s.drop_first().len() && (#[trigger] s.drop_first()[j]).vis && vis_idx(
                s.drop_first(),
                j,
            ) == k2 && s.drop_first()[j] == nth_visible(s.drop_first(), k2);
        lemma_vis_idx_cons(s, j + 1);
        assert(s[j + 1].vis && vis_idx(s, j + 1) == k && s[j + 1] == nth_visible(s, k));
    }
}

/// Where [`idx_of_id`] points: at the element with the identity when it is
/// present, one past the end when it is not.
pub proof fn lemma_idx_of_id(s: Seq<Elem>, id: Id)
    ensures
        contains_id(s, id) ==> 0 <= idx_of_id(s, id) < s.len() && s[idx_of_id(s, id)].id == id,
        !contains_id(s, id) ==> idx_of_id(s, id) == s.len(),
    decreases s.len(),
{
    if s.len() == 0 {
    } else if s[0].id == id {
    } else {
        lemma_idx_of_id(s.drop_first(), id);
        if contains_id(s, id) {
            let w = choose|i: int| 0 <= i < s.len() && s[i].id == id;
            assert(s.drop_first()[w - 1].id == id);
        } else {
            assert(forall|i: int|
                0 <= i < s.drop_first().len() ==> (#[trigger] s.drop_first()[i]).id != id) by {
                assert(forall|i: int|
                    0 <= i < s.drop_first().len() ==> s.drop_first()[i] == s[i + 1]);
            }
        }
    }
}

/// A run of entirely visible elements materializes exactly its characters.
pub proof fn lemma_vis_chars_all_visible(s: Seq<Elem>)
    requires
        forall|i: int| 0 <= i < s.len() ==> (#[trigger] s[i]).vis,
    ensures
        vis_chars(s) == Seq::new(s.len(), |i: int| s[i].ch),
    decreases s.len(),
{
    if s.len() == 0 {
        assert(vis_chars(s) =~= Seq::new(s.len(), |i: int| s[i].ch));
    } else {
        lemma_vis_chars_all_visible(s.drop_first());
        assert(vis_chars(s) =~= Seq::new(s.len(), |i: int| s[i].ch));
    }
}

pub proof fn lemma_skip_count_bounds(s: Seq<Elem>, ts: u64, rid: u64)
    ensures
        0 <= skip_count(s, ts, rid) <= s.len(),
    decreases s.len(),
{
    if s.len() > 0 && outranks(s[0], ts, rid) {
        lemma_skip_count_bounds(s.drop_first(), ts, rid);
    }
}

/// No element of `s` outranks `(ts, rid)`, so nothing is skipped.  This is
/// the case for every locally-minted insertion: its timestamp is ahead of
/// everything its replica has seen.
pub proof fn lemma_skip_count_zero(s: Seq<Elem>, ts: u64, rid: u64)
    requires
        forall|i: int| 0 <= i < s.len() ==> !outranks(#[trigger] s[i], ts, rid),
    ensures
        skip_count(s, ts, rid) == 0,
{
}

/// With distinct identities, [`idx_of_id`] recovers an element's index.
pub proof fn lemma_idx_of_id_at(s: Seq<Elem>, i: int)
    requires
        ids_distinct(s),
        0 <= i < s.len(),
    ensures
        idx_of_id(s, s[i].id) == i,
{
    lemma_idx_of_id(s, s[i].id);
    let j = idx_of_id(s, s[i].id);
    assert(contains_id(s, s[i].id));
    if i != j {
        assert(s[i].id != s[j].id);
    }
}

pub proof fn lemma_ins_pos_bounds(s: Seq<Elem>, m: InsModel)
    requires
        ins_applicable(s, m),
    ensures
        0 <= ins_pos(s, m) <= s.len(),
{
    let st = ins_start(s, m);
    match m.left {
        Option::None => {},
        Option::Some(a) => {
            lemma_idx_of_id(s, a);
        },
    }
    lemma_skip_count_bounds(s.subrange(st, s.len() as int), m.ts, m.rid);
}

/// A run of freshly minted elements materializes exactly its text.
pub proof fn lemma_run_elems_vis(m: InsModel)
    ensures
        vis_chars(run_elems(m)) == m.text,
{
    let run = run_elems(m);
    assert(forall|k: int| 0 <= k < run.len() ==> (#[trigger] run[k]).vis);
    lemma_vis_chars_all_visible(run);
    assert(vis_chars(run) =~= m.text);
}

/// What an applicable insertion does to the buffer: its text appears at the
/// visible offset of its position.
pub proof fn lemma_apply_insertion_vis(s: Seq<Elem>, m: InsModel)
    requires
        ins_applicable(s, m),
    ensures
        vis_chars(apply_insertion(s, m)) == vis_chars(s.take(ins_pos(s, m))) + m.text + vis_chars(
            s.skip(ins_pos(s, m)),
        ),
{
    lemma_ins_pos_bounds(s, m);
    let p = ins_pos(s, m);
    assert(s.subrange(0, p) =~= s.take(p));
    assert(s.subrange(p, s.len() as int) =~= s.skip(p));
    lemma_vis_chars_concat(s.take(p) + run_elems(m), s.skip(p));
    lemma_vis_chars_concat(s.take(p), run_elems(m));
    lemma_run_elems_vis(m);
    assert((s.take(p) + run_elems(m)) + s.skip(p) =~= s.subrange(0, p) + run_elems(m) + s.subrange(
        p,
        s.len() as int,
    ));
}

/// Integrating an applicable insertion preserves every well-formedness
/// bound, for a clock at or above the insertion's timestamp and a mint
/// counter at or past the end of its run.
pub proof fn lemma_apply_insertion_wf(s: Seq<Elem>, m: InsModel, clock: u64, rid: u64, next: u64)
    requires
        ids_distinct(s),
        seqs_lt_max(s),
        ts_bounded(s, clock),
        seqs_below(s, rid, next),
        ins_wf(m),
        m.ts <= clock,
        m.rid == rid ==> m.seq + m.text.len() <= next,
    ensures
        ids_distinct(apply_insertion(s, m)),
        seqs_lt_max(apply_insertion(s, m)),
        ts_bounded(apply_insertion(s, m), clock),
        seqs_below(apply_insertion(s, m), rid, next),
{
    if ins_applicable(s, m) {
        lemma_ins_pos_bounds(s, m);
        let p = ins_pos(s, m);
        let run = run_elems(m);
        let r = apply_insertion(s, m);
        assert(r =~= s.take(p) + run + s.skip(p)) by {
            assert(s.subrange(0, p) =~= s.take(p));
            assert(s.subrange(p, s.len() as int) =~= s.skip(p));
        }
        let n = s.len() as int;
        let l = run.len() as int;
        // Each element of the result is either an old element or a run element.
        assert(forall|i: int| 0 <= i < p ==> r[i] == s[i]);
        assert(forall|i: int| p <= i < p + l ==> r[i] == run[i - p]);
        assert(forall|i: int| p + l <= i < n + l ==> r[i] == s[i - l]);
        // Run identities never collide: fresh against s, distinct within.
        assert(forall|k: int| 0 <= k < l ==> (#[trigger] run[k]).id == Id {
            rid: m.rid,
            seq: seq_at(m.seq, k),
        });
        assert(forall|k: int, i: int|
            0 <= k < l && 0 <= i < n ==> (#[trigger] run[k]).id != (#[trigger] s[i]).id) by {
            assert(forall|k: int| 0 <= k < l ==> seq_at(m.seq, k) == m.seq + k);
            assert(!run_present(s, m));
        }
        assert(ids_distinct(r)) by {
            assert(forall|k: int| 0 <= k < l ==> seq_at(m.seq, k) == m.seq + k);
        }
        assert(seqs_lt_max(r)) by {
            assert(forall|k: int| 0 <= k < l ==> seq_at(m.seq, k) == m.seq + k);
        }
        assert(ts_bounded(r, clock));
        assert(seqs_below(r, rid, next)) by {
            assert(forall|k: int| 0 <= k < l ==> seq_at(m.seq, k) == m.seq + k);
        }
    }
}

pub proof fn lemma_vis_chars_push(x: Seq<Elem>, e: Elem)
    ensures
        vis_chars(x.push(e)) == vis_chars(x) + (if e.vis {
            seq![e.ch]
        } else {
            Seq::<char>::empty()
        }),
{
    assert(x.push(e) =~= x + seq![e]);
    lemma_vis_chars_concat(x, seq![e]);
    lemma_vis_chars_single(e);
}

/// A local deletion of the visible range `[a, b)` marks exactly the
/// identities [`range_ids`] names: the positional and the identity-based
/// statements of one deletion agree.
pub proof fn lemma_mark_range_eq(s: Seq<Elem>, a: int, b: int)
    requires
        ids_distinct(s),
        0 <= a <= b <= vis_chars(s).len(),
    ensures
        mark_range(s, a, b) == mark_deleted(s, range_ids(s, a, b)),
{
    let rids = range_ids(s, a, b);
    assert forall|i: int| 0 <= i < s.len() implies mark_range(s, a, b)[i] == mark_deleted(
        s,
        rids,
    )[i] by {
        if s[i].vis && a <= vis_idx(s, i) < b {
            lemma_vis_at(s, i);
            let k = vis_idx(s, i) - a;
            assert(rids[k] == nth_visible(s, a + k).id);
            assert(rids[k] == s[i].id);
            assert(rids.contains(s[i].id));
        } else {
            if rids.contains(s[i].id) {
                let k = choose|k: int| 0 <= k < rids.len() && rids[k] == s[i].id;
                lemma_nth_visible_exists(s, a + k);
                let j = choose|j: int|
                    0 <= j < s.len() && (#[trigger] s[j]).vis && vis_idx(s, j) == a + k && s[j]
                        == nth_visible(s, a + k);
                assert(s[j].id == s[i].id);
                assert(j == i);
                assert(false);
            }
        }
    }
    assert(mark_range(s, a, b) =~= mark_deleted(s, rids));
}

/// [`idx_of_id`] sees only identities, so it agrees on sequences whose
/// identities agree pointwise.
pub proof fn lemma_idx_of_id_same_ids(x: Seq<Elem>, y: Seq<Elem>, id: Id)
    requires
        x.len() == y.len(),
        forall|i: int| 0 <= i < x.len() ==> (#[trigger] x[i]).id == y[i].id,
    ensures
        idx_of_id(x, id) == idx_of_id(y, id),
    decreases x.len(),
{
    if x.len() > 0 && x[0].id != id {
        assert(forall|i: int|
            0 <= i < x.drop_first().len() ==> (#[trigger] x.drop_first()[i]).id
                == y.drop_first()[i].id) by {
            assert(forall|i: int| 0 <= i < x.len() - 1 ==> x.drop_first()[i] == x[i + 1]);
            assert(forall|i: int| 0 <= i < y.len() - 1 ==> y.drop_first()[i] == y[i + 1]);
        }
        lemma_idx_of_id_same_ids(x.drop_first(), y.drop_first(), id);
    }
}

/// [`skip_count`] sees only timestamps and replica ids, so it agrees on
/// sequences where those agree pointwise.
pub proof fn lemma_skip_count_same(x: Seq<Elem>, y: Seq<Elem>, ts: u64, rid: u64)
    requires
        x.len() == y.len(),
        forall|i: int| 0 <= i < x.len() ==> (#[trigger] x[i]).ts == y[i].ts && x[i].id.rid
            == y[i].id.rid,
    ensures
        skip_count(x, ts, rid) == skip_count(y, ts, rid),
    decreases x.len(),
{
    if x.len() > 0 {
        assert(outranks(x[0], ts, rid) == outranks(y[0], ts, rid));
        if outranks(x[0], ts, rid) {
            assert(forall|i: int|
                0 <= i < x.drop_first().len() ==> (#[trigger] x.drop_first()[i]).ts
                    == y.drop_first()[i].ts && x.drop_first()[i].id.rid
                    == y.drop_first()[i].id.rid) by {
                assert(forall|i: int| 0 <= i < x.len() - 1 ==> x.drop_first()[i] == x[i + 1]);
                assert(forall|i: int| 0 <= i < y.len() - 1 ==> y.drop_first()[i] == y[i + 1]);
            }
            lemma_skip_count_same(x.drop_first(), y.drop_first(), ts, rid);
        }
    }
}

/// Marking identities deleted moves nothing, changes no identity or
/// timestamp, and preserves every well-formedness bound.
pub proof fn lemma_mark_deleted_wf(s: Seq<Elem>, ids: Seq<Id>, clock: u64, rid: u64, next: u64)
    requires
        ids_distinct(s),
        seqs_lt_max(s),
        ts_bounded(s, clock),
        seqs_below(s, rid, next),
    ensures
        ids_distinct(mark_deleted(s, ids)),
        seqs_lt_max(mark_deleted(s, ids)),
        ts_bounded(mark_deleted(s, ids), clock),
        seqs_below(mark_deleted(s, ids), rid, next),
{
    let r = mark_deleted(s, ids);
    assert(forall|i: int| 0 <= i < s.len() ==> (#[trigger] r[i]).id == s[i].id && r[i].ts
        == s[i].ts);
}

/// The CRDT state owned by one editing session: the shared element
/// sequence, the session's replica id, its private mint counter, and its
/// logical clock.
#[derive(Debug)]
pub struct Replica {
    pub id: u64,
    pub next_seq: u64,
    pub clock: u64,
    pub elems: Vec<Elem>,
}

impl Replica {
    /// Identities are unique, timestamps never run ahead of the clock, and
    /// the mint counter is ahead of every identity this replica has minted,
    /// so the next mint collides with nothing.
    pub open spec fn wf(&self) -> bool {
        &&& ids_distinct(self.elems@)
        &&& ts_bounded(self.elems@, self.clock)
        &&& seqs_below(self.elems@, self.id, self.next_seq)
        &&& seqs_lt_max(self.elems@)
    }

    /// The replica id this session mints identities under.
    pub fn id(&self) -> (r: u64)
        ensures
            r == self.id,
    {
        self.id
    }
}

} // verus!
