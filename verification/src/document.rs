//! The replicated text document: a character buffer, the CRDT merge state
//! that keeps concurrent edits convergent, and an append-only edit history,
//! most recent first.
//!
//! The buffer always equals the merge state's materialized content
//! ([`Text::wf`]); every operation updates both together.  Local edits
//! return a self-contained [`Insertion`] or [`Deletion`] for distribution to
//! peers; remote edits are integrated with [`Text::integrate_insertion`],
//! [`Text::integrate_deletion`], or [`Text::replay`].

use vstd::prelude::*;
use vstd::string::StrSliceExecFns;
use vstd::string::StringExecFns;

use crate::crdt::EditModel;
use crate::crdt::Elem;
use crate::crdt::InsModel;
use crate::crdt::Replica;
use crate::crdt::apply_insertion;
use crate::crdt::ch_at;
use crate::crdt::hist_wf;
use crate::crdt::ids_distinct;
use crate::crdt::ins_applicable;
use crate::crdt::ins_pos;
use crate::crdt::ins_start;
use crate::crdt::ins_wf;
use crate::crdt::left_of;
use crate::crdt::lemma_apply_insertion_vis;
use crate::crdt::lemma_apply_insertion_wf;
use crate::crdt::lemma_idx_of_id_at;
use crate::crdt::lemma_skip_count_zero;
use crate::crdt::lemma_vis_at;
use crate::crdt::lemma_vis_chars_all_visible;
use crate::crdt::lemma_vis_chars_split;
use crate::crdt::lemma_vis_idx_step;
use crate::crdt::mark_deleted;
use crate::crdt::next_seq_for;
use crate::crdt::nth_visible;
use crate::crdt::range_ids;
use crate::crdt::run_elems;
use crate::crdt::run_present;
use crate::crdt::seed_elems;
use crate::crdt::seq_at;
use crate::crdt::seqs_below;
use crate::crdt::seqs_lt_max;
use crate::crdt::ts_bounded;
use crate::crdt::vis_chars;
use crate::crdt::vis_idx;
use crate::ident::Id;

verus! {

/// Why a local edit was refused.  A refused edit leaves the document
/// untouched.
#[derive(Clone, Copy, PartialEq, Eq, Structural, Debug)]
pub enum TextError {
    /// An offset or range end beyond the end of the buffer.
    OutOfRange,
    /// A range whose start lies after its end.
    InvalidRange,
}

/// The position anchor of an insertion: the identities it mints, the
/// timestamp they were minted at, and the identity of the element to the
/// left of the insertion point at creation time.
#[derive(Clone, Copy, Debug)]
pub struct InsertAnchor {
    pub rid: u64,
    pub seq: u64,
    pub ts: u64,
    pub left: Option<Id>,
}

/// A self-contained insertion: the inserted text plus its anchor.
/// Replaying it on any replica that has seen its causally-prior edits
/// reproduces the same effect, whatever concurrent edits arrived first.
#[derive(Debug)]
pub struct Insertion {
    pub text: String,
    pub crdt: InsertAnchor,
}

/// A self-contained deletion: the identities of the removed characters, so
/// every replica removes the same logical characters whatever has since
/// been inserted around them.
#[derive(Debug)]
pub struct Deletion {
    pub ids: Vec<Id>,
}

/// One entry of a document's history.
#[derive(Debug)]
pub enum Edit {
    Inserted(Insertion),
    Deleted(Deletion),
}

pub open spec fn ins_model(i: Insertion) -> InsModel {
    InsModel { rid: i.crdt.rid, seq: i.crdt.seq, ts: i.crdt.ts, left: i.crdt.left, text: i.text@ }
}

pub open spec fn edit_model(e: Edit) -> EditModel {
    match e {
        Edit::Inserted(i) => EditModel::Ins(ins_model(i)),
        Edit::Deleted(d) => EditModel::Del(d.ids@),
    }
}

pub open spec fn history_model(h: Seq<Edit>) -> Seq<EditModel> {
    h.map_values(|e: Edit| edit_model(e))
}

impl Clone for Insertion {
    fn clone(&self) -> (r: Self)
        ensures
            ins_model(r) == ins_model(*self),
    {
        Insertion { text: self.text.clone(), crdt: self.crdt }
    }
}

impl Clone for Deletion {
    fn clone(&self) -> (r: Self)
        ensures
            r.ids@ == self.ids@,
    {
        let mut ids: Vec<Id> = Vec::new();
        let mut i: usize = 0;
        while i < self.ids.len()
            invariant
                i <= self.ids.len(),
                ids@ == self.ids@.take(i as int),
            decreases self.ids.len() - i,
        {
            ids.push(self.ids[i]);
            i += 1;
        }
        assert(ids@ =~= self.ids@);
        Deletion { ids }
    }
}

impl Clone for Edit {
    fn clone(&self) -> (r: Self)
        ensures
            edit_model(r) == edit_model(*self),
    {
        match self {
            Edit::Inserted(i) => Edit::Inserted(i.clone()),
            Edit::Deleted(d) => Edit::Deleted(d.clone()),
        }
    }
}

/// The mathematical content of a document.
#[verifier::ext_equal]
pub struct TextModel {
    pub buffer: Seq<char>,
    pub elems: Seq<Elem>,
    pub rid: u64,
    pub next_seq: u64,
    pub clock: u64,
    pub history: Seq<EditModel>,
}

impl TextModel {
    pub open spec fn wf(self) -> bool {
        &&& ids_distinct(self.elems)
        &&& ts_bounded(self.elems, self.clock)
        &&& seqs_below(self.elems, self.rid, self.next_seq)
        &&& seqs_lt_max(self.elems)
        &&& self.buffer == vis_chars(self.elems)
        &&& hist_wf(self.history)
    }
}

/// The model of a document after a local insertion of `text` at buffer
/// offset `at`.
pub open spec fn local_ins(m0: TextModel, at: int, text: Seq<char>) -> InsModel {
    InsModel {
        rid: m0.rid,
        seq: m0.next_seq,
        ts: (m0.clock + 1) as u64,
        left: left_of(m0.elems, at),
        text,
    }
}

/// The model of a document after a local deletion of the buffer range
/// `[a, b)`.
pub open spec fn deleted_model(m0: TextModel, a: int, b: int) -> TextModel {
    TextModel {
        buffer: m0.buffer.subrange(0, a) + m0.buffer.subrange(b, m0.buffer.len() as int),
        elems: mark_deleted(m0.elems, range_ids(m0.elems, a, b)),
        rid: m0.rid,
        next_seq: m0.next_seq,
        clock: m0.clock,
        history: seq![EditModel::Del(range_ids(m0.elems, a, b))] + m0.history,
    }
}

pub open spec fn inserted_model(m0: TextModel, at: int, text: Seq<char>) -> TextModel {
    let m = local_ins(m0, at, text);
    TextModel {
        buffer: m0.buffer.subrange(0, at) + text + m0.buffer.subrange(at, m0.buffer.len() as int),
        elems: apply_insertion(m0.elems, m),
        rid: m0.rid,
        next_seq: (m0.next_seq + text.len()) as u64,
        clock: (m0.clock + 1) as u64,
        history: seq![EditModel::Ins(m)] + m0.history,
    }
}

/// The index of the element holding the `k`-th visible character.
fn nth_visible_index(elems: &Vec<Elem>, k: usize) -> (r: usize)
    requires
        k < vis_chars(elems@).len(),
    ensures
        r < elems@.len(),
        elems@[r as int].vis,
        vis_idx(elems@, r as int) == k,
{
    let ghost s = elems@;
    let n = elems.len();
    let mut i: usize = 0;
    let mut v: usize = 0;
    assert(s.take(0) =~= Seq::<Elem>::empty());
    loop
        invariant
            i <= s.len(),
            n == s.len(),
            s == elems@,
            k < vis_chars(s).len(),
            v == vis_idx(s, i as int),
            v <= k,
        ensures
            i < s.len(),
            s[i as int].vis,
            vis_idx(s, i as int) == k,
        decreases s.len() - i,
    {
        proof {
            if i == s.len() {
                assert(s.take(i as int) =~= s);
                assert(false);
            }
        }
        let e = elems[i];
        if e.vis && v == k {
            break ;
        }
        proof {
            lemma_vis_idx_step(s, i as int);
        }
        if e.vis {
            v += 1;
        }
        i += 1;
    }
    i
}

/// Replace the characters `[from, to)` of `s` with `ins`.
fn splice_str(s: &str, from: usize, to: usize, ins: &str) -> (r: String)
    requires
        from <= to <= s@.len(),
    ensures
        r@ == s@.subrange(0, from as int) + ins@ + s@.subrange(to as int, s@.len() as int),
{
    let n = s.unicode_len();
    let pre = s.substring_char(0, from);
    let post = s.substring_char(to, n);
    let mut r = pre.to_owned();
    r.append(ins);
    r.append(post);
    r
}

/// Insert the elements of `mid` at element index `pos`.
fn splice_elems(elems: &Vec<Elem>, pos: usize, mid: &Vec<Elem>) -> (r: Vec<Elem>)
    requires
        pos <= elems@.len(),
    ensures
        r@ == elems@.subrange(0, pos as int) + mid@ + elems@.subrange(
            pos as int,
            elems@.len() as int,
        ),
{
    let mut r: Vec<Elem> = Vec::new();
    let mut i: usize = 0;
    while i < pos
        invariant
            i <= pos <= elems@.len(),
            r@.len() == i,
            forall|j: int| 0 <= j < i ==> r@[j] == elems@[j],
        decreases pos - i,
    {
        r.push(elems[i]);
        i += 1;
    }
    let mut j: usize = 0;
    while j < mid.len()
        invariant
            pos <= elems@.len(),
            j <= mid@.len(),
            r@.len() == pos + j,
            forall|q: int| 0 <= q < pos ==> r@[q] == elems@[q],
            forall|q: int| pos <= q < pos + j ==> r@[q] == mid@[q - pos],
        decreases mid@.len() - j,
    {
        r.push(mid[j]);
        j += 1;
    }
    let mut i2: usize = pos;
    while i2 < elems.len()
        invariant
            pos <= i2 <= elems@.len(),
            r@.len() == mid@.len() + i2,
            forall|q: int| 0 <= q < pos ==> r@[q] == elems@[q],
            forall|q: int| pos <= q < pos + mid@.len() ==> r@[q] == mid@[q - pos],
            forall|q: int|
                pos + mid@.len() <= q < mid@.len() + i2 ==> r@[q] == elems@[q - mid@.len()],
        decreases elems@.len() - i2,
    {
        r.push(elems[i2]);
        i2 += 1;
    }
    assert(r@ =~= elems@.subrange(0, pos as int) + mid@ + elems@.subrange(
        pos as int,
        elems@.len() as int,
    ));
    r
}

/// The run of elements an insertion of `text` under `(rid, seq0 ..)` at
/// timestamp `ts` contributes.
fn run_vec(rid: u64, seq0: u64, ts: u64, text: &str) -> (r: Vec<Elem>)
    requires
        seq0 + text@.len() <= u64::MAX,
    ensures
        r@.len() == text@.len(),
        forall|k: int|
            0 <= k < text@.len() ==> r@[k] == (Elem {
                id: Id { rid, seq: seq_at(seq0, k) },
                ts,
                ch: ch_at(text@, k),
                vis: true,
            }),
{
    let len = text.unicode_len();
    let mut r: Vec<Elem> = Vec::new();
    let mut k: usize = 0;
    while k < len
        invariant
            k <= len,
            len == text@.len(),
            seq0 + text@.len() <= u64::MAX,
            r@.len() == k,
            forall|q: int|
                0 <= q < k ==> r@[q] == (Elem {
                    id: Id { rid, seq: seq_at(seq0, q) },
                    ts,
                    ch: ch_at(text@, q),
                    vis: true,
                }),
        decreases len - k,
    {
        let c = text.get_char(k);
        r.push(Elem { id: Id { rid, seq: seq0 + k as u64 }, ts, ch: c, vis: true });
        proof {
            assert(seq_at(seq0, k as int) == seq0 + k as u64);
            assert(ch_at(text@, k as int) == c);
        }
        k += 1;
    }
    r
}

/// The model of a document after a remote insertion has been integrated.
/// The clock catches up with the insertion's timestamp, and the mint
/// counter jumps past any identities the insertion minted under this
/// replica's own id, so an echoed edit can never cause a collision.
pub open spec fn integrated_ins_model(m0: TextModel, m: InsModel) -> TextModel {
    TextModel {
        buffer: vis_chars(apply_insertion(m0.elems, m)),
        elems: apply_insertion(m0.elems, m),
        rid: m0.rid,
        next_seq: if m.rid == m0.rid && m.seq + m.text.len() > m0.next_seq {
            (m.seq + m.text.len()) as u64
        } else {
            m0.next_seq
        },
        clock: if m.ts > m0.clock {
            m.ts
        } else {
            m0.clock
        },
        history: seq![EditModel::Ins(m)] + m0.history,
    }
}

/// The model of a document after a remote deletion has been integrated.
pub open spec fn integrated_del_model(m0: TextModel, ids: Seq<Id>) -> TextModel {
    TextModel {
        buffer: vis_chars(mark_deleted(m0.elems, ids)),
        elems: mark_deleted(m0.elems, ids),
        rid: m0.rid,
        next_seq: m0.next_seq,
        clock: m0.clock,
        history: seq![EditModel::Del(ids)] + m0.history,
    }
}

/// The model of a document after one history entry has been replayed.
pub open spec fn replayed_model(m0: TextModel, e: EditModel) -> TextModel {
    match e {
        EditModel::Ins(m) => integrated_ins_model(m0, m),
        EditModel::Del(ids) => integrated_del_model(m0, ids),
    }
}

/// The index of the element with the given identity, if present.
fn find_id(elems: &Vec<Elem>, id: Id) -> (r: Option<usize>)
    ensures
        match r {
            Option::Some(i) => i < elems@.len() && elems@[i as int].id == id,
            Option::None => !crate::crdt::contains_id(elems@, id),
        },
{
    let n = elems.len();
    let mut i: usize = 0;
    while i < n
        invariant
            i <= n,
            n == elems@.len(),
            forall|q: int| 0 <= q < i ==> (#[trigger] elems@[q]).id != id,
        decreases n - i,
    {
        if elems[i].id == id {
            return Option::Some(i);
        }
        i += 1;
    }
    Option::None
}

/// Whether any identity of the run `(rid, seq0) .. (rid, end_seq)` is
/// already present.
fn run_overlaps(elems: &Vec<Elem>, rid: u64, seq0: u64, end_seq: u64) -> (r: bool)
    ensures
        r == exists|i: int|
            0 <= i < elems@.len() && ((#[trigger] elems@[i]).id.rid == rid && seq0
                <= elems@[i].id.seq < end_seq),
{
    let n = elems.len();
    let mut i: usize = 0;
    while i < n
        invariant
            i <= n,
            n == elems@.len(),
            forall|q: int|
                0 <= q < i ==> !((#[trigger] elems@[q]).id.rid == rid && seq0 <= elems@[q].id.seq
                    < end_seq),
        decreases n - i,
    {
        let e = elems[i];
        if e.id.rid == rid && e.id.seq >= seq0 && e.id.seq < end_seq {
            return true;
        }
        i += 1;
    }
    false
}

/// How many of the first `pos` elements are visible: the buffer offset the
/// element position `pos` corresponds to.
fn vis_count_prefix(elems: &Vec<Elem>, pos: usize) -> (r: usize)
    requires
        pos <= elems@.len(),
    ensures
        r == vis_idx(elems@, pos as int),
{
    let ghost s = elems@;
    let mut i: usize = 0;
    let mut v: usize = 0;
    assert(s.take(0) =~= Seq::<Elem>::empty());
    while i < pos
        invariant
            i <= pos <= s.len(),
            s == elems@,
            v <= i,
            v == vis_idx(s, i as int),
        decreases pos - i,
    {
        proof {
            lemma_vis_idx_step(s, i as int);
        }
        if elems[i].vis {
            v += 1;
        }
        i += 1;
    }
    v
}

/// Whether `ids` names `id`.
fn ids_contain(ids: &Vec<Id>, id: Id) -> (r: bool)
    ensures
        r == ids@.contains(id),
{
    let n = ids.len();
    let mut i: usize = 0;
    while i < n
        invariant
            i <= n,
            n == ids@.len(),
            forall|q: int| 0 <= q < i ==> ids@[q] != id,
        decreases n - i,
    {
        if ids[i] == id {
            return true;
        }
        i += 1;
    }
    false
}

/// Text content that can be edited by several replicas at once and
/// synchronized between them.
#[derive(Debug)]
pub struct Text {
    pub buffer: String,
    pub crdt: Replica,
    pub history: Vec<Edit>,
}

impl View for Text {
    type V = TextModel;

    open spec fn view(&self) -> TextModel {
        TextModel {
            buffer: self.buffer@,
            elems: self.crdt.elems@,
            rid: self.crdt.id,
            next_seq: self.crdt.next_seq,
            clock: self.crdt.clock,
            history: history_model(self.history@),
        }
    }
}

impl Text {
    /// The buffer equals the merge state's materialized content, and the
    /// merge state can mint fresh identities.
    pub open spec fn wf(&self) -> bool {
        self@.wf()
    }

    /// A fresh document: the seed text already owned by `replica_id`, an
    /// empty history.
    pub fn new(text: &str, replica_id: u64) -> (r: Text)
        ensures
            r.wf(),
            r@.buffer == text@,
            r@.elems == seed_elems(text@, replica_id),
            r@.rid == replica_id,
            r@.next_seq == text@.len(),
            r@.clock == 0,
            r@.history == Seq::<EditModel>::empty(),
    {
        let len = text.unicode_len();
        let ghost seed = seed_elems(text@, replica_id);
        let mut elems: Vec<Elem> = Vec::new();
        let mut i: usize = 0;
        while i < len
            invariant
                i <= len,
                len == text@.len(),
                elems@.len() == i,
                forall|k: int| 0 <= k < i ==> elems@[k] == seed_elems(text@, replica_id)[k],
            decreases len - i,
        {
            let c = text.get_char(i);
            elems.push(Elem { id: Id { rid: replica_id, seq: i as u64 }, ts: 0, ch: c, vis: true });
            proof {
                assert(crate::crdt::seq_at(0, i as int) == i as u64);
                assert(seed_elems(text@, replica_id)[i as int] == Elem {
                    id: Id { rid: replica_id, seq: i as u64 },
                    ts: 0,
                    ch: text@[i as int],
                    vis: true,
                });
            }
            i += 1;
        }
        assert(elems@ =~= seed);
        proof {
            assert forall|k: int| 0 <= k < seed.len() implies (#[trigger] seed[k]).vis by {
                assert(seed[k] == Elem {
                    id: Id { rid: replica_id, seq: crate::crdt::seq_at(0, k) },
                    ts: 0,
                    ch: text@[k],
                    vis: true,
                });
            }
            lemma_vis_chars_all_visible(seed);
            assert(vis_chars(seed) =~= text@);
        }
        let buffer = text.to_owned();
        Text {
            buffer,
            crdt: Replica { id: replica_id, next_seq: len as u64, clock: 0, elems },
            history: Vec::new(),
        }
    }

    /// Insert `text` at buffer offset `insert_at`, minting one identity
    /// block for it, and return the [`Insertion`] for distribution to
    /// peers.  An offset beyond the end of the buffer is refused with
    /// [`TextError::OutOfRange`] and changes nothing.
    pub fn insert(&mut self, insert_at: usize, text: &str) -> (r: Result<Insertion, TextError>)
        requires
            old(self).wf(),
            old(self)@.next_seq + text@.len() <= u64::MAX,
            old(self)@.clock < u64::MAX,
        ensures
            final(self).wf(),
            insert_at > old(self)@.buffer.len() ==> r == Err::<Insertion, TextError>(
                TextError::OutOfRange,
            ) && final(self)@ == old(self)@,
            insert_at <= old(self)@.buffer.len() ==> ({
                &&& (r matches Ok(ins) && ins_model(ins) == local_ins(
                    old(self)@,
                    insert_at as int,
                    text@,
                ))
                &&& final(self)@ == inserted_model(old(self)@, insert_at as int, text@)
            }),
    {
        let ghost m0 = self@;
        let ghost s = self.crdt.elems@;
        let buf_len = self.buffer.as_str().unicode_len();
        if insert_at > buf_len {
            return Err(TextError::OutOfRange);
        }
        let ts = self.crdt.clock + 1;
        let seq0 = self.crdt.next_seq;
        let rid = self.crdt.id;
        let ghost m = local_ins(m0, insert_at as int, text@);
        let mut pos: usize = 0;
        let mut left: Option<Id> = Option::None;
        if insert_at > 0 {
            let i = nth_visible_index(&self.crdt.elems, insert_at - 1);
            assert(i < self.crdt.elems.len());
            pos = i + 1;
            left = Option::Some(self.crdt.elems[i].id);
            proof {
                lemma_vis_at(s, i as int);
                lemma_idx_of_id_at(s, i as int);
                lemma_vis_idx_step(s, i as int);
                assert(m.left == left);
                assert(ins_start(s, m) == pos as int);
                assert(vis_idx(s, pos as int) == insert_at as int);
            }
        } else {
            proof {
                assert(s.take(0) =~= Seq::<Elem>::empty());
                assert(m.left == left);
                assert(ins_start(s, m) == 0);
                assert(vis_idx(s, 0) == 0);
            }
        }
        proof {
            assert(!run_present(s, m));
            assert(ins_applicable(s, m));
            let suf = s.subrange(pos as int, s.len() as int);
            assert forall|q: int| 0 <= q < suf.len() implies !crate::crdt::outranks(
                #[trigger] suf[q],
                m.ts,
                m.rid,
            ) by {
                assert(suf[q] == s[pos + q]);
                assert(s[pos + q].ts <= m0.clock);
            }
            lemma_skip_count_zero(suf, m.ts, m.rid);
            assert(ins_pos(s, m) == pos as int);
        }
        let run = run_vec(rid, seq0, ts, text);
        proof {
            assert(run@ =~= run_elems(m));
        }
        let new_elems = splice_elems(&self.crdt.elems, pos, &run);
        let new_buffer = splice_str(self.buffer.as_str(), insert_at, insert_at, text);
        let text_len = text.unicode_len();
        self.buffer = new_buffer;
        self.crdt.elems = new_elems;
        self.crdt.next_seq = seq0 + text_len as u64;
        self.crdt.clock = ts;
        let anchor = InsertAnchor { rid, seq: seq0, ts, left };
        self.history.insert(0, Edit::Inserted(Insertion { text: text.to_owned(), crdt: anchor }));
        let ret = Insertion { text: text.to_owned(), crdt: anchor };
        proof {
            assert(self.crdt.elems@ == apply_insertion(s, m));
            lemma_apply_insertion_wf(s, m, ts, rid, self.crdt.next_seq);
            lemma_apply_insertion_vis(s, m);
            lemma_vis_chars_split(s, pos as int);
            let pre = vis_chars(s.take(pos as int));
            let suf = vis_chars(s.skip(pos as int));
            assert(pre.len() == insert_at as int);
            assert(m0.buffer == pre + suf);
            assert(m0.buffer.subrange(0, insert_at as int) =~= pre);
            assert(m0.buffer.subrange(insert_at as int, m0.buffer.len() as int) =~= suf);
            assert(self.buffer@ == vis_chars(self.crdt.elems@));
            assert(history_model(self.history@) =~= seq![EditModel::Ins(m)] + m0.history);
            assert(ins_model(ret) == m);
            assert(self@ =~= inserted_model(m0, insert_at as int, text@));
        }
        Ok(ret)
    }

    /// Remove the buffer range `range`, marking the removed characters'
    /// identities deleted, and return the [`Deletion`] for distribution to
    /// peers.  An inverted range is refused with
    /// [`TextError::InvalidRange`], one ending beyond the buffer with
    /// [`TextError::OutOfRange`]; either refusal changes nothing.
    pub fn delete(&mut self, range: core::ops::Range<usize>) -> (r: Result<Deletion, TextError>)
        requires
            old(self).wf(),
        ensures
            final(self).wf(),
            range.start > range.end ==> r == Err::<Deletion, TextError>(TextError::InvalidRange)
                && final(self)@ == old(self)@,
            range.start <= range.end && range.end > old(self)@.buffer.len() ==> r == Err::<
                Deletion,
                TextError,
            >(TextError::OutOfRange) && final(self)@ == old(self)@,
            range.start <= range.end <= old(self)@.buffer.len() ==> ({
                &&& (r matches Ok(d) && d.ids@ == range_ids(
                    old(self)@.elems,
                    range.start as int,
                    range.end as int,
                ))
                &&& final(self)@ == deleted_model(
                    old(self)@,
                    range.start as int,
                    range.end as int,
                )
            }),
    {
        let a = range.start;
        let b = range.end;
        if a > b {
            return Err(TextError::InvalidRange);
        }
        let buf_len = self.buffer.as_str().unicode_len();
        if b > buf_len {
            return Err(TextError::OutOfRange);
        }
        let ghost m0 = self@;
        let ghost s = self.crdt.elems@;
        let ghost vc = vis_chars(s);
        let n = self.crdt.elems.len();
        let mut new_elems: Vec<Elem> = Vec::new();
        let mut ids: Vec<Id> = Vec::new();
        let mut i: usize = 0;
        let mut v: usize = 0;
        proof {
            assert(s.take(0) =~= Seq::<Elem>::empty());
            assert(vc.subrange(0, 0) =~= Seq::<char>::empty());
            assert(range_ids(s, a as int, a as int) =~= Seq::<Id>::empty());
            crate::crdt::lemma_vis_chars_len(s);
        }
        while i < n
            invariant
                i <= n,
                n == s.len(),
                vc.len() <= n,
                s == self.crdt.elems@,
                a <= b <= vc.len(),
                vc == vis_chars(s),
                ids_distinct(s),
                v == vis_idx(s, i as int),
                v <= vc.len(),
                new_elems@.len() == i,
                forall|q: int| 0 <= q < i ==> new_elems@[q] == crate::crdt::mark_range(
                    s,
                    a as int,
                    b as int,
                )[q],
                vis_chars(new_elems@) == vc.subrange(
                    0,
                    if v < a {
                        v as int
                    } else {
                        a as int
                    },
                ) + (if v > b {
                    vc.subrange(b as int, v as int)
                } else {
                    Seq::<char>::empty()
                }),
                ids@ == range_ids(
                    s,
                    a as int,
                    if v < a {
                        a as int
                    } else if v < b {
                        v as int
                    } else {
                        b as int
                    },
                ),
            decreases n - i,
        {
            let e = self.crdt.elems[i];
            let ghost old_new = new_elems@;
            let ghost old_ids = ids@;
            if e.vis {
                proof {
                    lemma_vis_at(s, i as int);
                }
                if a <= v && v < b {
                    new_elems.push(Elem { id: e.id, ts: e.ts, ch: e.ch, vis: false });
                    ids.push(e.id);
                    proof {
                        assert(range_ids(s, a as int, v + 1) =~= range_ids(s, a as int, v as int)
                            .push(nth_visible(s, v as int).id));
                    }
                } else {
                    new_elems.push(e);
                    proof {
                        if v < a {
                            assert(vc.subrange(0, v + 1) =~= vc.subrange(0, v as int).push(
                                vc[v as int],
                            ));
                        } else {
                            assert(vc.subrange(b as int, v + 1) =~= (if v > b {
                                vc.subrange(b as int, v as int)
                            } else {
                                Seq::<char>::empty()
                            }).push(vc[v as int]));
                        }
                    }
                }
                proof {
                    crate::crdt::lemma_vis_chars_push(old_new, new_elems@.last());
                    lemma_vis_idx_step(s, i as int);
                }
                v += 1;
            } else {
                new_elems.push(e);
                proof {
                    crate::crdt::lemma_vis_chars_push(old_new, e);
                    lemma_vis_idx_step(s, i as int);
                }
            }
            proof {
                assert(new_elems@[i as int] == crate::crdt::mark_range(s, a as int, b as int)[
                    i as int
                ]);
            }
            i += 1;
        }
        proof {
            assert(s.take(n as int) =~= s);
            assert(v == vc.len());
            assert(new_elems@ =~= crate::crdt::mark_range(s, a as int, b as int));
            crate::crdt::lemma_mark_range_eq(s, a as int, b as int);
        }
        let new_buffer = splice_str(self.buffer.as_str(), a, b, "");
        self.buffer = new_buffer;
        self.crdt.elems = new_elems;
        let d = Deletion { ids };
        self.history.insert(0, Edit::Deleted(d.clone()));
        proof {
            reveal_strlit("");
            assert(""@ =~= Seq::<char>::empty());
            let rids = range_ids(s, a as int, b as int);
            crate::crdt::lemma_mark_deleted_wf(s, rids, m0.clock, m0.rid, m0.next_seq);
            assert(self.buffer@ =~= vis_chars(self.crdt.elems@)) by {
                assert(self.buffer@ =~= vc.subrange(0, a as int) + vc.subrange(
                    b as int,
                    vc.len() as int,
                ));
            }
            assert(history_model(self.history@) =~= seq![EditModel::Del(rids)] + m0.history);
            assert(self@ =~= deleted_model(m0, a as int, b as int));
        }
        Ok(d)
    }

    /// Integrate an insertion produced on another replica: resolve its
    /// anchor to the buffer offset it belongs at *now* and insert its text
    /// there.  A duplicate, or an insertion whose anchor has not been seen,
    /// changes the buffer by nothing; either way the edit is appended to
    /// the history and the clock catches up.
    pub fn integrate_insertion(&mut self, insertion: Insertion)
        requires
            old(self).wf(),
            ins_wf(ins_model(insertion)),
        ensures
            final(self).wf(),
            final(self)@ == integrated_ins_model(old(self)@, ins_model(insertion)),
    {
        let ghost m0 = self@;
        let ghost s = self.crdt.elems@;
        let ghost m = ins_model(insertion);
        let rid = insertion.crdt.rid;
        let seq0 = insertion.crdt.seq;
        let ts = insertion.crdt.ts;
        let text_len = insertion.text.as_str().unicode_len();
        let end_seq = seq0 + text_len as u64;
        if ts > self.crdt.clock {
            self.crdt.clock = ts;
        }
        if rid == self.crdt.id && end_seq > self.crdt.next_seq {
            self.crdt.next_seq = end_seq;
        }
        let present = run_overlaps(&self.crdt.elems, rid, seq0, end_seq);
        proof {
            assert(present == run_present(s, m));
        }
        let anchor_idx: Option<usize> = match insertion.crdt.left {
            Option::None => Option::None,
            Option::Some(aid) => find_id(&self.crdt.elems, aid),
        };
        let applicable = !present && (match (insertion.crdt.left, anchor_idx) {
            (Option::Some(_), Option::None) => false,
            _ => true,
        });
        if !applicable {
            proof {
                if insertion.crdt.left is Some && anchor_idx is None {
                    assert(!ins_applicable(s, m));
                }
                assert(!ins_applicable(s, m));
                assert(apply_insertion(s, m) == s);
            }
            self.history.insert(0, Edit::Inserted(insertion));
            proof {
                assert(history_model(self.history@) =~= seq![EditModel::Ins(m)] + m0.history);
                assert(self@ =~= integrated_ins_model(m0, m));
            }
            return ;
        }
        let start: usize = match anchor_idx {
            Option::None => 0,
            Option::Some(i) => {
                assert(i < self.crdt.elems.len());
                i + 1
            },
        };
        proof {
            assert(ins_applicable(s, m)) by {
                if m.left is Some {
                    let i = anchor_idx.unwrap();
                    assert(s[i as int].id == m.left.unwrap());
                    assert(crate::crdt::contains_id(s, m.left.unwrap()));
                }
            }
            match anchor_idx {
                Option::None => {
                    assert(ins_start(s, m) == 0);
                },
                Option::Some(i) => {
                    lemma_idx_of_id_at(s, i as int);
                    assert(ins_start(s, m) == i + 1);
                },
            }
        }
        let n = self.crdt.elems.len();
        let mut pos: usize = start;
        loop
            invariant
                start <= pos <= n,
                n == s.len(),
                s == self.crdt.elems@,
                ts == m.ts,
                rid == m.rid,
                start == ins_start(s, m),
                crate::crdt::skip_count(s.subrange(start as int, n as int), m.ts, m.rid) == (pos
                    - start) + crate::crdt::skip_count(
                    s.subrange(pos as int, n as int),
                    m.ts,
                    m.rid,
                ),
            ensures
                start <= pos <= n,
                crate::crdt::skip_count(s.subrange(start as int, n as int), m.ts, m.rid) == pos
                    - start,
            decreases n - pos,
        {
            let ghost cur = s.subrange(pos as int, n as int);
            if pos == n {
                proof {
                    assert(cur.len() == 0);
                }
                break ;
            }
            let e = self.crdt.elems[pos];
            proof {
                assert(cur[0] == s[pos as int]);
            }
            if !(e.ts > ts || (e.ts == ts && e.id.rid > rid)) {
                proof {
                    assert(!crate::crdt::outranks(cur[0], m.ts, m.rid));
                    assert(crate::crdt::skip_count(cur, m.ts, m.rid) == 0);
                }
                break ;
            }
            proof {
                assert(cur.drop_first() =~= s.subrange(pos + 1, n as int));
            }
            pos += 1;
        }
        proof {
            assert(ins_pos(s, m) == pos as int);
        }
        let v = vis_count_prefix(&self.crdt.elems, pos);
        proof {
            lemma_vis_chars_split(s, pos as int);
            crate::crdt::lemma_vis_chars_len(s);
            assert(v <= vis_chars(s).len());
        }
        let run = run_vec(rid, seq0, ts, insertion.text.as_str());
        proof {
            assert(run@ =~= run_elems(m));
        }
        let new_elems = splice_elems(&self.crdt.elems, pos, &run);
        let new_buffer = splice_str(self.buffer.as_str(), v, v, insertion.text.as_str());
        self.buffer = new_buffer;
        self.crdt.elems = new_elems;
        self.history.insert(0, Edit::Inserted(insertion));
        proof {
            assert(self.crdt.elems@ == apply_insertion(s, m));
            lemma_apply_insertion_wf(s, m, self.crdt.clock, m0.rid, self.crdt.next_seq);
            lemma_apply_insertion_vis(s, m);
            let pre = vis_chars(s.take(pos as int));
            let suf = vis_chars(s.skip(pos as int));
            assert(pre.len() == v as int);
            assert(m0.buffer == pre + suf);
            assert(m0.buffer.subrange(0, v as int) =~= pre);
            assert(m0.buffer.subrange(v as int, m0.buffer.len() as int) =~= suf);
            assert(self.buffer@ == vis_chars(self.crdt.elems@));
            assert(history_model(self.history@) =~= seq![EditModel::Ins(m)] + m0.history);
            assert(self@ =~= integrated_ins_model(m0, m));
        }
    }

    /// Integrate a deletion produced on another replica: every identity it
    /// names that is still visible disappears from the buffer, wherever
    /// concurrent insertions have shifted it.  Identities already deleted
    /// or never seen change nothing, so integrating the same deletion
    /// twice equals integrating it once.
    pub fn integrate_deletion(&mut self, deletion: Deletion)
        requires
            old(self).wf(),
        ensures
            final(self).wf(),
            final(self)@ == integrated_del_model(old(self)@, deletion.ids@),
    {
        let ghost m0 = self@;
        let ghost s = self.crdt.elems@;
        let ghost dids = deletion.ids@;
        let n = self.crdt.elems.len();
        let mut new_elems: Vec<Elem> = Vec::new();
        let mut new_buffer = String::new();
        let mut i: usize = 0;
        let mut v: usize = 0;
        proof {
            assert(s.take(0) =~= Seq::<Elem>::empty());
            crate::crdt::lemma_vis_chars_len(s);
        }
        while i < n
            invariant
                i <= n,
                n == s.len(),
                s == self.crdt.elems@,
                dids == deletion.ids@,
                self.buffer@ == vis_chars(s),
                vis_chars(s).len() <= n,
                v == vis_idx(s, i as int),
                v <= vis_chars(s).len(),
                new_elems@.len() == i,
                forall|q: int| 0 <= q < i ==> new_elems@[q] == mark_deleted(s, dids)[q],
                new_buffer@ == vis_chars(new_elems@),
            decreases n - i,
        {
            let e = self.crdt.elems[i];
            let ghost old_new = new_elems@;
            if e.vis {
                proof {
                    lemma_vis_at(s, i as int);
                }
                if ids_contain(&deletion.ids, e.id) {
                    new_elems.push(Elem { id: e.id, ts: e.ts, ch: e.ch, vis: false });
                } else {
                    new_elems.push(e);
                    let piece = self.buffer.as_str().substring_char(v, v + 1);
                    new_buffer.append(piece);
                    proof {
                        assert(piece@ =~= seq![vis_chars(s)[v as int]]);
                    }
                }
                proof {
                    crate::crdt::lemma_vis_chars_push(old_new, new_elems@.last());
                    lemma_vis_idx_step(s, i as int);
                }
                v += 1;
            } else {
                new_elems.push(e);
                proof {
                    crate::crdt::lemma_vis_chars_push(old_new, e);
                    lemma_vis_idx_step(s, i as int);
                }
            }
            proof {
                assert(new_elems@[i as int] == mark_deleted(s, dids)[i as int]);
            }
            i += 1;
        }
        proof {
            assert(new_elems@ =~= mark_deleted(s, dids));
        }
        self.buffer = new_buffer;
        self.crdt.elems = new_elems;
        self.history.insert(0, Edit::Deleted(deletion));
        proof {
            crate::crdt::lemma_mark_deleted_wf(s, dids, m0.clock, m0.rid, m0.next_seq);
            assert(history_model(self.history@) =~= seq![EditModel::Del(dids)] + m0.history);
            assert(self@ =~= integrated_del_model(m0, dids));
        }
    }

    /// Replay one history entry, local or remote: dispatch to the matching
    /// integration.  Used to catch a freshly forked or decoded document up
    /// from a peer's history.
    pub fn replay(&mut self, edit: Edit)
        requires
            old(self).wf(),
            crate::crdt::edit_wf(edit_model(edit)),
        ensures
            final(self).wf(),
            final(self)@ == replayed_model(old(self)@, edit_model(edit)),
    {
        match edit {
            Edit::Inserted(insertion) => self.integrate_insertion(insertion),
            Edit::Deleted(deletion) => self.integrate_deletion(deletion),
        }
    }

    /// Fork this document for a new editing session: same buffer, merge
    /// state and history, but identities are minted under
    /// `new_replica_id` from the first sequence number that collides with
    /// nothing already present.
    pub fn fork(&self, new_replica_id: u64) -> (r: Text)
        requires
            self.wf(),
        ensures
            r.wf(),
            r@.buffer == self@.buffer,
            r@.elems == self@.elems,
            r@.history == self@.history,
            r@.rid == new_replica_id,
            r@.clock == self@.clock,
            r@.next_seq == next_seq_for(self@.elems, new_replica_id),
    {
        let n = self.crdt.elems.len();
        let mut elems: Vec<Elem> = Vec::new();
        let mut ns: u64 = 0;
        let mut i: usize = 0;
        while i < n
            invariant
                i <= n,
                n == self.crdt.elems@.len(),
                seqs_lt_max(self.crdt.elems@),
                elems@ == self.crdt.elems@.take(i as int),
                ns == next_seq_for(self.crdt.elems@.take(i as int), new_replica_id),
            decreases n - i,
        {
            let e = self.crdt.elems[i];
            elems.push(e);
            if e.id.rid == new_replica_id && e.id.seq >= ns {
                ns = e.id.seq + 1;
            }
            proof {
                let pre = self.crdt.elems@.take(i as int);
                let cur = self.crdt.elems@.take(i + 1);
                assert(cur.drop_last() =~= pre);
                assert(cur.last() == self.crdt.elems@[i as int]);
                assert(elems@ =~= cur);
            }
            i += 1;
        }
        assert(elems@ =~= self.crdt.elems@);
        assert(self.crdt.elems@.take(n as int) =~= self.crdt.elems@);
        let mut history: Vec<Edit> = Vec::new();
        let mut j: usize = 0;
        while j < self.history.len()
            invariant
                j <= self.history.len(),
                history@.len() == j,
                forall|k: int|
                    0 <= k < j ==> edit_model(#[trigger] history@[k]) == edit_model(
                        self.history@[k],
                    ),
            decreases self.history.len() - j,
        {
            history.push(self.history[j].clone());
            j += 1;
        }
        proof {
            assert(history_model(history@) =~= history_model(self.history@));
            crate::crdt::lemma_next_seq_for(self.crdt.elems@, new_replica_id);
        }
        Text {
            buffer: self.buffer.clone(),
            crdt: Replica { id: new_replica_id, next_seq: ns, clock: self.crdt.clock, elems },
            history,
        }
    }
}

} // verus!
