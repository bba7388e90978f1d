//! The merge laws of the document engine, stated over the element-sequence
//! model that every operation of [`crate::Text`] is specified against.
//!
//! Together with those contracts they say: concurrent edits commute, edits
//! are idempotent, and replicas that replay the same edits from the same
//! state end with the same buffer.

use vstd::prelude::*;

use crate::crdt::EditModel;
use crate::crdt::Elem;
use crate::crdt::InsModel;
use crate::crdt::apply_edit;
use crate::crdt::range_ids;
use crate::crdt::apply_edits;
use crate::crdt::apply_insertion;
use crate::crdt::ins_applicable;
use crate::crdt::ins_pos;
use crate::crdt::ins_start;
use crate::crdt::ins_wf;
use crate::crdt::lemma_idx_of_id_same_ids;
use crate::crdt::lemma_ins_pos_bounds;
use crate::crdt::lemma_skip_count_same;
use crate::crdt::mark_deleted;
use crate::crdt::mark_elem;
use crate::crdt::run_elems;
use crate::crdt::run_present;
use crate::crdt::seq_at;
use crate::crdt::vis_chars;
use crate::document::TextModel;
use crate::document::local_ins;
use crate::document::replayed_model;
use crate::ident::Id;

verus! {

/// Idempotence: integrating the same edit twice leaves exactly the state
/// that integrating it once left, whatever the starting state.  With the
/// contracts of [`crate::Text::integrate_insertion`] and
/// [`crate::Text::integrate_deletion`], a duplicate delivery of an
/// [`crate::Insertion`] or [`crate::Deletion`] never changes the buffer.
pub proof fn lemma_integrate_idempotent(s: Seq<Elem>, e: EditModel)
    ensures
        apply_edit(apply_edit(s, e), e) == apply_edit(s, e),
        vis_chars(apply_edit(apply_edit(s, e), e)) == vis_chars(apply_edit(s, e)),
{
    match e {
        EditModel::Ins(m) => {
            lemma_insertion_idempotent(s, m);
        },
        EditModel::Del(ids) => {
            let s1 = mark_deleted(s, ids);
            assert(mark_deleted(s1, ids) =~= s1) by {
                assert(forall|i: int|
                    0 <= i < s.len() ==> mark_elem(#[trigger] s1[i], ids) == s1[i]);
            }
        },
    }
}

proof fn lemma_insertion_idempotent(s: Seq<Elem>, m: InsModel)
    ensures
        apply_insertion(apply_insertion(s, m), m) == apply_insertion(s, m),
{
    if ins_applicable(s, m) {
        let s1 = apply_insertion(s, m);
        lemma_ins_pos_bounds(s, m);
        let p = ins_pos(s, m);
        if m.text.len() == 0 {
            assert(run_elems(m).len() == 0);
            assert(s1 =~= s);
            assert(apply_insertion(s1, m) == apply_insertion(s, m));
        } else {
            assert(s1[p] == run_elems(m)[0]) by {
                assert(s.subrange(0, p).len() == p);
            }
            assert(s1[p].id.rid == m.rid && m.seq <= s1[p].id.seq < m.seq + m.text.len()) by {
                assert(seq_at(m.seq, 0) == m.seq);
            }
            assert(run_present(s1, m));
            assert(!ins_applicable(s1, m));
        }
    }
}

/// Convergence: an insertion and a deletion made concurrently on two forks
/// of one document integrate to the same element sequence, hence the same
/// buffer, in either order.  The one proviso is that the deletion does not
/// name the identities the insertion mints, which holds of any two edits
/// from replicas with distinct ids, and of any deletion made before the
/// insertion arrived.
pub proof fn lemma_convergence(s: Seq<Elem>, m: InsModel, ids: Seq<Id>)
    requires
        ins_wf(m),
        forall|k: int|
            0 <= k < m.text.len() ==> !ids.contains(Id { rid: m.rid, seq: seq_at(m.seq, k) }),
    ensures
        apply_insertion(mark_deleted(s, ids), m) == mark_deleted(apply_insertion(s, m), ids),
        vis_chars(apply_insertion(mark_deleted(s, ids), m)) == vis_chars(
            mark_deleted(apply_insertion(s, m), ids),
        ),
{
    let sm = mark_deleted(s, ids);
    assert(sm.len() == s.len());
    assert(forall|i: int|
        0 <= i < s.len() ==> (#[trigger] sm[i]).id == s[i].id && sm[i].ts == s[i].ts);
    // Marking changes no identity, so presence, anchors and ranks agree.
    assert(run_present(sm, m) == run_present(s, m)) by {
        if run_present(s, m) {
            let i = choose|i: int|
                0 <= i < s.len() && (#[trigger] s[i]).id.rid == m.rid && m.seq <= s[i].id.seq
                    < m.seq + m.text.len();
            assert(sm[i].id == s[i].id);
        }
        if run_present(sm, m) {
            let i = choose|i: int|
                0 <= i < sm.len() && (#[trigger] sm[i]).id.rid == m.rid && m.seq <= sm[i].id.seq
                    < m.seq + m.text.len();
            assert(s[i].id == sm[i].id);
        }
    }
    match m.left {
        Option::None => {},
        Option::Some(a) => {
            assert(crate::crdt::contains_id(sm, a) == crate::crdt::contains_id(s, a)) by {
                if crate::crdt::contains_id(s, a) {
                    let i = choose|i: int| 0 <= i < s.len() && s[i].id == a;
                    assert(sm[i].id == a);
                }
                if crate::crdt::contains_id(sm, a) {
                    let i = choose|i: int| 0 <= i < sm.len() && sm[i].id == a;
                    assert(s[i].id == a);
                }
            }
            lemma_idx_of_id_same_ids(sm, s, a);
        },
    }
    assert(ins_applicable(sm, m) == ins_applicable(s, m));
    if ins_applicable(s, m) {
        assert(ins_start(sm, m) == ins_start(s, m));
        let st = ins_start(s, m);
        lemma_ins_pos_bounds(s, m);
        match m.left {
            Option::None => {
                assert(st == 0);
            },
            Option::Some(a) => {
                crate::crdt::lemma_idx_of_id(s, a);
            },
        }
        assert(0 <= st <= s.len());
        let subx = sm.subrange(st, sm.len() as int);
        let suby = s.subrange(st, s.len() as int);
        assert(forall|i: int| 0 <= i < subx.len() ==> #[trigger] subx[i] == sm[st + i]);
        assert(forall|i: int| 0 <= i < suby.len() ==> #[trigger] suby[i] == s[st + i]);
        assert(forall|i: int|
            0 <= i < subx.len() ==> (#[trigger] subx[i]).ts == suby[i].ts && subx[i].id.rid
                == suby[i].id.rid);
        lemma_skip_count_same(subx, suby, m.ts, m.rid);
        assert(ins_pos(sm, m) == ins_pos(s, m));
        let p = ins_pos(s, m);
        let run = run_elems(m);
        let lhs = sm.subrange(0, p) + run + sm.subrange(p, sm.len() as int);
        let rhs = mark_deleted(s.subrange(0, p) + run + s.subrange(p, s.len() as int), ids);
        assert(lhs =~= rhs) by {
            assert(forall|k: int|
                0 <= k < run.len() ==> mark_elem(#[trigger] run[k], ids) == run[k]) by {
                assert(forall|k: int| 0 <= k < run.len() ==> (#[trigger] run[k]).id == Id {
                    rid: m.rid,
                    seq: seq_at(m.seq, k),
                });
            }
        }
        assert(apply_insertion(sm, m) == lhs);
        assert(mark_deleted(apply_insertion(s, m), ids) == rhs);
    } else {
        assert(apply_insertion(sm, m) == sm);
        assert(mark_deleted(apply_insertion(s, m), ids) == sm);
    }
}

/// The document-level statement of convergence: two forks of one document,
/// editing under distinct replica ids, may delete a buffer range on one
/// and insert text on the other concurrently; integrating the edits in
/// either order yields the same element sequence and so the same buffer.
/// The deletion names only identities the common state already holds,
/// while the insertion mints identities its replica has never used, so
/// the two edits can never touch the same identity.
pub proof fn lemma_concurrent_edits_commute(
    m_a: TextModel,
    m_b: TextModel,
    a: int,
    b: int,
    at: int,
    text: Seq<char>,
)
    requires
        m_a.wf(),
        m_b.wf(),
        m_a.elems == m_b.elems,
        m_a.rid != m_b.rid,
        0 <= a <= b <= vis_chars(m_a.elems).len(),
        m_b.next_seq + text.len() <= u64::MAX,
    ensures
        apply_insertion(mark_deleted(m_a.elems, range_ids(m_a.elems, a, b)), local_ins(m_b, at, text))
            == mark_deleted(
            apply_insertion(m_b.elems, local_ins(m_b, at, text)),
            range_ids(m_a.elems, a, b),
        ),
        vis_chars(
            apply_insertion(
                mark_deleted(m_a.elems, range_ids(m_a.elems, a, b)),
                local_ins(m_b, at, text),
            ),
        ) == vis_chars(
            mark_deleted(
                apply_insertion(m_b.elems, local_ins(m_b, at, text)),
                range_ids(m_a.elems, a, b),
            ),
        ),
{
    let s = m_a.elems;
    let del = range_ids(s, a, b);
    let m = local_ins(m_b, at, text);
    assert forall|k: int| 0 <= k < m.text.len() implies !del.contains(
        Id { rid: m.rid, seq: seq_at(m.seq, k) },
    ) by {
        let id = Id { rid: m.rid, seq: seq_at(m.seq, k) };
        if del.contains(id) {
            let j = choose|j: int| 0 <= j < del.len() && del[j] == id;
            crate::crdt::lemma_nth_visible_exists(s, a + j);
            let i = choose|i: int|
                0 <= i < s.len() && (#[trigger] s[i]).vis && crate::crdt::vis_idx(s, i) == a + j
                    && s[i] == crate::crdt::nth_visible(s, a + j);
            assert(s[i].id == id);
            assert(s[i].id.rid == m_b.rid);
            assert(s[i].id.seq < m_b.next_seq);
            assert(seq_at(m.seq, k) == m_b.next_seq + k);
            assert(false);
        }
    }
    lemma_convergence(s, m, del);
}

/// Replaying one history entry changes the element sequence exactly as
/// [`apply_edit`] says, whatever else (clock, counters, history) the entry
/// updates: the bridge between [`crate::Text::replay`]'s contract and the
/// replay laws.
pub proof fn lemma_replay_is_apply(m0: TextModel, e: EditModel)
    ensures
        replayed_model(m0, e).elems == apply_edit(m0.elems, e),
        replayed_model(m0, e).buffer == vis_chars(apply_edit(m0.elems, e)),
{
}

/// History replay: two documents whose element sequences agree and that
/// replay the same edits, in the same order, end with equal element
/// sequences and so with byte-identical buffers.  The contracts of
/// [`crate::Text::insert`], [`crate::Text::delete`] and
/// [`crate::Text::replay`] state each operation's effect as exactly such a
/// replay step, so a fresh fork that replays a peer's history, oldest edit
/// first, reaches that peer's buffer.
pub proof fn lemma_history_replay(a: Seq<Elem>, b: Seq<Elem>, es: Seq<EditModel>)
    requires
        a == b,
    ensures
        apply_edits(a, es) == apply_edits(b, es),
        vis_chars(apply_edits(a, es)) == vis_chars(apply_edits(b, es)),
{
}

/// Replaying one more edit continues where the previous replay ended.
pub proof fn lemma_apply_edits_snoc(s: Seq<Elem>, es: Seq<EditModel>, e: EditModel)
    ensures
        apply_edits(s, es.push(e)) == apply_edit(apply_edits(s, es), e),
    decreases es.len(),
{
    if es.len() == 0 {
        assert(es.push(e).drop_first() =~= Seq::<EditModel>::empty());
        assert(es.push(e)[0] == e);
        assert(apply_edits(apply_edit(s, e), Seq::<EditModel>::empty()) == apply_edit(s, e));
        assert(apply_edits(s, es) == s);
    } else {
        assert(es.push(e).drop_first() =~= es.drop_first().push(e));
        assert(es.push(e)[0] == es[0]);
        lemma_apply_edits_snoc(apply_edit(s, es[0]), es.drop_first(), e);
        assert(apply_edits(s, es.push(e)) == apply_edits(
            apply_edit(s, es[0]),
            es.drop_first().push(e),
        ));
        assert(apply_edits(s, es) == apply_edits(apply_edit(s, es[0]), es.drop_first()));
    }
}

/// Replicas with distinct ids can never mint the same identity, so the
/// continued edits of a decoded or forked document never collide with its
/// source's: what one inserts, the other integrates as new.
pub proof fn lemma_distinct_replicas_never_collide(m1: InsModel, m2: InsModel, k1: int, k2: int)
    requires
        m1.rid != m2.rid,
        0 <= k1 < m1.text.len(),
        0 <= k2 < m2.text.len(),
    ensures
        crate::crdt::run_ids(m1)[k1] != crate::crdt::run_ids(m2)[k2],
{
}

} // verus!
