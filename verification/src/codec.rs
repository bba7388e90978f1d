//! The wire codec: a self-describing byte format for a whole document
//! (buffer, merge state, history and the replica id assigned to the
//! decoder) and for a single edit.  Byte compatibility matters only
//! between instances of this system.
//!
//! Integers are little-endian; text travels as length-prefixed UTF-8; a
//! leading tag names the payload kind.  Decoding accepts exactly the
//! payloads encoding produces: a wrong tag, a truncated payload, or any
//! inconsistency (an invalid scalar, text that does not match the merge
//! state, trailing bytes) is a [`CodecError`], never a panic, so a
//! listener can skip one bad message and continue.

use vstd::prelude::*;
use vstd::string::StrSliceExecFns;
use vstd::string::StringSliceAdditionalSpecFns;
use vstd::utf8::decode_utf8;
use vstd::utf8::encode_utf8;
use vstd::utf8::valid_utf8;

use crate::crdt::EditModel;
use crate::crdt::Elem;
use crate::crdt::InsModel;
use crate::crdt::next_seq_for;
use crate::crdt::vis_chars;
use crate::document::Edit;
use crate::document::TextModel;
use crate::ident::Id;

verus! {

/// Why a payload was refused.
#[derive(Clone, Copy, PartialEq, Eq, Structural, Debug)]
pub enum CodecError {
    /// The payload does not start with the expected format tag.
    UnknownTag,
    /// The payload ends before the data its counts announce.
    Truncated,
    /// The payload contradicts itself: an invalid scalar value, a count
    /// that cannot be minted, text that does not match the merge state, or
    /// trailing bytes.
    Malformed,
}

/// The format tag of an encoded document.
pub const TAG_DOC: u8 = 0xD1;

/// The format tag of an encoded edit.
pub const TAG_EDIT: u8 = 0xE1;

#[verifier::external_type_specification]
#[verifier::external_body]
pub struct ExUtf8Error(core::str::Utf8Error);

/// Relies on core::str::from_utf8: it returns `Ok` exactly on valid UTF-8
/// input, and the returned slice is backed by those very bytes.
pub assume_specification[ core::str::from_utf8 ](v: &[u8]) -> (r: Result<
    &str,
    core::str::Utf8Error,
>)
    ensures
        r is Ok <==> valid_utf8(v@),
        r is Ok ==> r.unwrap().spec_bytes() == v@,
;

/// Relies on char::from_u32: it returns `Some` exactly on Unicode scalar
/// values, and the returned character has that value.
pub assume_specification[ char::from_u32 ](v: u32) -> (r: Option<char>)
    ensures
        r is Some <==> vstd::utf8::is_scalar(v),
        (r matches Some(c) ==> c as u32 == v),
;

pub open spec fn pow256(n: nat) -> nat
    decreases n,
{
    if n == 0 {
        1
    } else {
        256 * pow256((n - 1) as nat)
    }
}

/// The value of a little-endian byte string.
pub open spec fn le_val(b: Seq<u8>) -> nat
    decreases b.len(),
{
    if b.len() == 0 {
        0
    } else {
        b[0] as nat + 256 * le_val(b.drop_first())
    }
}

/// The `n` little-endian bytes of `v`.
pub open spec fn le_bytes(v: nat, n: nat) -> Seq<u8>
    decreases n,
{
    if n == 0 {
        Seq::empty()
    } else {
        seq![(v % 256) as u8] + le_bytes(v / 256, (n - 1) as nat)
    }
}

pub open spec fn u64_bytes(x: u64) -> Seq<u8> {
    le_bytes(x as nat, 8)
}

pub open spec fn vis_byte(vis: bool) -> u8 {
    if vis {
        1
    } else {
        0
    }
}

pub open spec fn elem_bytes(e: Elem) -> Seq<u8> {
    u64_bytes(e.id.rid) + u64_bytes(e.id.seq) + u64_bytes(e.ts) + le_bytes(e.ch as nat, 4) + seq![
        vis_byte(e.vis),
    ]
}

pub open spec fn elems_bytes(s: Seq<Elem>) -> Seq<u8>
    decreases s.len(),
{
    if s.len() == 0 {
        Seq::empty()
    } else {
        elem_bytes(s[0]) + elems_bytes(s.drop_first())
    }
}

/// Length-prefixed UTF-8.
pub open spec fn text_bytes(t: Seq<char>) -> Seq<u8> {
    u64_bytes(encode_utf8(t).len() as u64) + encode_utf8(t)
}

pub open spec fn id_bytes(id: Id) -> Seq<u8> {
    u64_bytes(id.rid) + u64_bytes(id.seq)
}

pub open spec fn ids_bytes(ids: Seq<Id>) -> Seq<u8>
    decreases ids.len(),
{
    if ids.len() == 0 {
        Seq::empty()
    } else {
        id_bytes(ids[0]) + ids_bytes(ids.drop_first())
    }
}

pub open spec fn opt_id_bytes(o: Option<Id>) -> Seq<u8> {
    match o {
        Option::None => seq![0u8],
        Option::Some(id) => seq![1u8] + id_bytes(id),
    }
}

pub open spec fn edit_bytes(e: EditModel) -> Seq<u8> {
    match e {
        EditModel::Ins(m) => seq![0u8] + u64_bytes(m.rid) + u64_bytes(m.seq) + u64_bytes(m.ts)
            + opt_id_bytes(m.left) + text_bytes(m.text),
        EditModel::Del(ids) => seq![1u8] + u64_bytes(ids.len() as u64) + ids_bytes(ids),
    }
}

pub open spec fn edits_bytes(h: Seq<EditModel>) -> Seq<u8>
    decreases h.len(),
{
    if h.len() == 0 {
        Seq::empty()
    } else {
        edit_bytes(h[0]) + edits_bytes(h.drop_first())
    }
}

/// The byte encoding of a whole document, with the replica id the decoder
/// will edit under.
pub open spec fn encode_doc_spec(m: TextModel, assigned: u64) -> Seq<u8> {
    seq![TAG_DOC] + u64_bytes(assigned) + u64_bytes(m.clock) + u64_bytes(m.elems.len() as u64)
        + elems_bytes(m.elems) + text_bytes(m.buffer) + u64_bytes(m.history.len() as u64)
        + edits_bytes(m.history)
}

/// The byte encoding of a single edit, as live sync publishes it.
pub open spec fn encode_edit_spec(e: EditModel) -> Seq<u8> {
    seq![TAG_EDIT] + edit_bytes(e)
}

/// What decoding accepts and yields.  Each parser returns the parsed value
/// and the offset just past it, or the error the payload deserves.
pub open spec fn parse_u64(b: Seq<u8>, i: int) -> Result<(u64, int), CodecError> {
    if i + 8 <= b.len() {
        Ok((le_val(b.subrange(i, i + 8)) as u64, i + 8))
    } else {
        Err(CodecError::Truncated)
    }
}

pub open spec fn parse_char(b: Seq<u8>, i: int) -> Result<(char, int), CodecError> {
    if i + 4 <= b.len() {
        let v = le_val(b.subrange(i, i + 4));
        if v < 0x100000000 && vstd::utf8::is_scalar(v as u32) {
            Ok(((v as u32) as char, i + 4))
        } else {
            Err(CodecError::Malformed)
        }
    } else {
        Err(CodecError::Truncated)
    }
}

pub open spec fn parse_elem(b: Seq<u8>, i: int, clock: u64) -> Result<(Elem, int), CodecError> {
    match parse_u64(b, i) {
        Err(e) => Err(e),
        Ok((rid, i1)) => match parse_u64(b, i1) {
            Err(e) => Err(e),
            Ok((seq, i2)) => if seq == u64::MAX {
                Err(CodecError::Malformed)
            } else {
                match parse_u64(b, i2) {
                    Err(e) => Err(e),
                    Ok((ts, i3)) => if ts > clock {
                        Err(CodecError::Malformed)
                    } else {
                        match parse_char(b, i3) {
                            Err(e) => Err(e),
                            Ok((ch, i4)) => if i4 + 1 <= b.len() {
                                if b[i4] == 0 || b[i4] == 1 {
                                    Ok(
                                        (
                                            Elem { id: Id { rid, seq }, ts, ch, vis: b[i4] == 1 },
                                            i4 + 1,
                                        ),
                                    )
                                } else {
                                    Err(CodecError::Malformed)
                                }
                            } else {
                                Err(CodecError::Truncated)
                            },
                        }
                    },
                }
            },
        },
    }
}

pub open spec fn parse_elems(b: Seq<u8>, i: int, n: u64, clock: u64) -> Result<
    (Seq<Elem>, int),
    CodecError,
>
    decreases n,
{
    if n == 0 {
        Ok((Seq::empty(), i))
    } else {
        match parse_elem(b, i, clock) {
            Err(e) => Err(e),
            Ok((el, i1)) => match parse_elems(b, i1, (n - 1) as u64, clock) {
                Err(e) => Err(e),
                Ok((rest, i2)) => Ok((seq![el] + rest, i2)),
            },
        }
    }
}

pub open spec fn parse_text(b: Seq<u8>, i: int) -> Result<(Seq<char>, int), CodecError> {
    match parse_u64(b, i) {
        Err(e) => Err(e),
        Ok((len, i1)) => if i1 + len <= b.len() {
            let sub = b.subrange(i1, i1 + len);
            if valid_utf8(sub) {
                Ok((decode_utf8(sub), i1 + len))
            } else {
                Err(CodecError::Malformed)
            }
        } else {
            Err(CodecError::Truncated)
        },
    }
}

pub open spec fn parse_id(b: Seq<u8>, i: int) -> Result<(Id, int), CodecError> {
    match parse_u64(b, i) {
        Err(e) => Err(e),
        Ok((rid, i1)) => match parse_u64(b, i1) {
            Err(e) => Err(e),
            Ok((seq, i2)) => Ok((Id { rid, seq }, i2)),
        },
    }
}

pub open spec fn parse_ids(b: Seq<u8>, i: int, n: u64) -> Result<(Seq<Id>, int), CodecError>
    decreases n,
{
    if n == 0 {
        Ok((Seq::empty(), i))
    } else {
        match parse_id(b, i) {
            Err(e) => Err(e),
            Ok((id, i1)) => match parse_ids(b, i1, (n - 1) as u64) {
                Err(e) => Err(e),
                Ok((rest, i2)) => Ok((seq![id] + rest, i2)),
            },
        }
    }
}

pub open spec fn parse_opt_id(b: Seq<u8>, i: int) -> Result<(Option<Id>, int), CodecError> {
    if i + 1 <= b.len() {
        if b[i] == 0 {
            Ok((Option::None, i + 1))
        } else if b[i] == 1 {
            match parse_id(b, i + 1) {
                Err(e) => Err(e),
                Ok((id, i1)) => Ok((Option::Some(id), i1)),
            }
        } else {
            Err(CodecError::Malformed)
        }
    } else {
        Err(CodecError::Truncated)
    }
}

pub open spec fn parse_edit(b: Seq<u8>, i: int) -> Result<(EditModel, int), CodecError> {
    if i + 1 <= b.len() {
        if b[i] == 0 {
            match parse_u64(b, i + 1) {
                Err(e) => Err(e),
                Ok((rid, i1)) => match parse_u64(b, i1) {
                    Err(e) => Err(e),
                    Ok((seq, i2)) => match parse_u64(b, i2) {
                        Err(e) => Err(e),
                        Ok((ts, i3)) => match parse_opt_id(b, i3) {
                            Err(e) => Err(e),
                            Ok((left, i4)) => match parse_text(b, i4) {
                                Err(e) => Err(e),
                                Ok((text, i5)) => if seq + text.len() <= u64::MAX {
                                    Ok((EditModel::Ins(InsModel { rid, seq, ts, left, text }), i5))
                                } else {
                                    Err(CodecError::Malformed)
                                },
                            },
                        },
                    },
                },
            }
        } else if b[i] == 1 {
            match parse_u64(b, i + 1) {
                Err(e) => Err(e),
                Ok((n, i1)) => match parse_ids(b, i1, n) {
                    Err(e) => Err(e),
                    Ok((ids, i2)) => Ok((EditModel::Del(ids), i2)),
                },
            }
        } else {
            Err(CodecError::Malformed)
        }
    } else {
        Err(CodecError::Truncated)
    }
}

pub open spec fn parse_edits(b: Seq<u8>, i: int, n: u64) -> Result<(Seq<EditModel>, int), CodecError>
    decreases n,
{
    if n == 0 {
        Ok((Seq::empty(), i))
    } else {
        match parse_edit(b, i) {
            Err(e) => Err(e),
            Ok((ed, i1)) => match parse_edits(b, i1, (n - 1) as u64) {
                Err(e) => Err(e),
                Ok((rest, i2)) => Ok((seq![ed] + rest, i2)),
            },
        }
    }
}

/// What decoding a document payload accepts and yields: exactly the
/// payloads [`encode_doc_spec`] produces, down to the consistency of the
/// carried buffer with the carried merge state.
pub open spec fn decode_doc_spec(b: Seq<u8>) -> Result<TextModel, CodecError> {
    if b.len() < 1 {
        Err(CodecError::Truncated)
    } else if b[0] != TAG_DOC {
        Err(CodecError::UnknownTag)
    } else {
        match parse_u64(b, 1) {
            Err(e) => Err(e),
            Ok((rid, i1)) => match parse_u64(b, i1) {
                Err(e) => Err(e),
                Ok((clock, i2)) => match parse_u64(b, i2) {
                    Err(e) => Err(e),
                    Ok((n_elems, i3)) => match parse_elems(b, i3, n_elems, clock) {
                        Err(e) => Err(e),
                        Ok((elems, i4)) => match parse_text(b, i4) {
                            Err(e) => Err(e),
                            Ok((buffer, i5)) => match parse_u64(b, i5) {
                                Err(e) => Err(e),
                                Ok((n_hist, i6)) => match parse_edits(b, i6, n_hist) {
                                    Err(e) => Err(e),
                                    Ok((history, i7)) => if i7 != b.len() {
                                        Err(CodecError::Malformed)
                                    } else if !crate::crdt::ids_distinct(elems) {
                                        Err(CodecError::Malformed)
                                    } else if buffer != vis_chars(elems) {
                                        Err(CodecError::Malformed)
                                    } else {
                                        Ok(
                                            TextModel {
                                                buffer,
                                                elems,
                                                rid,
                                                next_seq: next_seq_for(elems, rid),
                                                clock,
                                                history,
                                            },
                                        )
                                    },
                                },
                            },
                        },
                    },
                },
            },
        }
    }
}

pub proof fn lemma_pow256_pos(n: nat)
    ensures
        pow256(n) >= 1,
    decreases n,
{
    if n > 0 {
        lemma_pow256_pos((n - 1) as nat);
    }
}

pub proof fn lemma_pow256_mono(a: nat, b: nat)
    requires
        a <= b,
    ensures
        pow256(a) <= pow256(b),
    decreases b,
{
    if a < b {
        lemma_pow256_mono(a, (b - 1) as nat);
        lemma_pow256_pos((b - 1) as nat);
    }
}

pub proof fn lemma_pow256_val()
    ensures
        pow256(4) == 0x100000000,
        pow256(8) == 0x10000000000000000,
{
    reveal_with_fuel(pow256, 9);
}

pub proof fn lemma_le_bytes_len(v: nat, n: nat)
    ensures
        le_bytes(v, n).len() == n,
    decreases n,
{
    if n > 0 {
        lemma_le_bytes_len(v / 256, (n - 1) as nat);
    }
}

pub proof fn lemma_le_val_bound(b: Seq<u8>)
    ensures
        le_val(b) < pow256(b.len()),
    decreases b.len(),
{
    if b.len() > 0 {
        lemma_le_val_bound(b.drop_first());
    }
}

/// Reading back the little-endian bytes of a value recovers it.
pub proof fn lemma_le_roundtrip(v: nat, n: nat)
    requires
        v < pow256(n),
    ensures
        le_val(le_bytes(v, n)) == v,
    decreases n,
{
    if n == 0 {
    } else {
        assert(v / 256 < pow256((n - 1) as nat)) by {
            let p = pow256((n - 1) as nat) as int;
            assert(pow256(n) == 256 * pow256((n - 1) as nat));
            lemma_pow256_pos((n - 1) as nat);
            vstd::arithmetic::div_mod::lemma_div_multiples_vanish_fancy(p - 1, 255, 256);
            vstd::arithmetic::div_mod::lemma_div_is_ordered(v as int, 256 * p - 1, 256);
        }
        lemma_le_roundtrip(v / 256, (n - 1) as nat);
        let b = le_bytes(v, n);
        assert(b.drop_first() =~= le_bytes(v / 256, (n - 1) as nat));
        assert(b[0] == (v % 256) as u8);
        assert(v % 256 + 256 * (v / 256) == v) by {
            vstd::arithmetic::div_mod::lemma_fundamental_div_mod(v as int, 256);
        }
    }
}

/// A concatenation sitting at offset `i` splits into its parts.
pub proof fn lemma_subrange_concat(b: Seq<u8>, i: int, x: Seq<u8>, y: Seq<u8>)
    requires
        0 <= i,
        i + x.len() + y.len() <= b.len(),
        b.subrange(i, i + x.len() + y.len()) == x + y,
    ensures
        b.subrange(i, i + x.len()) == x,
        b.subrange(i + x.len(), i + x.len() + y.len()) == y,
{
    assert(b.subrange(i, i + x.len()) =~= x) by {
        assert(forall|k: int|
            0 <= k < x.len() ==> b[i + k] == (x + y)[k] && (x + y)[k] == #[trigger] x[k]);
    }
    assert(b.subrange(i + x.len(), i + x.len() + y.len()) =~= y) by {
        assert(forall|k: int|
            0 <= k < y.len() ==> b[i + x.len() + k] == (x + y)[x.len() + k] && (x + y)[x.len() + k]
                == #[trigger] y[k]);
    }
}

pub proof fn lemma_elems_bytes_snoc(s: Seq<Elem>, e: Elem)
    ensures
        elems_bytes(s.push(e)) == elems_bytes(s) + elem_bytes(e),
    decreases s.len(),
{
    reveal_with_fuel(elems_bytes, 3);
    assert(s.push(e)[0] == if s.len() == 0 {
        e
    } else {
        s[0]
    });
    if s.len() == 0 {
        assert(s.push(e).drop_first() =~= Seq::<Elem>::empty());
        assert(elems_bytes(s.push(e)) =~= elems_bytes(s) + elem_bytes(e));
    } else {
        assert(s.push(e).drop_first() =~= s.drop_first().push(e));
        lemma_elems_bytes_snoc(s.drop_first(), e);
        assert(elems_bytes(s.push(e)) =~= elems_bytes(s) + elem_bytes(e));
    }
}

pub proof fn lemma_ids_bytes_snoc(s: Seq<Id>, id: Id)
    ensures
        ids_bytes(s.push(id)) == ids_bytes(s) + id_bytes(id),
    decreases s.len(),
{
    reveal_with_fuel(ids_bytes, 3);
    assert(s.push(id)[0] == if s.len() == 0 {
        id
    } else {
        s[0]
    });
    if s.len() == 0 {
        assert(s.push(id).drop_first() =~= Seq::<Id>::empty());
        assert(ids_bytes(s.push(id)) =~= ids_bytes(s) + id_bytes(id));
    } else {
        assert(s.push(id).drop_first() =~= s.drop_first().push(id));
        lemma_ids_bytes_snoc(s.drop_first(), id);
        assert(ids_bytes(s.push(id)) =~= ids_bytes(s) + id_bytes(id));
    }
}

pub proof fn lemma_edits_bytes_snoc(s: Seq<EditModel>, e: EditModel)
    ensures
        edits_bytes(s.push(e)) == edits_bytes(s) + edit_bytes(e),
    decreases s.len(),
{
    reveal_with_fuel(edits_bytes, 3);
    assert(s.push(e)[0] == if s.len() == 0 {
        e
    } else {
        s[0]
    });
    if s.len() == 0 {
        assert(s.push(e).drop_first() =~= Seq::<EditModel>::empty());
        assert(edits_bytes(s.push(e)) =~= edits_bytes(s) + edit_bytes(e));
    } else {
        assert(s.push(e).drop_first() =~= s.drop_first().push(e));
        lemma_edits_bytes_snoc(s.drop_first(), e);
        assert(edits_bytes(s.push(e)) =~= edits_bytes(s) + edit_bytes(e));
    }
}

/// Append the `n` little-endian bytes of `v`.
fn push_le(out: &mut Vec<u8>, v: u64, n: usize)
    ensures
        final(out)@ == old(out)@ + le_bytes(v as nat, n as nat),
{
    let ghost base = out@;
    let mut cur = v;
    let mut k: usize = 0;
    while k < n
        invariant
            k <= n,
            out@.len() == base.len() + k,
            out@.subrange(0, base.len() as int) == base,
            le_bytes(v as nat, n as nat) == out@.skip(base.len() as int) + le_bytes(
                cur as nat,
                (n - k) as nat,
            ),
        decreases n - k,
    {
        let ghost pre = out@;
        let b = (cur % 256) as u8;
        out.push(b);
        proof {
            assert(le_bytes(cur as nat, (n - k) as nat) == seq![b] + le_bytes(
                cur as nat / 256,
                (n - k - 1) as nat,
            ));
            assert(out@.skip(base.len() as int) =~= pre.skip(base.len() as int) + seq![b]);
            assert(pre.skip(base.len() as int) + (seq![b] + le_bytes(
                cur as nat / 256,
                (n - k - 1) as nat,
            )) =~= (pre.skip(base.len() as int) + seq![b]) + le_bytes(
                cur as nat / 256,
                (n - k - 1) as nat,
            ));
            assert(out@.subrange(0, base.len() as int) =~= base);
        }
        cur = cur / 256;
        k += 1;
    }
    proof {
        assert(le_bytes(cur as nat, 0) =~= Seq::<u8>::empty());
        assert(out@.skip(base.len() as int) + Seq::<u8>::empty() =~= out@.skip(base.len() as int));
        assert(out@ =~= base + out@.skip(base.len() as int));
    }
}

/// Read the value of `n` little-endian bytes, `n` at most 8.
fn read_le(bytes: &[u8], off: usize, n: usize) -> (r: u64)
    requires
        n <= 8,
        off + n <= bytes@.len(),
    ensures
        r as nat == le_val(bytes@.subrange(off as int, off + n)),
{
    let blen = bytes.len();
    let mut acc: u64 = 0;
    let mut k: usize = n;
    proof {
        assert(bytes@.subrange(off + n, off + n) =~= Seq::<u8>::empty());
    }
    while k > 0
        invariant
            k <= n <= 8,
            off + n <= blen,
            blen == bytes@.len(),
            acc as nat == le_val(bytes@.subrange(off + k, off + n)),
        decreases k,
    {
        k -= 1;
        let b = *vstd::slice::slice_index_get(bytes, off + k);
        proof {
            let sub = bytes@.subrange(off + k, off + n);
            assert(sub[0] == bytes@[off + k]);
            assert(sub.drop_first() =~= bytes@.subrange(off + k + 1, off + n));
            lemma_le_val_bound(bytes@.subrange(off + k + 1, off + n));
            lemma_pow256_mono((n - k - 1) as nat, 7);
            lemma_pow256_val();
            assert(pow256(7) * 256 == pow256(8)) by {
                reveal_with_fuel(pow256, 9);
            }
        }
        acc = acc * 256 + b as u64;
    }
    acc
}

fn push_u64(out: &mut Vec<u8>, x: u64)
    ensures
        final(out)@ == old(out)@ + u64_bytes(x),
{
    let n: usize = 8;
    push_le(out, x, n);
    proof {
        assert(n as nat == 8);
        assert(le_bytes(x as nat, n as nat) == u64_bytes(x));
    }
}

fn push_text(out: &mut Vec<u8>, s: &str)
    ensures
        final(out)@ == old(out)@ + text_bytes(s@),
{
    let ghost base = out@;
    let b = s.as_bytes();
    let bl = b.len();
    push_u64(out, bl as u64);
    out.extend_from_slice(b);
    proof {
        assert(bl as u64 == encode_utf8(s@).len() as u64);
        assert(out@ =~= base + (u64_bytes(bl as u64) + encode_utf8(s@)));
    }
}

fn push_id(out: &mut Vec<u8>, id: Id)
    ensures
        final(out)@ == old(out)@ + id_bytes(id),
{
    let ghost base = out@;
    push_u64(out, id.rid);
    push_u64(out, id.seq);
    proof {
        assert(out@ =~= base + (u64_bytes(id.rid) + u64_bytes(id.seq)));
    }
}

fn push_elem(out: &mut Vec<u8>, e: Elem)
    ensures
        final(out)@ == old(out)@ + elem_bytes(e),
{
    let ghost base = out@;
    push_u64(out, e.id.rid);
    push_u64(out, e.id.seq);
    push_u64(out, e.ts);
    let code = e.ch as u32;
    push_le(out, code as u64, 4);
    out.push(if e.vis {
        1
    } else {
        0
    });
    proof {
        assert(code as u64 as nat == e.ch as nat);
        assert(out@ =~= base + elem_bytes(e));
    }
}

fn push_edit(out: &mut Vec<u8>, e: &Edit)
    ensures
        final(out)@ == old(out)@ + edit_bytes(crate::document::edit_model(*e)),
{
    let ghost base = out@;
    match e {
        Edit::Inserted(ins) => {
            out.push(0u8);
            push_u64(out, ins.crdt.rid);
            push_u64(out, ins.crdt.seq);
            push_u64(out, ins.crdt.ts);
            match ins.crdt.left {
                Option::None => {
                    out.push(0u8);
                },
                Option::Some(id) => {
                    out.push(1u8);
                    push_id(out, id);
                    proof {
                        assert(out@.skip(base.len() as int) =~= seq![0u8] + u64_bytes(ins.crdt.rid)
                            + u64_bytes(ins.crdt.seq) + u64_bytes(ins.crdt.ts) + (seq![1u8]
                            + id_bytes(id)));
                    }
                },
            }
            push_text(out, ins.text.as_str());
            proof {
                assert(out@ =~= base + edit_bytes(crate::document::edit_model(*e)));
            }
        },
        Edit::Deleted(del) => {
            out.push(1u8);
            let n = del.ids.len();
            push_u64(out, n as u64);
            let ghost mid = out@;
            let mut k: usize = 0;
            while k < n
                invariant
                    k <= n,
                    n == del.ids@.len(),
                    out@ == mid + ids_bytes(del.ids@.take(k as int)),
                decreases n - k,
            {
                let ghost pre = del.ids@.take(k as int);
                push_id(out, del.ids[k]);
                proof {
                    assert(del.ids@.take(k + 1) =~= pre.push(del.ids@[k as int]));
                    lemma_ids_bytes_snoc(pre, del.ids@[k as int]);
                    assert(out@ =~= mid + ids_bytes(del.ids@.take(k + 1)));
                }
                k += 1;
            }
            proof {
                assert(del.ids@.take(n as int) =~= del.ids@);
                assert(out@ =~= base + edit_bytes(crate::document::edit_model(*e)));
            }
        },
    }
}

/// Encode a single edit for the live-edit topic.
pub fn encode_edit(e: &Edit) -> (r: Vec<u8>)
    ensures
        r@ == encode_edit_spec(crate::document::edit_model(*e)),
{
    let mut out: Vec<u8> = Vec::new();
    out.push(TAG_EDIT);
    proof {
        assert(out@ =~= seq![TAG_EDIT]);
    }
    push_edit(&mut out, e);
    proof {
        assert(out@ =~= encode_edit_spec(crate::document::edit_model(*e)));
    }
    out
}

/// What decoding an edit payload accepts and yields.
pub open spec fn decode_edit_spec(b: Seq<u8>) -> Result<EditModel, CodecError> {
    if b.len() < 1 {
        Err(CodecError::Truncated)
    } else if b[0] != TAG_EDIT {
        Err(CodecError::UnknownTag)
    } else {
        match parse_edit(b, 1) {
            Err(e) => Err(e),
            Ok((ed, i1)) => if i1 != b.len() {
                Err(CodecError::Malformed)
            } else {
                Ok(ed)
            },
        }
    }
}

impl crate::document::Text {
    /// Encode this document for transfer or persistence, naming the
    /// replica id the decoder will continue editing under.
    pub fn encode(&self, assigned_id: u64) -> (r: Vec<u8>)
        ensures
            r@ == encode_doc_spec(self@, assigned_id),
    {
        let mut out: Vec<u8> = Vec::new();
        out.push(TAG_DOC);
        proof {
            assert(out@ =~= seq![TAG_DOC]);
        }
        push_u64(&mut out, assigned_id);
        push_u64(&mut out, self.crdt.clock);
        let n = self.crdt.elems.len();
        push_u64(&mut out, n as u64);
        let ghost mid = out@;
        let mut i: usize = 0;
        while i < n
            invariant
                i <= n,
                n == self.crdt.elems@.len(),
                out@ == mid + elems_bytes(self.crdt.elems@.take(i as int)),
            decreases n - i,
        {
            let ghost pre = self.crdt.elems@.take(i as int);
            push_elem(&mut out, self.crdt.elems[i]);
            proof {
                assert(self.crdt.elems@.take(i + 1) =~= pre.push(self.crdt.elems@[i as int]));
                lemma_elems_bytes_snoc(pre, self.crdt.elems@[i as int]);
                assert(out@ =~= mid + elems_bytes(self.crdt.elems@.take(i + 1)));
            }
            i += 1;
        }
        proof {
            assert(self.crdt.elems@.take(n as int) =~= self.crdt.elems@);
        }
        push_text(&mut out, self.buffer.as_str());
        let h = self.history.len();
        push_u64(&mut out, h as u64);
        let ghost mid2 = out@;
        let mut j: usize = 0;
        while j < h
            invariant
                j <= h,
                h == self.history@.len(),
                out@ == mid2 + edits_bytes(crate::document::history_model(self.history@).take(
                    j as int,
                )),
            decreases h - j,
        {
            let ghost hm = crate::document::history_model(self.history@);
            let ghost pre = hm.take(j as int);
            push_edit(&mut out, &self.history[j]);
            proof {
                assert(hm[j as int] == crate::document::edit_model(self.history@[j as int]));
                assert(hm.take(j + 1) =~= pre.push(hm[j as int]));
                lemma_edits_bytes_snoc(pre, hm[j as int]);
                assert(out@ =~= mid2 + edits_bytes(hm.take(j + 1)));
            }
            j += 1;
        }
        proof {
            let hm = crate::document::history_model(self.history@);
            assert(hm.take(hm.len() as int) =~= hm);
            assert(self@.history.len() == h);
            assert(self@.elems.len() == n);
            assert(out@ =~= encode_doc_spec(self@, assigned_id));
        }
        out
    }
}

fn take_u64(bytes: &[u8], off: usize) -> (r: Result<(u64, usize), CodecError>)
    requires
        off <= bytes@.len(),
    ensures
        match r {
            Ok((x, j)) => parse_u64(bytes@, off as int) == Ok::<(u64, int), CodecError>((
                x,
                j as int,
            )) && off < j <= bytes@.len(),
            Err(e) => parse_u64(bytes@, off as int) == Err::<(u64, int), CodecError>(e),
        },
{
    let blen = bytes.len();
    if blen - off < 8 {
        return Err(CodecError::Truncated);
    }
    let x = read_le(bytes, off, 8);
    proof {
        lemma_le_val_bound(bytes@.subrange(off as int, off + 8));
        lemma_pow256_val();
    }
    Ok((x, off + 8))
}

fn take_char(bytes: &[u8], off: usize) -> (r: Result<(char, usize), CodecError>)
    requires
        off <= bytes@.len(),
    ensures
        match r {
            Ok((c, j)) => parse_char(bytes@, off as int) == Ok::<(char, int), CodecError>((
                c,
                j as int,
            )) && off < j <= bytes@.len(),
            Err(e) => parse_char(bytes@, off as int) == Err::<(char, int), CodecError>(e),
        },
{
    let blen = bytes.len();
    if blen - off < 4 {
        return Err(CodecError::Truncated);
    }
    let v = read_le(bytes, off, 4);
    proof {
        lemma_le_val_bound(bytes@.subrange(off as int, off + 4));
        lemma_pow256_val();
    }
    let v32 = v as u32;
    match char::from_u32(v32) {
        Option::Some(c) => {
            proof {
                vstd::utf8::char_u32_cast(c, v32);
                assert(le_val(bytes@.subrange(off as int, off + 4)) as u32 == v32);
                assert(c == ((le_val(bytes@.subrange(off as int, off + 4)) as u32) as char));
            }
            Ok((c, off + 4))
        },
        Option::None => Err(CodecError::Malformed),
    }
}

fn take_elem(bytes: &[u8], off: usize, clock: u64) -> (r: Result<(Elem, usize), CodecError>)
    requires
        off <= bytes@.len(),
    ensures
        match r {
            Ok((el, j)) => parse_elem(bytes@, off as int, clock) == Ok::<
                (Elem, int),
                CodecError,
            >((el, j as int)) && off < j <= bytes@.len() && el.ts <= clock && el.id.seq
                < u64::MAX,
            Err(e) => parse_elem(bytes@, off as int, clock) == Err::<(Elem, int), CodecError>(e),
        },
{
    let (rid, i1) = match take_u64(bytes, off) {
        Ok(p) => p,
        Err(e) => {
            return Err(e);
        },
    };
    let (seq, i2) = match take_u64(bytes, i1) {
        Ok(p) => p,
        Err(e) => {
            return Err(e);
        },
    };
    if seq == u64::MAX {
        return Err(CodecError::Malformed);
    }
    let (ts, i3) = match take_u64(bytes, i2) {
        Ok(p) => p,
        Err(e) => {
            return Err(e);
        },
    };
    if ts > clock {
        return Err(CodecError::Malformed);
    }
    let (ch, i4) = match take_char(bytes, i3) {
        Ok(p) => p,
        Err(e) => {
            return Err(e);
        },
    };
    let blen = bytes.len();
    if i4 >= blen {
        return Err(CodecError::Truncated);
    }
    let vb = *vstd::slice::slice_index_get(bytes, i4);
    if vb == 0 || vb == 1 {
        Ok((Elem { id: Id { rid, seq }, ts, ch, vis: vb == 1 }, i4 + 1))
    } else {
        Err(CodecError::Malformed)
    }
}

fn take_elems(bytes: &[u8], off: usize, n: u64, clock: u64) -> (r: Result<
    (Vec<Elem>, usize),
    CodecError,
>)
    requires
        off <= bytes@.len(),
    ensures
        match r {
            Ok((v, j)) => parse_elems(bytes@, off as int, n, clock) == Ok::<
                (Seq<Elem>, int),
                CodecError,
            >((v@, j as int)) && j <= bytes@.len() && (forall|k: int|
                0 <= k < v@.len() ==> (#[trigger] v@[k]).ts <= clock && v@[k].id.seq < u64::MAX),
            Err(e) => parse_elems(bytes@, off as int, n, clock) == Err::<
                (Seq<Elem>, int),
                CodecError,
            >(e),
        },
{
    let mut v: Vec<Elem> = Vec::new();
    let mut cur = off;
    let mut rem = n;
    loop
        invariant
            cur <= bytes@.len(),
            rem <= n,
            forall|k: int|
                0 <= k < v@.len() ==> (#[trigger] v@[k]).ts <= clock && v@[k].id.seq < u64::MAX,
            parse_elems(bytes@, off as int, n, clock) == (match parse_elems(
                bytes@,
                cur as int,
                rem,
                clock,
            ) {
                Ok((rest, end)) => Ok::<(Seq<Elem>, int), CodecError>((v@ + rest, end)),
                Err(e) => Err::<(Seq<Elem>, int), CodecError>(e),
            }),
        decreases rem,
    {
        if rem == 0 {
            proof {
                assert(v@ + Seq::<Elem>::empty() =~= v@);
            }
            return Ok((v, cur));
        }
        let ghost pre = v@;
        match take_elem(bytes, cur, clock) {
            Ok((el, j)) => {
                v.push(el);
                proof {
                    assert(pre + (seq![el] + parse_rest_elems(bytes@, j as int, (rem - 1) as u64, clock))
                        =~= v@ + parse_rest_elems(bytes@, j as int, (rem - 1) as u64, clock));
                }
                cur = j;
                rem = rem - 1;
            },
            Err(e) => {
                return Err(e);
            },
        }
    }
}

/// The element sequence a successful nested parse yields; arbitrary where
/// the parse fails.  Names the value so loop invariants can speak of it.
pub open spec fn parse_rest_elems(b: Seq<u8>, i: int, n: u64, clock: u64) -> Seq<Elem> {
    match parse_elems(b, i, n, clock) {
        Ok((rest, _)) => rest,
        Err(_) => Seq::empty(),
    }
}

fn take_text(bytes: &[u8], off: usize) -> (r: Result<(String, usize), CodecError>)
    requires
        off <= bytes@.len(),
    ensures
        match r {
            Ok((s, j)) => parse_text(bytes@, off as int) == Ok::<(Seq<char>, int), CodecError>((
                s@,
                j as int,
            )) && j <= bytes@.len(),
            Err(e) => parse_text(bytes@, off as int) == Err::<(Seq<char>, int), CodecError>(e),
        },
{
    let (len, i1) = match take_u64(bytes, off) {
        Ok(p) => p,
        Err(e) => {
            return Err(e);
        },
    };
    let blen = bytes.len();
    if len > (blen - i1) as u64 {
        return Err(CodecError::Truncated);
    }
    let l = len as usize;
    let sub = vstd::slice::slice_subrange(bytes, i1, i1 + l);
    match core::str::from_utf8(sub) {
        Ok(st) => {
            proof {
                vstd::utf8::encode_utf8_decode_utf8(st@);
                assert(st@ == decode_utf8(bytes@.subrange(i1 as int, i1 + len)));
            }
            Ok((st.to_owned(), i1 + l))
        },
        Err(_) => Err(CodecError::Malformed),
    }
}

fn take_id(bytes: &[u8], off: usize) -> (r: Result<(Id, usize), CodecError>)
    requires
        off <= bytes@.len(),
    ensures
        match r {
            Ok((id, j)) => parse_id(bytes@, off as int) == Ok::<(Id, int), CodecError>((
                id,
                j as int,
            )) && off < j <= bytes@.len(),
            Err(e) => parse_id(bytes@, off as int) == Err::<(Id, int), CodecError>(e),
        },
{
    let (rid, i1) = match take_u64(bytes, off) {
        Ok(p) => p,
        Err(e) => {
            return Err(e);
        },
    };
    let (seq, i2) = match take_u64(bytes, i1) {
        Ok(p) => p,
        Err(e) => {
            return Err(e);
        },
    };
    Ok((Id { rid, seq }, i2))
}

/// The identity sequence a successful nested parse yields.
pub open spec fn parse_rest_ids(b: Seq<u8>, i: int, n: u64) -> Seq<Id> {
    match parse_ids(b, i, n) {
        Ok((rest, _)) => rest,
        Err(_) => Seq::empty(),
    }
}

fn take_ids(bytes: &[u8], off: usize, n: u64) -> (r: Result<(Vec<Id>, usize), CodecError>)
    requires
        off <= bytes@.len(),
    ensures
        match r {
            Ok((v, j)) => parse_ids(bytes@, off as int, n) == Ok::<(Seq<Id>, int), CodecError>((
                v@,
                j as int,
            )) && j <= bytes@.len(),
            Err(e) => parse_ids(bytes@, off as int, n) == Err::<(Seq<Id>, int), CodecError>(e),
        },
{
    let mut v: Vec<Id> = Vec::new();
    let mut cur = off;
    let mut rem = n;
    loop
        invariant
            cur <= bytes@.len(),
            rem <= n,
            parse_ids(bytes@, off as int, n) == (match parse_ids(bytes@, cur as int, rem) {
                Ok((rest, end)) => Ok::<(Seq<Id>, int), CodecError>((v@ + rest, end)),
                Err(e) => Err::<(Seq<Id>, int), CodecError>(e),
            }),
        decreases rem,
    {
        if rem == 0 {
            proof {
                assert(v@ + Seq::<Id>::empty() =~= v@);
            }
            return Ok((v, cur));
        }
        let ghost pre = v@;
        match take_id(bytes, cur) {
            Ok((id, j)) => {
                v.push(id);
                proof {
                    assert(pre + (seq![id] + parse_rest_ids(bytes@, j as int, (rem - 1) as u64))
                        =~= v@ + parse_rest_ids(bytes@, j as int, (rem - 1) as u64));
                }
                cur = j;
                rem = rem - 1;
            },
            Err(e) => {
                return Err(e);
            },
        }
    }
}

fn take_opt_id(bytes: &[u8], off: usize) -> (r: Result<(Option<Id>, usize), CodecError>)
    requires
        off <= bytes@.len(),
    ensures
        match r {
            Ok((o, j)) => parse_opt_id(bytes@, off as int) == Ok::<
                (Option<Id>, int),
                CodecError,
            >((o, j as int)) && off < j <= bytes@.len(),
            Err(e) => parse_opt_id(bytes@, off as int) == Err::<(Option<Id>, int), CodecError>(e),
        },
{
    let blen = bytes.len();
    if off >= blen {
        return Err(CodecError::Truncated);
    }
    let t = *vstd::slice::slice_index_get(bytes, off);
    if t == 0 {
        Ok((Option::None, off + 1))
    } else if t == 1 {
        match take_id(bytes, off + 1) {
            Ok((id, j)) => Ok((Option::Some(id), j)),
            Err(e) => Err(e),
        }
    } else {
        Err(CodecError::Malformed)
    }
}

fn take_edit(bytes: &[u8], off: usize) -> (r: Result<(Edit, usize), CodecError>)
    requires
        off <= bytes@.len(),
    ensures
        match r {
            Ok((ed, j)) => parse_edit(bytes@, off as int) == Ok::<(EditModel, int), CodecError>((
                crate::document::edit_model(ed),
                j as int,
            )) && j <= bytes@.len() && crate::crdt::edit_wf(crate::document::edit_model(ed)),
            Err(e) => parse_edit(bytes@, off as int) == Err::<(EditModel, int), CodecError>(e),
        },
{
    let blen = bytes.len();
    if off >= blen {
        return Err(CodecError::Truncated);
    }
    let t = *vstd::slice::slice_index_get(bytes, off);
    if t == 0 {
        let (rid, i1) = match take_u64(bytes, off + 1) {
            Ok(p) => p,
            Err(e) => {
                return Err(e);
            },
        };
        let (seq, i2) = match take_u64(bytes, i1) {
            Ok(p) => p,
            Err(e) => {
                return Err(e);
            },
        };
        let (ts, i3) = match take_u64(bytes, i2) {
            Ok(p) => p,
            Err(e) => {
                return Err(e);
            },
        };
        let (left, i4) = match take_opt_id(bytes, i3) {
            Ok(p) => p,
            Err(e) => {
                return Err(e);
            },
        };
        let (text, i5) = match take_text(bytes, i4) {
            Ok(p) => p,
            Err(e) => {
                return Err(e);
            },
        };
        let clen = text.as_str().unicode_len();
        if seq > u64::MAX - (clen as u64) {
            return Err(CodecError::Malformed);
        }
        let ed = Edit::Inserted(
            crate::document::Insertion {
                text,
                crdt: crate::document::InsertAnchor { rid, seq, ts, left },
            },
        );
        Ok((ed, i5))
    } else if t == 1 {
        let (n, i1) = match take_u64(bytes, off + 1) {
            Ok(p) => p,
            Err(e) => {
                return Err(e);
            },
        };
        match take_ids(bytes, i1, n) {
            Ok((ids, i2)) => Ok((Edit::Deleted(crate::document::Deletion { ids }), i2)),
            Err(e) => Err(e),
        }
    } else {
        Err(CodecError::Malformed)
    }
}

/// The edit sequence a successful nested parse yields.
pub open spec fn parse_rest_edits(b: Seq<u8>, i: int, n: u64) -> Seq<EditModel> {
    match parse_edits(b, i, n) {
        Ok((rest, _)) => rest,
        Err(_) => Seq::empty(),
    }
}

fn take_edits(bytes: &[u8], off: usize, n: u64) -> (r: Result<(Vec<Edit>, usize), CodecError>)
    requires
        off <= bytes@.len(),
    ensures
        match r {
            Ok((v, j)) => parse_edits(bytes@, off as int, n) == Ok::<
                (Seq<EditModel>, int),
                CodecError,
            >((crate::document::history_model(v@), j as int)) && j <= bytes@.len()
                && crate::crdt::hist_wf(crate::document::history_model(v@)),
            Err(e) => parse_edits(bytes@, off as int, n) == Err::<
                (Seq<EditModel>, int),
                CodecError,
            >(e),
        },
{
    let mut v: Vec<Edit> = Vec::new();
    let mut cur = off;
    let mut rem = n;
    loop
        invariant
            cur <= bytes@.len(),
            rem <= n,
            crate::crdt::hist_wf(crate::document::history_model(v@)),
            parse_edits(bytes@, off as int, n) == (match parse_edits(bytes@, cur as int, rem) {
                Ok((rest, end)) => Ok::<(Seq<EditModel>, int), CodecError>((
                    crate::document::history_model(v@) + rest,
                    end,
                )),
                Err(e) => Err::<(Seq<EditModel>, int), CodecError>(e),
            }),
        decreases rem,
    {
        if rem == 0 {
            proof {
                assert(crate::document::history_model(v@) + Seq::<EditModel>::empty()
                    =~= crate::document::history_model(v@));
            }
            return Ok((v, cur));
        }
        let ghost pre = crate::document::history_model(v@);
        match take_edit(bytes, cur) {
            Ok((ed, j)) => {
                let ghost em = crate::document::edit_model(ed);
                v.push(ed);
                proof {
                    assert(crate::document::history_model(v@) =~= pre.push(em));
                    assert(pre + (seq![em] + parse_rest_edits(bytes@, j as int, (rem - 1) as u64))
                        =~= pre.push(em) + parse_rest_edits(bytes@, j as int, (rem - 1) as u64));
                }
                cur = j;
                rem = rem - 1;
            },
            Err(e) => {
                return Err(e);
            },
        }
    }
}

fn check_ids_distinct(elems: &Vec<Elem>) -> (r: bool)
    ensures
        r == crate::crdt::ids_distinct(elems@),
{
    let n = elems.len();
    let mut i: usize = 0;
    while i < n
        invariant
            i <= n,
            n == elems@.len(),
            forall|p: int, q: int| 0 <= p < q < n && p < i ==> elems@[p].id != elems@[q].id,
        decreases n - i,
    {
        let mut j: usize = i + 1;
        while j < n
            invariant
                i < j <= n,
                n == elems@.len(),
                forall|q: int| i < q < j ==> elems@[i as int].id != elems@[q].id,
            decreases n - j,
        {
            if elems[i].id == elems[j].id {
                return false;
            }
            j += 1;
        }
        i += 1;
    }
    true
}

fn buffer_matches(elems: &Vec<Elem>, buf: &str) -> (r: bool)
    ensures
        r == (buf@ == vis_chars(elems@)),
{
    let ghost s = elems@;
    let blen = buf.unicode_len();
    let n = elems.len();
    let mut i: usize = 0;
    let mut v: usize = 0;
    proof {
        assert(s.take(0) =~= Seq::<Elem>::empty());
        assert(buf@.subrange(0, 0) =~= Seq::<char>::empty());
    }
    while i < n
        invariant
            i <= n,
            n == s.len(),
            s == elems@,
            blen == buf@.len(),
            v <= blen,
            v == crate::crdt::vis_idx(s, i as int),
            vis_chars(s.take(i as int)) == buf@.subrange(0, v as int),
        decreases n - i,
    {
        let e = elems[i];
        proof {
            crate::crdt::lemma_vis_idx_step(s, i as int);
            assert(s.take(i + 1) =~= s.take(i as int).push(s[i as int]));
            crate::crdt::lemma_vis_chars_push(s.take(i as int), s[i as int]);
        }
        if e.vis {
            proof {
                crate::crdt::lemma_vis_at(s, i as int);
            }
            if v == blen {
                proof {
                    assert(vis_chars(s).len() > blen);
                }
                return false;
            }
            let c = buf.get_char(v);
            if c != e.ch {
                proof {
                    assert(vis_chars(s)[v as int] == e.ch);
                    assert(buf@[v as int] == c);
                }
                return false;
            }
            proof {
                assert(buf@.subrange(0, v + 1) =~= buf@.subrange(0, v as int).push(buf@[v as int]));
            }
            v += 1;
        }
        i += 1;
    }
    proof {
        assert(s.take(n as int) =~= s);
    }
    if v == blen {
        proof {
            assert(buf@.subrange(0, blen as int) =~= buf@);
        }
        true
    } else {
        proof {
            assert(vis_chars(s).len() == v < blen);
        }
        false
    }
}

/// The first sequence number `rid` can mint without colliding with
/// anything in `elems`.
fn next_seq_scan(elems: &Vec<Elem>, rid: u64) -> (r: u64)
    requires
        crate::crdt::seqs_lt_max(elems@),
    ensures
        r == next_seq_for(elems@, rid),
{
    let n = elems.len();
    let mut ns: u64 = 0;
    let mut i: usize = 0;
    while i < n
        invariant
            i <= n,
            n == elems@.len(),
            crate::crdt::seqs_lt_max(elems@),
            ns == next_seq_for(elems@.take(i as int), rid),
        decreases n - i,
    {
        let e = elems[i];
        if e.id.rid == rid && e.id.seq >= ns {
            ns = e.id.seq + 1;
        }
        proof {
            let pre = elems@.take(i as int);
            let cur = elems@.take(i + 1);
            assert(cur.drop_last() =~= pre);
            assert(cur.last() == elems@[i as int]);
        }
        i += 1;
    }
    proof {
        assert(elems@.take(n as int) =~= elems@);
    }
    ns
}

/// A decoded document before it is turned back into a [`Text`]: the
/// carried buffer, the reconstructed merge state, the carried history, and
/// the replica id the payload assigns to the decoder.
pub struct EncodedText {
    pub buffer: String,
    pub crdt: crate::crdt::Replica,
    pub history: Vec<Edit>,
    pub assigned_id: u64,
}

impl View for EncodedText {
    type V = TextModel;

    open spec fn view(&self) -> TextModel {
        TextModel {
            buffer: self.buffer@,
            elems: self.crdt.elems@,
            rid: self.crdt.id,
            next_seq: self.crdt.next_seq,
            clock: self.crdt.clock,
            history: crate::document::history_model(self.history@),
        }
    }
}

impl EncodedText {
    pub open spec fn wf(&self) -> bool {
        self@.wf() && self.assigned_id == self.crdt.id
    }

    /// Decode a document payload.  Exactly the payloads [`Text::encode`]
    /// produces are accepted; anything else is refused with the
    /// [`CodecError`] naming what is wrong with it.
    pub fn from_bytes(bytes: &[u8]) -> (r: Result<EncodedText, CodecError>)
        ensures
            match r {
                Ok(et) => decode_doc_spec(bytes@) == Ok::<TextModel, CodecError>(et@) && et.wf(),
                Err(e) => decode_doc_spec(bytes@) == Err::<TextModel, CodecError>(e),
            },
    {
        let blen = bytes.len();
        if blen < 1 {
            return Err(CodecError::Truncated);
        }
        let tag = *vstd::slice::slice_index_get(bytes, 0);
        if tag != TAG_DOC {
            return Err(CodecError::UnknownTag);
        }
        let (rid, i1) = match take_u64(bytes, 1) {
            Ok(p) => p,
            Err(e) => {
                return Err(e);
            },
        };
        let (clock, i2) = match take_u64(bytes, i1) {
            Ok(p) => p,
            Err(e) => {
                return Err(e);
            },
        };
        let (n_elems, i3) = match take_u64(bytes, i2) {
            Ok(p) => p,
            Err(e) => {
                return Err(e);
            },
        };
        let (elems, i4) = match take_elems(bytes, i3, n_elems, clock) {
            Ok(p) => p,
            Err(e) => {
                return Err(e);
            },
        };
        let (buffer, i5) = match take_text(bytes, i4) {
            Ok(p) => p,
            Err(e) => {
                return Err(e);
            },
        };
        let (n_hist, i6) = match take_u64(bytes, i5) {
            Ok(p) => p,
            Err(e) => {
                return Err(e);
            },
        };
        let (history, i7) = match take_edits(bytes, i6, n_hist) {
            Ok(p) => p,
            Err(e) => {
                return Err(e);
            },
        };
        if i7 != blen {
            return Err(CodecError::Malformed);
        }
        if !check_ids_distinct(&elems) {
            return Err(CodecError::Malformed);
        }
        if !buffer_matches(&elems, buffer.as_str()) {
            return Err(CodecError::Malformed);
        }
        let next_seq = next_seq_scan(&elems, rid);
        proof {
            crate::crdt::lemma_next_seq_for(elems@, rid);
        }
        Ok(
            EncodedText {
                buffer,
                crdt: crate::crdt::Replica { id: rid, next_seq, clock, elems },
                history,
                assigned_id: rid,
            },
        )
    }
}

impl From<EncodedText> for crate::document::Text {
    /// Rebuild the document a payload carries; it continues editing under
    /// the payload's assigned replica id.
    fn from(value: EncodedText) -> (r: crate::document::Text)
        ensures
            r@ == value@,
    {
        crate::document::Text { buffer: value.buffer, crdt: value.crdt, history: value.history }
    }
}

impl vstd::std_specs::convert::FromSpecImpl<EncodedText> for crate::document::Text {
    open spec fn obeys_from_spec() -> bool {
        true
    }

    open spec fn from_spec(value: EncodedText) -> crate::document::Text {
        crate::document::Text { buffer: value.buffer, crdt: value.crdt, history: value.history }
    }
}

impl crate::document::Text {
    /// Decode a document payload into a live document.
    pub fn decode(bytes: &[u8]) -> (r: Result<crate::document::Text, CodecError>)
        ensures
            match r {
                Ok(d) => decode_doc_spec(bytes@) == Ok::<TextModel, CodecError>(d@) && d.wf(),
                Err(e) => decode_doc_spec(bytes@) == Err::<TextModel, CodecError>(e),
            },
    {
        match EncodedText::from_bytes(bytes) {
            Ok(et) => Ok(
                crate::document::Text { buffer: et.buffer, crdt: et.crdt, history: et.history },
            ),
            Err(e) => Err(e),
        }
    }
}

/// Decode a single edit payload from the live-edit topic.
pub fn decode_edit(bytes: &[u8]) -> (r: Result<Edit, CodecError>)
    ensures
        match r {
            Ok(ed) => decode_edit_spec(bytes@) == Ok::<EditModel, CodecError>(
                crate::document::edit_model(ed),
            ) && crate::crdt::edit_wf(crate::document::edit_model(ed)),
            Err(e) => decode_edit_spec(bytes@) == Err::<EditModel, CodecError>(e),
        },
{
    let blen = bytes.len();
    if blen < 1 {
        return Err(CodecError::Truncated);
    }
    let tag = *vstd::slice::slice_index_get(bytes, 0);
    if tag != TAG_EDIT {
        return Err(CodecError::UnknownTag);
    }
    match take_edit(bytes, 1) {
        Ok((ed, j)) => {
            if j != blen {
                return Err(CodecError::Malformed);
            }
            Ok(ed)
        },
        Err(e) => Err(e),
    }
}

pub proof fn lemma_u64_bytes_len(x: u64)
    ensures
        u64_bytes(x).len() == 8,
{
    lemma_le_bytes_len(x as nat, 8);
}

pub proof fn lemma_parse_u64_at(b: Seq<u8>, i: int, x: u64)
    requires
        0 <= i,
        i + 8 <= b.len(),
        b.subrange(i, i + 8) == u64_bytes(x),
    ensures
        parse_u64(b, i) == Ok::<(u64, int), CodecError>((x, i + 8)),
{
    lemma_pow256_val();
    lemma_le_roundtrip(x as nat, 8);
}

pub proof fn lemma_parse_char_at(b: Seq<u8>, i: int, c: char)
    requires
        0 <= i,
        i + 4 <= b.len(),
        b.subrange(i, i + 4) == le_bytes(c as nat, 4),
    ensures
        parse_char(b, i) == Ok::<(char, int), CodecError>((c, i + 4)),
{
    lemma_pow256_val();
    lemma_le_roundtrip(c as nat, 4);
    let v = le_val(b.subrange(i, i + 4));
    assert(v == c as nat);
    vstd::utf8::char_is_scalar(c);
    assert(v as u32 == c as u32);
    assert(vstd::utf8::is_scalar(v as u32));
    vstd::utf8::char_u32_cast(c, v as u32);
}

pub proof fn lemma_elem_bytes_len(e: Elem)
    ensures
        elem_bytes(e).len() == 29,
{
    lemma_u64_bytes_len(e.id.rid);
    lemma_u64_bytes_len(e.id.seq);
    lemma_u64_bytes_len(e.ts);
    lemma_le_bytes_len(e.ch as nat, 4);
}

pub proof fn lemma_parse_elem_at(b: Seq<u8>, i: int, e: Elem, clock: u64)
    requires
        0 <= i,
        i + 29 <= b.len(),
        b.subrange(i, i + 29) == elem_bytes(e),
        e.ts <= clock,
        e.id.seq < u64::MAX,
    ensures
        parse_elem(b, i, clock) == Ok::<(Elem, int), CodecError>((e, i + 29)),
{
    lemma_elem_bytes_len(e);
    lemma_u64_bytes_len(e.id.rid);
    lemma_u64_bytes_len(e.id.seq);
    lemma_u64_bytes_len(e.ts);
    lemma_le_bytes_len(e.ch as nat, 4);
    let pre = u64_bytes(e.id.rid) + u64_bytes(e.id.seq) + u64_bytes(e.ts) + le_bytes(
        e.ch as nat,
        4,
    );
    lemma_subrange_concat(b, i, pre, seq![vis_byte(e.vis)]);
    lemma_subrange_concat(
        b,
        i,
        u64_bytes(e.id.rid) + u64_bytes(e.id.seq) + u64_bytes(e.ts),
        le_bytes(e.ch as nat, 4),
    );
    lemma_subrange_concat(b, i, u64_bytes(e.id.rid) + u64_bytes(e.id.seq), u64_bytes(e.ts));
    lemma_subrange_concat(b, i, u64_bytes(e.id.rid), u64_bytes(e.id.seq));
    lemma_parse_u64_at(b, i, e.id.rid);
    lemma_parse_u64_at(b, i + 8, e.id.seq);
    lemma_parse_u64_at(b, i + 16, e.ts);
    lemma_parse_char_at(b, i + 24, e.ch);
    assert(b.subrange(i + 28, i + 29)[0] == b[i + 28]);
    assert(b[i + 28] == vis_byte(e.vis));
}

pub proof fn lemma_parse_elems_at(b: Seq<u8>, i: int, s: Seq<Elem>, clock: u64)
    requires
        0 <= i,
        s.len() <= u64::MAX,
        i + elems_bytes(s).len() <= b.len(),
        b.subrange(i, i + elems_bytes(s).len()) == elems_bytes(s),
        forall|k: int| 0 <= k < s.len() ==> (#[trigger] s[k]).ts <= clock && s[k].id.seq
            < u64::MAX,
    ensures
        parse_elems(b, i, s.len() as u64, clock) == Ok::<(Seq<Elem>, int), CodecError>((
            s,
            i + elems_bytes(s).len(),
        )),
    decreases s.len(),
{
    if s.len() == 0 {
        assert(parse_elems(b, i, 0, clock) == Ok::<(Seq<Elem>, int), CodecError>((
            Seq::<Elem>::empty(),
            i,
        )));
        assert(s =~= Seq::<Elem>::empty());
    } else {
        lemma_elem_bytes_len(s[0]);
        lemma_subrange_concat(b, i, elem_bytes(s[0]), elems_bytes(s.drop_first()));
        lemma_parse_elem_at(b, i, s[0], clock);
        assert(forall|k: int|
            0 <= k < s.drop_first().len() ==> (#[trigger] s.drop_first()[k]).ts <= clock
                && s.drop_first()[k].id.seq < u64::MAX) by {
            assert(forall|k: int| 0 <= k < s.len() - 1 ==> s.drop_first()[k] == s[k + 1]);
        }
        lemma_parse_elems_at(b, i + 29, s.drop_first(), clock);
        assert(seq![s[0]] + s.drop_first() =~= s);
        assert((s.len() as u64 - 1) as u64 == s.drop_first().len() as u64);
    }
}

pub proof fn lemma_parse_text_at(b: Seq<u8>, i: int, t: Seq<char>)
    requires
        0 <= i,
        encode_utf8(t).len() <= u64::MAX,
        i + text_bytes(t).len() <= b.len(),
        b.subrange(i, i + text_bytes(t).len()) == text_bytes(t),
    ensures
        parse_text(b, i) == Ok::<(Seq<char>, int), CodecError>((t, i + text_bytes(t).len())),
{
    let u = encode_utf8(t);
    let lw = u64_bytes(u.len() as u64);
    lemma_u64_bytes_len(u.len() as u64);
    lemma_subrange_concat(b, i, lw, u);
    lemma_parse_u64_at(b, i, u.len() as u64);
    vstd::utf8::encode_utf8_valid_utf8(t);
    vstd::utf8::encode_utf8_decode_utf8(t);
}

pub proof fn lemma_parse_id_at(b: Seq<u8>, i: int, id: Id)
    requires
        0 <= i,
        i + 16 <= b.len(),
        b.subrange(i, i + 16) == id_bytes(id),
    ensures
        parse_id(b, i) == Ok::<(Id, int), CodecError>((id, i + 16)),
{
    lemma_u64_bytes_len(id.rid);
    lemma_u64_bytes_len(id.seq);
    lemma_subrange_concat(b, i, u64_bytes(id.rid), u64_bytes(id.seq));
    lemma_parse_u64_at(b, i, id.rid);
    lemma_parse_u64_at(b, i + 8, id.seq);
}

pub proof fn lemma_ids_bytes_len(ids: Seq<Id>)
    ensures
        ids_bytes(ids).len() == 16 * ids.len(),
    decreases ids.len(),
{
    if ids.len() > 0 {
        lemma_u64_bytes_len(ids[0].rid);
        lemma_u64_bytes_len(ids[0].seq);
        lemma_ids_bytes_len(ids.drop_first());
    }
}

pub proof fn lemma_parse_ids_at(b: Seq<u8>, i: int, ids: Seq<Id>)
    requires
        0 <= i,
        ids.len() <= u64::MAX,
        i + ids_bytes(ids).len() <= b.len(),
        b.subrange(i, i + ids_bytes(ids).len()) == ids_bytes(ids),
    ensures
        parse_ids(b, i, ids.len() as u64) == Ok::<(Seq<Id>, int), CodecError>((
            ids,
            i + ids_bytes(ids).len(),
        )),
    decreases ids.len(),
{
    if ids.len() == 0 {
        assert(ids =~= Seq::<Id>::empty());
    } else {
        lemma_u64_bytes_len(ids[0].rid);
        lemma_u64_bytes_len(ids[0].seq);
        assert(id_bytes(ids[0]).len() == 16);
        lemma_subrange_concat(b, i, id_bytes(ids[0]), ids_bytes(ids.drop_first()));
        lemma_parse_id_at(b, i, ids[0]);
        lemma_parse_ids_at(b, i + 16, ids.drop_first());
        assert(seq![ids[0]] + ids.drop_first() =~= ids);
        assert((ids.len() as u64 - 1) as u64 == ids.drop_first().len() as u64);
    }
}

pub proof fn lemma_parse_opt_id_at(b: Seq<u8>, i: int, o: Option<Id>)
    requires
        0 <= i,
        i + opt_id_bytes(o).len() <= b.len(),
        b.subrange(i, i + opt_id_bytes(o).len()) == opt_id_bytes(o),
    ensures
        parse_opt_id(b, i) == Ok::<(Option<Id>, int), CodecError>((
            o,
            i + opt_id_bytes(o).len(),
        )),
{
    match o {
        Option::None => {
            assert(b.subrange(i, i + 1)[0] == b[i]);
            assert(b[i] == 0);
        },
        Option::Some(id) => {
            lemma_u64_bytes_len(id.rid);
            lemma_u64_bytes_len(id.seq);
            lemma_subrange_concat(b, i, seq![1u8], id_bytes(id));
            assert(b.subrange(i, i + 1)[0] == b[i]);
            assert(b[i] == 1);
            lemma_parse_id_at(b, i + 1, id);
        },
    }
}

/// The sizes a single edit must respect for its encoding to carry its
/// counts in 8 bytes; every edit a real document holds does.
pub open spec fn edit_bounded(e: EditModel) -> bool {
    match e {
        EditModel::Ins(m) => encode_utf8(m.text).len() <= u64::MAX,
        EditModel::Del(ids) => ids.len() <= u64::MAX,
    }
}

pub proof fn lemma_parse_edit_at(b: Seq<u8>, i: int, e: EditModel)
    requires
        0 <= i,
        crate::crdt::edit_wf(e),
        edit_bounded(e),
        i + edit_bytes(e).len() <= b.len(),
        b.subrange(i, i + edit_bytes(e).len()) == edit_bytes(e),
    ensures
        parse_edit(b, i) == Ok::<(EditModel, int), CodecError>((e, i + edit_bytes(e).len())),
{
    match e {
        EditModel::Ins(m) => {
            lemma_u64_bytes_len(m.rid);
            lemma_u64_bytes_len(m.seq);
            lemma_u64_bytes_len(m.ts);
            lemma_u64_bytes_len(encode_utf8(m.text).len() as u64);
            let pre = seq![0u8] + u64_bytes(m.rid) + u64_bytes(m.seq) + u64_bytes(m.ts)
                + opt_id_bytes(m.left);
            lemma_subrange_concat(b, i, pre, text_bytes(m.text));
            lemma_subrange_concat(
                b,
                i,
                seq![0u8] + u64_bytes(m.rid) + u64_bytes(m.seq) + u64_bytes(m.ts),
                opt_id_bytes(m.left),
            );
            lemma_subrange_concat(b, i, seq![0u8] + u64_bytes(m.rid) + u64_bytes(m.seq), u64_bytes(m.ts));
            lemma_subrange_concat(b, i, seq![0u8] + u64_bytes(m.rid), u64_bytes(m.seq));
            lemma_subrange_concat(b, i, seq![0u8], u64_bytes(m.rid));
            assert(b.subrange(i, i + 1)[0] == b[i]);
            assert(b[i] == 0);
            lemma_parse_u64_at(b, i + 1, m.rid);
            lemma_parse_u64_at(b, i + 9, m.seq);
            lemma_parse_u64_at(b, i + 17, m.ts);
            lemma_parse_opt_id_at(b, i + 25, m.left);
            let lo = opt_id_bytes(m.left).len() as int;
            lemma_parse_text_at(b, i + 25 + lo, m.text);
            vstd::utf8::encode_utf8_decode_utf8(m.text);
        },
        EditModel::Del(ids) => {
            lemma_u64_bytes_len(ids.len() as u64);
            lemma_ids_bytes_len(ids);
            lemma_subrange_concat(b, i, seq![1u8] + u64_bytes(ids.len() as u64), ids_bytes(ids));
            lemma_subrange_concat(b, i, seq![1u8], u64_bytes(ids.len() as u64));
            assert(b.subrange(i, i + 1)[0] == b[i]);
            assert(b[i] == 1);
            lemma_parse_u64_at(b, i + 1, ids.len() as u64);
            lemma_parse_ids_at(b, i + 9, ids);
        },
    }
}

pub proof fn lemma_parse_edits_at(b: Seq<u8>, i: int, h: Seq<EditModel>)
    requires
        0 <= i,
        h.len() <= u64::MAX,
        crate::crdt::hist_wf(h),
        forall|k: int| 0 <= k < h.len() ==> edit_bounded(#[trigger] h[k]),
        i + edits_bytes(h).len() <= b.len(),
        b.subrange(i, i + edits_bytes(h).len()) == edits_bytes(h),
    ensures
        parse_edits(b, i, h.len() as u64) == Ok::<(Seq<EditModel>, int), CodecError>((
            h,
            i + edits_bytes(h).len(),
        )),
    decreases h.len(),
{
    if h.len() == 0 {
        assert(h =~= Seq::<EditModel>::empty());
    } else {
        lemma_subrange_concat(b, i, edit_bytes(h[0]), edits_bytes(h.drop_first()));
        lemma_parse_edit_at(b, i, h[0]);
        assert(crate::crdt::hist_wf(h.drop_first()) && forall|k: int|
            0 <= k < h.drop_first().len() ==> edit_bounded(#[trigger] h.drop_first()[k])) by {
            assert(forall|k: int| 0 <= k < h.len() - 1 ==> h.drop_first()[k] == h[k + 1]);
        }
        lemma_parse_edits_at(b, i + edit_bytes(h[0]).len(), h.drop_first());
        assert(seq![h[0]] + h.drop_first() =~= h);
        assert((h.len() as u64 - 1) as u64 == h.drop_first().len() as u64);
    }
}

/// The sizes a document must respect for its encoding to carry its counts
/// in 8 bytes; every real document does.
pub open spec fn doc_bounded(m: TextModel) -> bool {
    &&& m.elems.len() <= u64::MAX
    &&& m.history.len() <= u64::MAX
    &&& encode_utf8(m.buffer).len() <= u64::MAX
    &&& forall|k: int| 0 <= k < m.history.len() ==> edit_bounded(#[trigger] m.history[k])
}

/// Round trip: decoding an encoded document succeeds and yields a document
/// with the same buffer, merge state and history, editing under the
/// assigned replica id with a mint counter past everything already
/// present, so its continued edits collide with nothing.
pub proof fn lemma_round_trip(m: TextModel, assigned: u64)
    requires
        m.wf(),
        doc_bounded(m),
    ensures
        decode_doc_spec(encode_doc_spec(m, assigned)) == Ok::<TextModel, CodecError>(
            TextModel {
                rid: assigned,
                next_seq: next_seq_for(m.elems, assigned),
                ..m
            },
        ),
        (TextModel { rid: assigned, next_seq: next_seq_for(m.elems, assigned), ..m }).wf(),
{
    let b = encode_doc_spec(m, assigned);
    let pa = u64_bytes(assigned);
    let pc = u64_bytes(m.clock);
    let pn = u64_bytes(m.elems.len() as u64);
    let pe = elems_bytes(m.elems);
    let ps = text_bytes(m.buffer);
    let ph = u64_bytes(m.history.len() as u64);
    let pd = edits_bytes(m.history);
    lemma_u64_bytes_len(assigned);
    lemma_u64_bytes_len(m.clock);
    lemma_u64_bytes_len(m.elems.len() as u64);
    lemma_u64_bytes_len(m.history.len() as u64);
    lemma_u64_bytes_len(encode_utf8(m.buffer).len() as u64);
    assert(b.subrange(0, b.len() as int) =~= b);
    lemma_subrange_concat(b, 0, seq![TAG_DOC] + pa + pc + pn + pe + ps + ph, pd);
    lemma_subrange_concat(b, 0, seq![TAG_DOC] + pa + pc + pn + pe + ps, ph);
    lemma_subrange_concat(b, 0, seq![TAG_DOC] + pa + pc + pn + pe, ps);
    lemma_subrange_concat(b, 0, seq![TAG_DOC] + pa + pc + pn, pe);
    lemma_subrange_concat(b, 0, seq![TAG_DOC] + pa + pc, pn);
    lemma_subrange_concat(b, 0, seq![TAG_DOC] + pa, pc);
    lemma_subrange_concat(b, 0, seq![TAG_DOC], pa);
    assert(b.subrange(0, 1)[0] == b[0]);
    assert(b[0] == TAG_DOC);
    lemma_parse_u64_at(b, 1, assigned);
    lemma_parse_u64_at(b, 9, m.clock);
    lemma_parse_u64_at(b, 17, m.elems.len() as u64);
    assert(forall|k: int|
        0 <= k < m.elems.len() ==> (#[trigger] m.elems[k]).ts <= m.clock && m.elems[k].id.seq
            < u64::MAX);
    lemma_parse_elems_at(b, 25, m.elems, m.clock);
    let ie = 25 + pe.len() as int;
    lemma_parse_text_at(b, ie, m.buffer);
    let is2 = ie + ps.len() as int;
    lemma_parse_u64_at(b, is2, m.history.len() as u64);
    lemma_parse_edits_at(b, is2 + 8, m.history);
    crate::crdt::lemma_next_seq_for(m.elems, assigned);
    assert(decode_doc_spec(b) == Ok::<TextModel, CodecError>(
        TextModel { rid: assigned, next_seq: next_seq_for(m.elems, assigned), ..m },
    ));
}

/// Round trip for a single edit: decoding an encoded edit yields it back.
pub proof fn lemma_edit_round_trip(e: EditModel)
    requires
        crate::crdt::edit_wf(e),
        edit_bounded(e),
    ensures
        decode_edit_spec(encode_edit_spec(e)) == Ok::<EditModel, CodecError>(e),
{
    let b = encode_edit_spec(e);
    assert(b.subrange(0, b.len() as int) =~= b);
    lemma_subrange_concat(b, 0, seq![TAG_EDIT], edit_bytes(e));
    assert(b.subrange(0, 1)[0] == b[0]);
    assert(b[0] == TAG_EDIT);
    lemma_parse_edit_at(b, 1, e);
}

} // verus!
