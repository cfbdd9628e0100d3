//! Block codec for posting lists.
//!
//! A posting list is stored as a run of full blocks of exactly
//! [`NUM_DOCS_PER_BLOCK`] documents followed by a variable-int-coded tail.
//! A full block packs its 128 doc-id deltas (and, when present, its 128
//! term frequencies) at a fixed byte width of 1, 2 or 4 chosen per block; the
//! tail stores each value as a variable-length integer. Sorted sequences are
//! delta-coded against a base: the decoded documents are the prefix sums of
//! the stored deltas added to the base.

use vstd::prelude::*;
use crate::vint::{vint_dec, vint_enc, lemma_vint_round_trip, serialize_vint, deserialize_vint};

verus! {

/// Number of documents held by every full block of a posting list.
pub const NUM_DOCS_PER_BLOCK: usize = 128;

/// An accepted packed byte width.
pub open spec fn width_ok(w: int) -> bool {
    w == 1 || w == 2 || w == 4
}

/// Value of the first `w` bytes of `s`, little endian.
pub open spec fn le_val(s: Seq<u8>, w: int) -> int
    decreases w,
{
    if w <= 0 || s.len() == 0 {
        0
    } else {
        s[0] + 256 * le_val(s.skip(1), w - 1)
    }
}

/// The `w` little-endian bytes of `v`.
pub open spec fn le_bytes(v: int, w: int) -> Seq<u8>
    decreases w,
{
    if w <= 0 {
        Seq::empty()
    } else {
        seq![(v % 256) as u8] + le_bytes(v / 256, w - 1)
    }
}

/// The concatenation of the `w`-byte encodings of the values of `vs`.
pub open spec fn le_cat(vs: Seq<int>, w: int) -> Seq<u8>
    decreases vs.len(),
{
    if vs.len() == 0 {
        Seq::empty()
    } else {
        le_bytes(vs[0], w) + le_cat(vs.skip(1), w)
    }
}

/// The `count` values packed at width `w` from the front of `s`.
pub open spec fn le_seq_vals(s: Seq<u8>, w: int, count: int) -> Seq<int> {
    Seq::new(count as nat, |i: int| le_val(s.skip(w * i), w))
}

/// Sum of a sequence of values.
pub open spec fn seq_sum(vs: Seq<int>) -> int
    decreases vs.len(),
{
    if vs.len() == 0 {
        0
    } else {
        seq_sum(vs.drop_last()) + vs.last()
    }
}

/// Prefix sums of the deltas `ds` added to `base`: the decoded sorted values.
pub open spec fn psum_docs(base: int, ds: Seq<int>) -> Seq<u32> {
    Seq::new(ds.len(), |i: int| (base + seq_sum(ds.take(i + 1))) as u32)
}

pub open spec fn all_nonneg(vs: Seq<int>) -> bool {
    forall|i: int| 0 <= i < vs.len() ==> #[trigger] vs[i] >= 0
}

pub open spec fn all_in_u32(vs: Seq<int>) -> bool {
    forall|i: int| 0 <= i < vs.len() ==> 0 <= #[trigger] vs[i] < 0x1_0000_0000
}

pub open spec fn to_u32s(vs: Seq<int>) -> Seq<u32> {
    Seq::new(vs.len(), |i: int| vs[i] as u32)
}

/// Decodes `count` variable-length integers from the front of `s`, returning
/// the values and the number of bytes consumed.
pub open spec fn vint_seq_dec(s: Seq<u8>, count: int) -> Option<(Seq<int>, int)>
    decreases count,
{
    if count <= 0 {
        Some((Seq::empty(), 0))
    } else {
        match vint_dec(s) {
            None => None,
            Some((v, k)) => match vint_seq_dec(s.skip(k), count - 1) {
                None => None,
                Some((vs, k2)) => Some((seq![v] + vs, k + k2)),
            },
        }
    }
}

/// The concatenation of the variable-length encodings of the values of `vs`.
pub open spec fn vint_cat(vs: Seq<int>) -> Seq<u8>
    decreases vs.len(),
{
    if vs.len() == 0 {
        Seq::empty()
    } else {
        vint_enc(vs[0]) + vint_cat(vs.skip(1))
    }
}

/// Decodes a full sorted block: a width byte, then 128 packed deltas,
/// prefix-summed onto `base`. `None` when the bytes are too short, the width
/// byte is invalid, or a decoded document would not fit in 32 bits.
pub open spec fn block_dec_sorted(s: Seq<u8>, base: u32) -> Option<(Seq<u32>, int)> {
    if s.len() >= 1 && width_ok(s[0] as int) && s.len() >= 1 + (s[0] as int) * 128 {
        let w = s[0] as int;
        let ds = le_seq_vals(s.skip(1), w, 128);
        if base + seq_sum(ds) < 0x1_0000_0000 {
            Some((psum_docs(base as int, ds), 1 + w * 128))
        } else {
            None
        }
    } else {
        None
    }
}

/// Decodes a full unsorted block: a width byte, then 128 packed values.
pub open spec fn block_dec_unsorted(s: Seq<u8>) -> Option<(Seq<u32>, int)> {
    if s.len() >= 1 && width_ok(s[0] as int) && s.len() >= 1 + (s[0] as int) * 128 {
        let w = s[0] as int;
        Some((to_u32s(le_seq_vals(s.skip(1), w, 128)), 1 + w * 128))
    } else {
        None
    }
}

/// Decodes a sorted tail of `n` variable-int deltas prefix-summed onto `base`.
pub open spec fn tail_dec_sorted(s: Seq<u8>, base: u32, n: int) -> Option<(Seq<u32>, int)> {
    match vint_seq_dec(s, n) {
        None => None,
        Some((ds, k)) => if base + seq_sum(ds) < 0x1_0000_0000 {
            Some((psum_docs(base as int, ds), k))
        } else {
            None
        },
    }
}

/// Decodes an unsorted tail of `n` variable-int values.
pub open spec fn tail_dec_unsorted(s: Seq<u8>, n: int) -> Option<(Seq<u32>, int)> {
    match vint_seq_dec(s, n) {
        None => None,
        Some((vs, k)) => if all_in_u32(vs) {
            Some((to_u32s(vs), k))
        } else {
            None
        },
    }
}

pub proof fn lemma_le_val_bound(s: Seq<u8>, w: int)
    requires
        0 <= w <= 4,
    ensures
        0 <= le_val(s, w),
        w >= 1 && s.len() >= 1 ==> le_val(s, w) < pow256(w),
    decreases w,
{
    if w >= 1 && s.len() >= 1 {
        lemma_le_val_bound(s.skip(1), w - 1);
        if w == 1 {
            assert(le_val(s.skip(1), 0) == 0);
        } else {
            if s.skip(1).len() == 0 {
                assert(le_val(s.skip(1), w - 1) == 0);
            }
            assert(le_val(s.skip(1), w - 1) < pow256(w - 1));
        }
    } else if w >= 1 {
        assert(le_val(s, w) == 0);
    }
}

/// 256 raised to `w`, for the widths in use.
pub open spec fn pow256(w: int) -> int {
    if w <= 0 {
        1
    } else if w == 1 {
        0x100
    } else if w == 2 {
        0x1_0000
    } else if w == 3 {
        0x100_0000
    } else {
        0x1_0000_0000
    }
}

pub proof fn lemma_le_bytes_len(v: int, w: int)
    requires
        w >= 0,
    ensures
        le_bytes(v, w).len() == w,
    decreases w,
{
    if w > 0 {
        lemma_le_bytes_len(v / 256, w - 1);
    }
}

/// Round trip: the packed bytes of `v` decode back to `v`.
pub proof fn lemma_le_bytes_val(v: int, w: int, rest: Seq<u8>)
    requires
        1 <= w <= 4,
        0 <= v < pow256(w),
    ensures
        le_val(le_bytes(v, w) + rest, w) == v,
    decreases w,
{
    let s = le_bytes(v, w) + rest;
    lemma_le_bytes_len(v, w);
    assert(s[0] == (v % 256) as u8);
    if w == 1 {
        assert(v % 256 == v);
        assert(le_val(s.skip(1), 0) == 0);
    } else {
        assert(0 <= v / 256 < pow256(w - 1)) by (nonlinear_arith)
            requires 0 <= v < pow256(w), pow256(w) == 256 * pow256(w - 1);
        lemma_le_bytes_val(v / 256, w - 1, rest);
        assert(s.skip(1) =~= le_bytes(v / 256, w - 1) + rest);
        assert(v % 256 + 256 * (v / 256) == v) by (nonlinear_arith);
    }
}

pub proof fn lemma_le_cat_len(vs: Seq<int>, w: int)
    requires
        w >= 0,
    ensures
        le_cat(vs, w).len() == w * vs.len(),
    decreases vs.len(),
{
    if vs.len() > 0 {
        lemma_le_cat_len(vs.skip(1), w);
        lemma_le_bytes_len(vs[0], w);
        let n = vs.len() as int;
        assert(w * n == w + w * (n - 1)) by (nonlinear_arith)
            requires n >= 1;
        assert(vs.skip(1).len() == n - 1);
    } else {
        assert(vs.len() == 0);
        assert(w * 0 == 0) by (nonlinear_arith);
    }
}

/// Decoding `vs.len()` packed values out of the packed bytes of `vs` (plus
/// anything after) yields `vs` again.
pub proof fn lemma_le_cat_dec(vs: Seq<int>, w: int, rest: Seq<u8>)
    requires
        1 <= w <= 4,
        forall|i: int| 0 <= i < vs.len() ==> 0 <= #[trigger] vs[i] < pow256(w),
    ensures
        le_seq_vals(le_cat(vs, w) + rest, w, vs.len() as int) =~= vs,
    decreases vs.len(),
{
    let s = le_cat(vs, w) + rest;
    if vs.len() > 0 {
        lemma_le_bytes_len(vs[0], w);
        lemma_le_cat_len(vs, w);
        lemma_le_cat_len(vs.skip(1), w);
        lemma_le_cat_dec(vs.skip(1), w, rest);
        assert(s.skip(w) =~= le_cat(vs.skip(1), w) + rest);
        lemma_le_bytes_val(vs[0], w, le_cat(vs.skip(1), w) + rest);
        assert(s =~= le_bytes(vs[0], w) + (le_cat(vs.skip(1), w) + rest));
        assert forall|i: int| 0 <= i < vs.len() implies le_seq_vals(s, w, vs.len() as int)[i]
            == vs[i] by {
            if i == 0 {
                assert(s.skip(0) =~= s);
            } else {
                assert(w * i == w + w * (i - 1)) by (nonlinear_arith);
                assert(0 <= w * (i - 1) && w * i <= w * vs.len()) by (nonlinear_arith)
                    requires 1 <= w, 1 <= i < vs.len();
                assert(s.skip(w * i) =~= s.skip(w).skip(w * (i - 1)));
                assert(le_seq_vals(s.skip(w), w, vs.len() - 1)[i - 1] == vs.skip(1)[i - 1]);
            }
        }
    }
}

/// Same for variable-int coding: the encodings of `vs` followed by anything
/// decode back to `vs`, consuming exactly the encodings.
pub proof fn lemma_vint_cat_dec(vs: Seq<int>, rest: Seq<u8>)
    requires
        forall|i: int| 0 <= i < vs.len() ==> 0 <= #[trigger] vs[i] < 0x1_0000_0000_0000_0000,
    ensures
        vint_seq_dec(vint_cat(vs) + rest, vs.len() as int) == Some(
            (vs, vint_cat(vs).len() as int),
        ),
    decreases vs.len(),
{
    let s = vint_cat(vs) + rest;
    if vs.len() == 0 {
        assert(vint_seq_dec(s, 0) == Some((Seq::<int>::empty(), 0int)));
        assert(vs =~= Seq::<int>::empty());
    } else {
        lemma_vint_round_trip(vs[0], vint_cat(vs.skip(1)) + rest);
        assert(s =~= vint_enc(vs[0]) + (vint_cat(vs.skip(1)) + rest));
        let k = vint_enc(vs[0]).len() as int;
        assert(s.skip(k) =~= vint_cat(vs.skip(1)) + rest);
        lemma_vint_cat_dec(vs.skip(1), rest);
        assert(seq![vs[0]] + vs.skip(1) =~= vs);
    }
}

pub proof fn lemma_seq_sum_take_step(vs: Seq<int>, i: int)
    requires
        0 <= i < vs.len(),
    ensures
        seq_sum(vs.take(i + 1)) == seq_sum(vs.take(i)) + vs[i],
{
    assert(vs.take(i + 1).drop_last() =~= vs.take(i));
    assert(vs.take(i + 1).last() == vs[i]);
}

pub proof fn lemma_seq_sum_nonneg_mono(vs: Seq<int>, i: int)
    requires
        all_nonneg(vs),
        0 <= i <= vs.len(),
    ensures
        0 <= seq_sum(vs.take(i)) <= seq_sum(vs),
    decreases vs.len() - i,
{
    lemma_seq_sum_nonneg_mono_zero(vs, i);
    if i == vs.len() {
        assert(vs.take(i) =~= vs);
    } else {
        lemma_seq_sum_take_step(vs, i);
        assert(vs[i] >= 0);
        lemma_seq_sum_nonneg_mono(vs, i + 1);
    }
}

proof fn lemma_seq_sum_nonneg_mono_zero(vs: Seq<int>, i: int)
    requires
        all_nonneg(vs),
        0 <= i <= vs.len(),
    ensures
        seq_sum(vs.take(i)) >= 0,
    decreases i,
{
    if i > 0 {
        lemma_seq_sum_take_step(vs, i - 1);
        lemma_seq_sum_nonneg_mono_zero(vs, i - 1);
    } else {
        assert(vs.take(0) =~= Seq::<int>::empty());
    }
}

/// Reads one value of width `w` at `p`, little endian.
fn read_le(data: &Vec<u8>, p: usize, w: usize) -> (d: u32)
    requires
        width_ok(w as int),
        p + w <= data@.len(),
    ensures
        d == le_val(data@.skip(p as int), w as int),
{
    let dlen: usize = data.len();
    let ghost s = data@.skip(p as int);
    proof {
        assert(s.len() == data@.len() - p);
        assert(s[0] == data@[p as int]);
    }
    if w == 1 {
        proof {
            assert(le_val(s, 1) == s[0] + 256 * le_val(s.skip(1), 0));
            assert(le_val(s.skip(1), 0) == 0);
        }
        data[p] as u32
    } else if w == 2 {
        let b0 = data[p] as u32;
        let b1 = data[p + 1] as u32;
        proof {
            assert(s.skip(1) =~= data@.skip(p + 1));
            assert(s.skip(1)[0] == data@[p + 1]);
            assert(le_val(s.skip(1), 1) == s.skip(1)[0] + 256 * le_val(s.skip(1).skip(1), 0));
            assert(le_val(s.skip(1).skip(1), 0) == 0);
            assert(le_val(s, 2) == s[0] + 256 * le_val(s.skip(1), 1));
        }
        b0 + 256 * b1
    } else {
        let b0 = data[p] as u32;
        let b1 = data[p + 1] as u32;
        let b2 = data[p + 2] as u32;
        let b3 = data[p + 3] as u32;
        proof {
            let s1 = s.skip(1);
            let s2 = s.skip(2);
            let s3 = s.skip(3);
            let s4 = s.skip(4);
            assert(s1 =~= data@.skip(p + 1));
            assert(s2 =~= data@.skip(p + 2));
            assert(s3 =~= data@.skip(p + 3));
            assert(s1.skip(1) =~= s2);
            assert(s2.skip(1) =~= s3);
            assert(s3.skip(1) =~= s4);
            assert(s1[0] == data@[p + 1]);
            assert(s2[0] == data@[p + 2]);
            assert(s3[0] == data@[p + 3]);
            assert(le_val(s3, 1) == s3[0] + 256 * le_val(s4, 0));
            assert(le_val(s4, 0) == 0);
            assert(le_val(s2, 2) == s2[0] + 256 * le_val(s3, 1));
            assert(le_val(s1, 3) == s1[0] + 256 * le_val(s2, 2));
            assert(le_val(s, 4) == s[0] + 256 * le_val(s1, 3));
        }
        b0 + 256 * (b1 + 256 * (b2 + 256 * b3))
    }
}

/// Appends the `w` little-endian bytes of `d`.
fn write_le(d: u32, w: usize, out: &mut Vec<u8>)
    requires
        width_ok(w as int),
        d < pow256(w as int),
    ensures
        final(out)@ == old(out)@ + le_bytes(d as int, w as int),
{
    proof {
        lemma_le_bytes_len(d as int, w as int);
    }
    if w == 1 {
        out.push((d % 256) as u8);
        proof {
            assert(le_bytes(d as int, 1) =~= seq![(d as int % 256) as u8]);
            assert(final(out)@ =~= old(out)@ + le_bytes(d as int, 1));
        }
    } else if w == 2 {
        out.push((d % 256) as u8);
        out.push(((d / 256) % 256) as u8);
        proof {
            assert(le_bytes(d as int, 2) =~= seq![(d as int % 256) as u8, ((d as int / 256)
                % 256) as u8]) by {
                assert(le_bytes(d as int / 256, 1) =~= seq![((d as int / 256) % 256) as u8]);
            }
            assert(final(out)@ =~= old(out)@ + le_bytes(d as int, 2));
        }
    } else {
        out.push((d % 256) as u8);
        out.push(((d / 256) % 256) as u8);
        out.push(((d / 0x1_0000) % 256) as u8);
        out.push((d / 0x100_0000) as u8);
        proof {
            let v = d as int;
            let v1 = v / 256;
            let v2 = v1 / 256;
            let v3 = v2 / 256;
            assert(v2 == v / 0x1_0000 && v3 == v / 0x100_0000) by (nonlinear_arith)
                requires 0 <= v, v1 == v / 256, v2 == v1 / 256, v3 == v2 / 256;
            assert(0 <= v3 < 256) by (nonlinear_arith)
                requires 0 <= v < 0x1_0000_0000, v3 == v / 0x100_0000;
            assert(v3 % 256 == v3);
            assert(v3 / 256 == 0) by (nonlinear_arith)
                requires 0 <= v3 < 256;
            lemma_le_bytes_len(v, 4);
            lemma_le_bytes_len(v1, 3);
            lemma_le_bytes_len(v2, 2);
            lemma_le_bytes_len(v3, 1);
            assert(le_bytes(v3, 1) =~= seq![(v3 % 256) as u8]);
            assert(le_bytes(v2, 2) =~= seq![(v2 % 256) as u8] + le_bytes(v3, 1));
            assert(le_bytes(v1, 3) =~= seq![(v1 % 256) as u8] + le_bytes(v2, 2));
            assert(le_bytes(v, 4) =~= seq![(v % 256) as u8] + le_bytes(v1, 3));
            assert(le_bytes(v, 4) =~= seq![(v % 256) as u8, (v1 % 256) as u8, (v2 % 256) as u8, (
            v3 % 256) as u8]);
            assert(final(out)@ =~= old(out)@ + le_bytes(v, 4));
        }
    }
}

/// Decoder owning a reusable output buffer of up to one block of values.
///
/// `output` always holds exactly the values of the block decoded last (empty
/// before any decode), so the buffer is reset, not reallocated, across terms.
pub struct BlockDecoder {
    output: Vec<u32>,
}

impl BlockDecoder {
    /// The decoded values of the current block.
    pub closed spec fn out(&self) -> Seq<u32> {
        self.output@
    }

    /// An empty decoder.
    pub fn new() -> (r: BlockDecoder)
        ensures
            r.out() == Seq::<u32>::empty(),
    {
        BlockDecoder { output: Vec::new() }
    }

    /// A decoder whose block holds `NUM_DOCS_PER_BLOCK` copies of `val`,
    /// used as the frequency block when frequencies are not stored.
    pub fn with_val(val: u32) -> (r: BlockDecoder)
        ensures
            r.out() =~= Seq::new(128, |i: int| val),
    {
        let mut output: Vec<u32> = Vec::new();
        let mut i: usize = 0;
        while i < 128
            invariant
                i <= 128,
                output@ =~= Seq::new(i as nat, |j: int| val),
            decreases 128 - i,
        {
            output.push(val);
            i += 1;
        }
        BlockDecoder { output }
    }

    /// Empties the block, keeping the buffer's capacity.
    pub fn clear(&mut self)
        ensures
            final(self).out() == Seq::<u32>::empty(),
    {
        self.output.clear();
    }

    /// Number of values in the current block.
    pub fn output_len(&self) -> (r: usize)
        ensures
            r == self.out().len(),
    {
        self.output.len()
    }

    /// The values of the current block.
    pub fn output_array(&self) -> (r: &Vec<u32>)
        ensures
            r@ == self.out(),
    {
        &self.output
    }

    /// The value at `idx` in the current block.
    pub fn output(&self, idx: usize) -> (r: u32)
        requires
            idx < self.out().len(),
        ensures
            r == self.out()[idx as int],
    {
        self.output[idx]
    }

    /// Decodes a full sorted block from `data` at `offset` with delta base
    /// `doc_offset`; returns the offset just past the block.
    pub fn uncompress_block_sorted(&mut self, data: &Vec<u8>, offset: usize, doc_offset: u32) -> (r:
        usize)
        requires
            offset <= data@.len(),
            block_dec_sorted(data@.skip(offset as int), doc_offset) is Some,
        ensures
            ({
                let (docs, used) = block_dec_sorted(data@.skip(offset as int), doc_offset)->Some_0;
                final(self).out() == docs && r == offset + used && r <= data@.len()
            }),
    {
        let dlen: usize = data.len();
        let ghost s = data@.skip(offset as int);
        let w = data[offset] as usize;
        proof {
            assert(s[0] == data@[offset as int]);
        }
        let ghost ds = le_seq_vals(s.skip(1), w as int, 128);
        let ghost docs = psum_docs(doc_offset as int, ds);
        proof {
            assert forall|j: int| 0 <= j < 128 implies #[trigger] ds[j] >= 0 by {
                lemma_le_val_bound(s.skip(1).skip(w * j), w as int);
            }
        }
        self.output.clear();
        proof {
            assert(ds.take(0) =~= Seq::<int>::empty());
        }
        let mut cur: u32 = doc_offset;
        let mut i: usize = 0;
        while i < 128
            invariant
                i <= 128,
                width_ok(w as int),
                dlen == data@.len(),
                offset + 1 + w * 128 <= data@.len(),
                s == data@.skip(offset as int),
                ds == le_seq_vals(s.skip(1), w as int, 128),
                docs == psum_docs(doc_offset as int, ds),
                all_nonneg(ds),
                doc_offset + seq_sum(ds) < 0x1_0000_0000,
                self.output@ =~= docs.take(i as int),
                cur == doc_offset + seq_sum(ds.take(i as int)),
            decreases 128 - i,
        {
            proof {
                assert(w * i + w <= w * 128) by (nonlinear_arith)
                    requires i < 128, width_ok(w as int);
                assert(w * i >= 0) by (nonlinear_arith)
                    requires i >= 0, w >= 1;
            }
            let p = offset + 1 + w * i;
            let d = read_le(data, p, w);
            proof {
                assert(data@.skip(p as int) =~= s.skip(1).skip(w * i));
                assert(ds[i as int] == le_val(s.skip(1).skip(w * i), w as int));
                lemma_seq_sum_take_step(ds, i as int);
                lemma_seq_sum_nonneg_mono(ds, i + 1);
            }
            cur = cur + d;
            self.output.push(cur);
            proof {
                assert(self.output@ =~= docs.take(i + 1));
            }
            i += 1;
        }
        proof {
            assert(docs.take(128) =~= docs);
        }
        offset + 1 + w * 128
    }

    /// Decodes a full unsorted block from `data` at `offset`.
    pub fn uncompress_block_unsorted(&mut self, data: &Vec<u8>, offset: usize) -> (r: usize)
        requires
            offset <= data@.len(),
            block_dec_unsorted(data@.skip(offset as int)) is Some,
        ensures
            ({
                let (vals, used) = block_dec_unsorted(data@.skip(offset as int))->Some_0;
                final(self).out() == vals && r == offset + used && r <= data@.len()
            }),
    {
        let dlen: usize = data.len();
        let ghost s = data@.skip(offset as int);
        let w = data[offset] as usize;
        proof {
            assert(s[0] == data@[offset as int]);
        }
        let ghost ds = le_seq_vals(s.skip(1), w as int, 128);
        let ghost vals = to_u32s(ds);
        self.output.clear();
        let mut i: usize = 0;
        while i < 128
            invariant
                i <= 128,
                width_ok(w as int),
                dlen == data@.len(),
                offset + 1 + w * 128 <= data@.len(),
                s == data@.skip(offset as int),
                ds == le_seq_vals(s.skip(1), w as int, 128),
                vals == to_u32s(ds),
                self.output@ =~= vals.take(i as int),
            decreases 128 - i,
        {
            proof {
                assert(w * i + w <= w * 128) by (nonlinear_arith)
                    requires i < 128, width_ok(w as int);
                assert(w * i >= 0) by (nonlinear_arith)
                    requires i >= 0, w >= 1;
            }
            let p = offset + 1 + w * i;
            let d = read_le(data, p, w);
            proof {
                assert(data@.skip(p as int) =~= s.skip(1).skip(w * i));
                assert(ds[i as int] == le_val(s.skip(1).skip(w * i), w as int));
                lemma_le_val_bound(s.skip(1).skip(w * i), w as int);
            }
            self.output.push(d);
            proof {
                assert(self.output@ =~= vals.take(i + 1));
            }
            i += 1;
        }
        proof {
            assert(vals.take(128) =~= vals);
        }
        offset + 1 + w * 128
    }

    /// Decodes a sorted tail of `n` variable-int deltas at `offset` with base
    /// `doc_offset`.
    pub fn uncompress_vint_sorted(
        &mut self,
        data: &Vec<u8>,
        offset: usize,
        doc_offset: u32,
        n: usize,
    ) -> (r: usize)
        requires
            offset <= data@.len(),
            tail_dec_sorted(data@.skip(offset as int), doc_offset, n as int) is Some,
        ensures
            ({
                let (docs, used) = tail_dec_sorted(
                    data@.skip(offset as int),
                    doc_offset,
                    n as int,
                )->Some_0;
                final(self).out() == docs && r == offset + used && r <= data@.len()
            }),
    {
        let dlen: usize = data.len();
        let ghost s = data@.skip(offset as int);
        let ghost (ds, kk) = vint_seq_dec(s, n as int)->Some_0;
        let ghost docs = psum_docs(doc_offset as int, ds);
        proof {
            lemma_vint_seq_dec_props(s, n as int);
            assert(ds.skip(0) =~= ds);
            assert(ds.take(0) =~= Seq::<int>::empty());
        }
        self.output.clear();
        let mut cur: u32 = doc_offset;
        let mut p: usize = offset;
        let mut i: usize = 0;
        while i < n
            invariant
                i <= n,
                offset <= p <= data@.len(),
                s == data@.skip(offset as int),
                vint_seq_dec(s, n as int) == Some((ds, kk)),
                docs == psum_docs(doc_offset as int, ds),
                all_nonneg(ds),
                ds.len() == n,
                doc_offset + seq_sum(ds) < 0x1_0000_0000,
                vint_seq_dec(data@.skip(p as int), n - i) == Some(
                    (ds.skip(i as int), kk - (p - offset)),
                ),
                self.output@ =~= docs.take(i as int),
                cur == doc_offset + seq_sum(ds.take(i as int)),
            decreases n - i,
        {
            proof {
                lemma_vint_seq_dec_props(data@.skip(p as int), n - i);
            }
            let step = deserialize_vint(data, p);
            let (v, end) = step.unwrap();
            proof {
                let (v0, k0) = vint_dec(data@.skip(p as int))->Some_0;
                assert(v0 == ds.skip(i as int)[0]);
                assert(ds.skip(i as int)[0] == ds[i as int]);
                lemma_seq_sum_take_step(ds, i as int);
                lemma_seq_sum_nonneg_mono(ds, i + 1);
                assert(data@.skip(p as int).skip(k0) =~= data@.skip(p + k0));
                assert(ds.skip(i as int).skip(1) =~= ds.skip(i + 1));
            }
            cur = cur + (v as u32);
            self.output.push(cur);
            p = end;
            proof {
                assert(self.output@ =~= docs.take(i + 1));
            }
            i += 1;
        }
        proof {
            assert(docs.take(n as int) =~= docs);
            assert(ds.skip(n as int) =~= Seq::<int>::empty());
            assert(kk - (p - offset) == 0);
        }
        p
    }

    /// Decodes an unsorted tail of `n` variable-int values at `offset`.
    pub fn uncompress_vint_unsorted(&mut self, data: &Vec<u8>, offset: usize, n: usize) -> (r:
        usize)
        requires
            offset <= data@.len(),
            tail_dec_unsorted(data@.skip(offset as int), n as int) is Some,
        ensures
            ({
                let (vals, used) = tail_dec_unsorted(data@.skip(offset as int), n as int)->Some_0;
                final(self).out() == vals && r == offset + used && r <= data@.len()
            }),
    {
        let dlen: usize = data.len();
        let ghost s = data@.skip(offset as int);
        let ghost (ds, kk) = vint_seq_dec(s, n as int)->Some_0;
        let ghost vals = to_u32s(ds);
        proof {
            lemma_vint_seq_dec_props(s, n as int);
            assert(ds.skip(0) =~= ds);
        }
        self.output.clear();
        let mut p: usize = offset;
        let mut i: usize = 0;
        while i < n
            invariant
                i <= n,
                offset <= p <= data@.len(),
                s == data@.skip(offset as int),
                vint_seq_dec(s, n as int) == Some((ds, kk)),
                all_in_u32(ds),
                ds.len() == n,
                vals == to_u32s(ds),
                vint_seq_dec(data@.skip(p as int), n - i) == Some(
                    (ds.skip(i as int), kk - (p - offset)),
                ),
                self.output@ =~= vals.take(i as int),
            decreases n - i,
        {
            proof {
                lemma_vint_seq_dec_props(data@.skip(p as int), n - i);
            }
            let step = deserialize_vint(data, p);
            let (v, end) = step.unwrap();
            proof {
                let (v0, k0) = vint_dec(data@.skip(p as int))->Some_0;
                assert(v0 == ds.skip(i as int)[0]);
                assert(ds.skip(i as int)[0] == ds[i as int]);
                assert(data@.skip(p as int).skip(k0) =~= data@.skip(p + k0));
                assert(ds.skip(i as int).skip(1) =~= ds.skip(i + 1));
            }
            self.output.push(v as u32);
            p = end;
            proof {
                assert(self.output@ =~= vals.take(i + 1));
            }
            i += 1;
        }
        proof {
            assert(vals.take(n as int) =~= vals);
        }
        p
    }
}

/// Structural facts about `vint_seq_dec` used when consuming it stepwise.
pub proof fn lemma_vint_seq_dec_props(s: Seq<u8>, count: int)
    requires
        vint_seq_dec(s, count) is Some,
    ensures
        ({
            let (vs, k) = vint_seq_dec(s, count)->Some_0;
            vs.len() == if count <= 0 { 0 } else { count } && 0 <= k <= s.len() && all_nonneg(vs)
                && (forall|i: int|
                0 <= i < vs.len() ==> #[trigger] vs[i] < 0x1_0000_0000_0000_0000) && (count > 0
                ==> vint_dec(s) is Some && ({
                let (v0, k0) = vint_dec(s)->Some_0;
                vs[0] == v0 && k0 <= k && vint_seq_dec(s.skip(k0), count - 1) == Some(
                    (vs.skip(1), k - k0),
                )
            }))
        }),
    decreases count,
{
    if count > 0 {
        let (v0, k0) = vint_dec(s)->Some_0;
        lemma_vint_dec_len(s);
        lemma_vint_seq_dec_props(s.skip(k0), count - 1);
        let (vs1, k1) = vint_seq_dec(s.skip(k0), count - 1)->Some_0;
        assert((seq![v0] + vs1).skip(1) =~= vs1);
        let vs = seq![v0] + vs1;
        assert forall|i: int| 0 <= i < vs.len() implies 0 <= #[trigger] vs[i]
            < 0x1_0000_0000_0000_0000 by {
            if i > 0 {
                assert(vs[i] == vs1[i - 1]);
            }
        }
    }
}

pub proof fn lemma_vint_dec_len(s: Seq<u8>)
    requires
        vint_dec(s) is Some,
    ensures
        1 <= vint_dec(s)->Some_0.1 <= s.len(),
        0 <= vint_dec(s)->Some_0.0 < 0x1_0000_0000_0000_0000,
    decreases s.len(),
{
    if s.len() > 0 && s[0] < 128 {
        if vint_dec(s.skip(1)) is Some {
            lemma_vint_dec_len(s.skip(1));
        }
    }
}

/// Packs the 128 sorted documents of a full block as deltas against `base`.
#[verifier::rlimit(60)]
pub fn compress_block_sorted(docs: &Vec<u32>, base: u32, out: &mut Vec<u8>)
    requires
        docs@.len() == 128,
        base <= docs@[0],
        forall|i: int| 0 < i < 128 ==> docs@[i - 1] < #[trigger] docs@[i],
    ensures
        final(out)@.len() > old(out)@.len(),
        final(out)@.take(old(out)@.len() as int) == old(out)@,
        forall|rest: Seq<u8>|
            #[trigger] block_dec_sorted(final(out)@.skip(old(out)@.len() as int) + rest, base)
                == Some((docs@, final(out)@.len() - old(out)@.len())),
{
    let ghost n0 = out@.len() as int;
    // choose the narrowest width that fits every delta
    let mut maxd: u32 = 0;
    let mut i: usize = 0;
    let mut prev: u32 = base;
    while i < 128
        invariant
            i <= 128,
            docs@.len() == 128,
            base <= docs@[0],
            forall|j: int| 0 < j < 128 ==> docs@[j - 1] < #[trigger] docs@[j],
            prev == if i == 0 { base } else { docs@[i - 1] },
            i > 0 ==> base <= docs@[i - 1],
            forall|j: int| 0 <= j < i ==> #[trigger] delta_at(docs@, base as int, j) <= maxd,
        decreases 128 - i,
    {
        let d = docs[i] - prev;
        if d > maxd {
            maxd = d;
        }
        prev = docs[i];
        i += 1;
    }
    let w: usize = if maxd < 0x100 {
        1
    } else if maxd < 0x1_0000 {
        2
    } else {
        4
    };
    let ghost ds = Seq::new(128, |j: int| delta_at(docs@, base as int, j));
    out.push(w as u8);
    let mut prev2: u32 = base;
    let mut k: usize = 0;
    while k < 128
        invariant
            k <= 128,
            width_ok(w as int),
            docs@.len() == 128,
            base <= docs@[0],
            forall|j: int| 0 < j < 128 ==> docs@[j - 1] < #[trigger] docs@[j],
            forall|j: int| 0 <= j < 128 ==> #[trigger] delta_at(docs@, base as int, j) <= maxd,
            maxd < pow256(w as int),
            ds == Seq::new(128, |j: int| delta_at(docs@, base as int, j)),
            prev2 == if k == 0 { base } else { docs@[k - 1] },
            k > 0 ==> base <= docs@[k - 1],
            out@ =~= old(out)@ + seq![w as u8] + le_cat(ds.take(k as int), w as int),
        decreases 128 - k,
    {
        let d = docs[k] - prev2;
        proof {
            assert(ds.take(k as int) =~= ds.take(k + 1).drop_last());
            lemma_le_cat_snoc(ds.take(k + 1), w as int);
            assert(ds.take(k + 1).drop_last() =~= ds.take(k as int));
            assert(ds[k as int] == delta_at(docs@, base as int, k as int));
        }
        write_le(d, w, out);
        proof {
            assert(out@ =~= old(out)@ + seq![w as u8] + le_cat(ds.take(k + 1), w as int));
        }
        prev2 = docs[k];
        k += 1;
    }
    proof {
        assert(ds.take(128) =~= ds);
        let enc = seq![w as u8] + le_cat(ds, w as int);
        assert(final(out)@.skip(n0) =~= enc);
        lemma_le_cat_len(ds, w as int);
        assert forall|rest: Seq<u8>|
            #[trigger] block_dec_sorted(final(out)@.skip(n0) + rest, base) == Some(
                (docs@, final(out)@.len() - n0),
            ) by {
            let s = enc + rest;
            assert(s[0] == w as u8);
            assert(s.len() >= 1 + w * 128);
            assert(s.skip(1) =~= le_cat(ds, w as int) + rest);
            lemma_le_cat_dec(ds, w as int, rest);
            assert(le_seq_vals(s.skip(1), w as int, 128) =~= ds);
            lemma_psum_of_deltas(docs@, base as int);
            assert(base + seq_sum(ds) < 0x1_0000_0000);
            assert(psum_docs(base as int, ds) =~= docs@);
        }
    }
}

/// The delta stored at index `j` of a sorted block.
pub open spec fn delta_at(docs: Seq<u32>, base: int, j: int) -> int {
    if j == 0 {
        docs[0] - base
    } else {
        docs[j] - docs[j - 1]
    }
}

proof fn lemma_le_cat_snoc(vs: Seq<int>, w: int)
    requires
        w >= 0,
        vs.len() > 0,
    ensures
        le_cat(vs, w) =~= le_cat(vs.drop_last(), w) + le_bytes(vs.last(), w),
    decreases vs.len(),
{
    if vs.len() == 1 {
        assert(vs.skip(1) =~= Seq::<int>::empty());
        assert(vs.drop_last() =~= Seq::<int>::empty());
    } else {
        lemma_le_cat_snoc(vs.skip(1), w);
        assert(vs.skip(1).drop_last() =~= vs.drop_last().skip(1));
        assert(vs.skip(1).last() == vs.last());
        assert(vs.drop_last()[0] == vs[0]);
    }
}

/// Prefix sums of the deltas of a sorted sequence give the sequence back.
proof fn lemma_psum_of_deltas(docs: Seq<u32>, base: int)
    requires
        docs.len() > 0,
        0 <= base <= docs[0],
        forall|i: int| 0 < i < docs.len() ==> docs[i - 1] < #[trigger] docs[i],
    ensures
        ({
            let ds = Seq::new(docs.len(), |j: int| delta_at(docs, base, j));
            base + seq_sum(ds) < 0x1_0000_0000 && psum_docs(base, ds) =~= docs
                && all_nonneg(ds)
        }),
{
    let ds = Seq::new(docs.len(), |j: int| delta_at(docs, base, j));
    assert forall|i: int| 0 <= i < docs.len() implies base + seq_sum(#[trigger] ds.take(i + 1))
        == docs[i] by {
        lemma_psum_of_deltas_step(docs, base, i);
    }
    assert(ds.take(docs.len() as int) =~= ds);
    assert(base + seq_sum(ds.take((docs.len() - 1) + 1)) == docs[docs.len() - 1]);
    assert(ds.take((docs.len() - 1) + 1) == ds);
}

proof fn lemma_psum_of_deltas_step(docs: Seq<u32>, base: int, i: int)
    requires
        docs.len() > 0,
        0 <= base <= docs[0],
        forall|j: int| 0 < j < docs.len() ==> docs[j - 1] < #[trigger] docs[j],
        0 <= i < docs.len(),
    ensures
        base + seq_sum(Seq::new(docs.len(), |j: int| delta_at(docs, base, j)).take(i + 1))
            == docs[i],
    decreases i,
{
    let ds = Seq::new(docs.len(), |j: int| delta_at(docs, base, j));
    lemma_seq_sum_take_step(ds, i);
    if i == 0 {
        assert(ds.take(0) =~= Seq::<int>::empty());
    } else {
        lemma_psum_of_deltas_step(docs, base, i - 1);
    }
}

/// Packs 128 unsorted values as a full block.
pub fn compress_block_unsorted(vals: &Vec<u32>, out: &mut Vec<u8>)
    requires
        vals@.len() == 128,
    ensures
        final(out)@.len() > old(out)@.len(),
        final(out)@.take(old(out)@.len() as int) == old(out)@,
        forall|rest: Seq<u8>|
            #[trigger] block_dec_unsorted(final(out)@.skip(old(out)@.len() as int) + rest) == Some(
                (vals@, final(out)@.len() - old(out)@.len()),
            ),
{
    let ghost n0 = out@.len() as int;
    let mut maxd: u32 = 0;
    let mut i: usize = 0;
    while i < 128
        invariant
            i <= 128,
            vals@.len() == 128,
            forall|j: int| 0 <= j < i ==> #[trigger] vals@[j] <= maxd,
        decreases 128 - i,
    {
        if vals[i] > maxd {
            maxd = vals[i];
        }
        i += 1;
    }
    let w: usize = if maxd < 0x100 {
        1
    } else if maxd < 0x1_0000 {
        2
    } else {
        4
    };
    let ghost ds = Seq::new(128, |j: int| vals@[j] as int);
    out.push(w as u8);
    let mut k: usize = 0;
    while k < 128
        invariant
            k <= 128,
            width_ok(w as int),
            vals@.len() == 128,
            forall|j: int| 0 <= j < 128 ==> #[trigger] vals@[j] <= maxd,
            maxd < pow256(w as int),
            ds == Seq::new(128, |j: int| vals@[j] as int),
            out@ =~= old(out)@ + seq![w as u8] + le_cat(ds.take(k as int), w as int),
        decreases 128 - k,
    {
        proof {
            lemma_le_cat_snoc(ds.take(k + 1), w as int);
            assert(ds.take(k + 1).drop_last() =~= ds.take(k as int));
        }
        write_le(vals[k], w, out);
        proof {
            assert(out@ =~= old(out)@ + seq![w as u8] + le_cat(ds.take(k + 1), w as int));
        }
        k += 1;
    }
    proof {
        assert(ds.take(128) =~= ds);
        let enc = seq![w as u8] + le_cat(ds, w as int);
        assert(final(out)@.skip(n0) =~= enc);
        lemma_le_cat_len(ds, w as int);
        assert forall|rest: Seq<u8>|
            #[trigger] block_dec_unsorted(final(out)@.skip(n0) + rest) == Some(
                (vals@, final(out)@.len() - n0),
            ) by {
            let s = enc + rest;
            assert(s[0] == w as u8);
            assert(s.len() >= 1 + w * 128);
            assert(s.skip(1) =~= le_cat(ds, w as int) + rest);
            lemma_le_cat_dec(ds, w as int, rest);
            assert(le_seq_vals(s.skip(1), w as int, 128) =~= ds);
            assert(to_u32s(ds) =~= vals@);
        }
    }
}

/// Writes a sorted tail as variable-int deltas against `base`.
pub fn compress_vint_sorted(docs: &Vec<u32>, base: u32, out: &mut Vec<u8>)
    requires
        docs@.len() > 0 ==> base <= docs@[0],
        forall|i: int| 0 < i < docs@.len() ==> docs@[i - 1] < #[trigger] docs@[i],
    ensures
        final(out)@.len() >= old(out)@.len(),
        final(out)@.take(old(out)@.len() as int) == old(out)@,
        forall|rest: Seq<u8>|
            #[trigger] tail_dec_sorted(
                final(out)@.skip(old(out)@.len() as int) + rest,
                base,
                docs@.len() as int,
            ) == Some((docs@, final(out)@.len() - old(out)@.len())),
{
    let ghost n0 = out@.len() as int;
    let ghost ds = Seq::new(docs@.len(), |j: int| delta_at(docs@, base as int, j));
    let mut prev: u32 = base;
    let mut k: usize = 0;
    while k < docs.len()
        invariant
            k <= docs@.len(),
            docs@.len() > 0 ==> base <= docs@[0],
            forall|j: int| 0 < j < docs@.len() ==> docs@[j - 1] < #[trigger] docs@[j],
            ds == Seq::new(docs@.len(), |j: int| delta_at(docs@, base as int, j)),
            prev == if k == 0 { base } else { docs@[k - 1] },
            k > 0 ==> base <= docs@[k - 1],
            out@ =~= old(out)@ + vint_cat(ds.take(k as int)),
        decreases docs@.len() - k,
    {
        let d = docs[k] - prev;
        proof {
            lemma_vint_cat_snoc(ds.take(k + 1));
            assert(ds.take(k + 1).drop_last() =~= ds.take(k as int));
        }
        serialize_vint(d as u64, out);
        proof {
            assert(out@ =~= old(out)@ + vint_cat(ds.take(k + 1)));
        }
        prev = docs[k];
        k += 1;
    }
    proof {
        assert(ds.take(docs@.len() as int) =~= ds);
        let enc = vint_cat(ds);
        assert(final(out)@.skip(n0) =~= enc);
        assert forall|rest: Seq<u8>|
            #[trigger] tail_dec_sorted(final(out)@.skip(n0) + rest, base, docs@.len() as int)
                == Some((docs@, final(out)@.len() - n0)) by {
            lemma_vint_cat_dec(ds, rest);
            if docs@.len() > 0 {
                lemma_psum_of_deltas(docs@, base as int);
            } else {
                assert(psum_docs(base as int, ds) =~= docs@);
            }
        }
    }
}

/// Writes an unsorted tail as variable-int values.
pub fn compress_vint_unsorted(vals: &Vec<u32>, out: &mut Vec<u8>)
    ensures
        final(out)@.len() >= old(out)@.len(),
        final(out)@.take(old(out)@.len() as int) == old(out)@,
        forall|rest: Seq<u8>|
            #[trigger] tail_dec_unsorted(
                final(out)@.skip(old(out)@.len() as int) + rest,
                vals@.len() as int,
            ) == Some((vals@, final(out)@.len() - old(out)@.len())),
{
    let ghost n0 = out@.len() as int;
    let ghost ds = Seq::new(vals@.len(), |j: int| vals@[j] as int);
    let mut k: usize = 0;
    while k < vals.len()
        invariant
            k <= vals@.len(),
            ds == Seq::new(vals@.len(), |j: int| vals@[j] as int),
            out@ =~= old(out)@ + vint_cat(ds.take(k as int)),
        decreases vals@.len() - k,
    {
        proof {
            lemma_vint_cat_snoc(ds.take(k + 1));
            assert(ds.take(k + 1).drop_last() =~= ds.take(k as int));
        }
        serialize_vint(vals[k] as u64, out);
        proof {
            assert(out@ =~= old(out)@ + vint_cat(ds.take(k + 1)));
        }
        k += 1;
    }
    proof {
        assert(ds.take(vals@.len() as int) =~= ds);
        let enc = vint_cat(ds);
        assert(final(out)@.skip(n0) =~= enc);
        assert forall|rest: Seq<u8>|
            #[trigger] tail_dec_unsorted(final(out)@.skip(n0) + rest, vals@.len() as int) == Some(
                (vals@, final(out)@.len() - n0),
            ) by {
            lemma_vint_cat_dec(ds, rest);
            assert(all_in_u32(ds));
            assert(to_u32s(ds) =~= vals@);
        }
    }
}

proof fn lemma_vint_cat_snoc(vs: Seq<int>)
    requires
        vs.len() > 0,
    ensures
        vint_cat(vs) =~= vint_cat(vs.drop_last()) + vint_enc(vs.last()),
    decreases vs.len(),
{
    if vs.len() == 1 {
        assert(vs.skip(1) =~= Seq::<int>::empty());
        assert(vs.drop_last() =~= Seq::<int>::empty());
    } else {
        lemma_vint_cat_snoc(vs.skip(1));
        assert(vs.skip(1).drop_last() =~= vs.drop_last().skip(1));
        assert(vs.skip(1).last() == vs.last());
        assert(vs.drop_last()[0] == vs[0]);
    }
}

} // verus!
// (continued)
use vstd::prelude::*;

verus! {

pub open spec fn to_ints(vs: Seq<u32>) -> Seq<int> {
    Seq::new(vs.len(), |i: int| vs[i] as int)
}

/// Sums split over concatenation.
pub proof fn lemma_seq_sum_append(a: Seq<int>, b: Seq<int>)
    ensures
        seq_sum(a + b) == seq_sum(a) + seq_sum(b),
    decreases b.len(),
{
    if b.len() == 0 {
        assert(a + b =~= a);
    } else {
        lemma_seq_sum_append(a, b.drop_last());
        assert((a + b).drop_last() =~= a + b.drop_last());
        assert((a + b).last() == b.last());
    }
}

/// One step of an unsorted variable-int tail: its first value and the rest.
pub proof fn lemma_tail_unsorted_step(s: Seq<u8>, n: int)
    requires
        tail_dec_unsorted(s, n) is Some,
        n > 0,
    ensures
        ({
            let (vs, k) = tail_dec_unsorted(s, n)->Some_0;
            vint_dec(s) is Some && ({
                let (v0, k0) = vint_dec(s)->Some_0;
                0 <= v0 < 0x1_0000_0000 && 1 <= k0 <= k <= s.len() && vs.len() == n && vs[0]
                    == v0 as u32 && tail_dec_unsorted(s.skip(k0), n - 1) == Some(
                    (vs.skip(1), k - k0),
                )
            })
        }),
{
    let (ds, k) = vint_seq_dec(s, n)->Some_0;
    lemma_vint_seq_dec_props(s, n);
    let (v0, k0) = vint_dec(s)->Some_0;
    lemma_vint_dec_len(s);
    assert(to_u32s(ds).skip(1) =~= to_u32s(ds.skip(1)));
    lemma_vint_seq_dec_props(s.skip(k0), n - 1);
    assert(ds[0] == v0);
    assert(0 <= ds[0] < 0x1_0000_0000);
    assert(all_in_u32(ds.skip(1))) by {
        assert forall|i: int| 0 <= i < ds.skip(1).len() implies 0 <= #[trigger] ds.skip(1)[i]
            < 0x1_0000_0000 by {
            assert(ds.skip(1)[i] == ds[i + 1]);
            assert(0 <= ds[i + 1] < 0x1_0000_0000);
        }
    }
    assert(tail_dec_unsorted(s.skip(k0), n - 1) == Some(
        (to_u32s(ds.skip(1)), k - k0),
    ));
    assert(to_u32s(ds)[0] == ds[0] as u32);
}

/// A sequential reader over variable-int-coded values: the positions stream.
/// Supports skipping values without materialising them.
pub struct CompressedIntStream {
    data: Vec<u8>,
    offset: usize,
    gvals: Ghost<Seq<u32>>,
}

impl CompressedIntStream {
    /// The values the stream will yield from its current position on.
    pub closed spec fn svals(&self) -> Seq<u32> {
        self.gvals@
    }

    pub closed spec fn wf(&self) -> bool {
        self.offset <= self.data@.len() && exists|k: int|
            #[trigger] tail_dec_unsorted(
                self.data@.skip(self.offset as int),
                self.gvals@.len() as int,
            ) == Some((self.gvals@, k))
    }

    /// Opens a stream over the values coded in `data` from `offset` on.
    pub(crate) fn open(data: Vec<u8>, offset: usize, Ghost(n_vals): Ghost<int>) -> (r:
        CompressedIntStream)
        requires
            offset <= data@.len(),
            exists|vals: Seq<u32>, k: int|
                #[trigger] tail_dec_unsorted(data@.skip(offset as int), n_vals) == Some(
                    (vals, k),
                ),
        ensures
            r.wf(),
            r.svals().len() == if n_vals <= 0 {
                0int
            } else {
                n_vals
            },
            tail_dec_unsorted(data@.skip(offset as int), n_vals) == Some(
                (r.svals(), tail_dec_unsorted(data@.skip(offset as int), n_vals)->Some_0.1),
            ),
    {
        let ghost pair = choose|vals: Seq<u32>, k: int|
            #[trigger] tail_dec_unsorted(data@.skip(offset as int), n_vals) == Some((vals, k));
        proof {
            lemma_vint_seq_dec_props(data@.skip(offset as int), n_vals);
        }
        CompressedIntStream { data, offset, gvals: Ghost(pair.0) }
    }

    /// Skips the next `n` values.
    pub fn skip(&mut self, n: usize)
        requires
            old(self).wf(),
            n <= old(self).svals().len(),
        ensures
            final(self).wf(),
            final(self).svals() == old(self).svals().skip(n as int),
    {
        let mut i: usize = 0;
        while i < n
            invariant
                old(self).wf(),
                i <= n,
                n <= old(self).svals().len(),
                self.wf(),
                self.svals() == old(self).svals().skip(i as int),
            decreases n - i,
        {
            proof {
                lemma_tail_unsorted_step(
                    self.data@.skip(self.offset as int),
                    self.gvals@.len() as int,
                );
            }
            let step = crate::vint::deserialize_vint(&self.data, self.offset);
            let (v, end) = step.unwrap();
            let ghost k0 = vint_dec(self.data@.skip(self.offset as int))->Some_0.1;
            proof {
                assert(self.data@.skip(self.offset as int).skip(k0) =~= self.data@.skip(
                    end as int,
                ));
            }
            self.offset = end;
            self.gvals = Ghost(self.gvals@.skip(1));
            proof {
                assert(old(self).svals().skip(i as int).skip(1) =~= old(self).svals().skip(
                    i + 1,
                ));
            }
            i += 1;
        }
        proof {
            assert(self.svals() =~= old(self).svals().skip(n as int));
        }
    }

    /// Reads the next `n` values into `out`, replacing its contents.
    pub fn read(&mut self, n: usize, out: &mut Vec<u32>)
        requires
            old(self).wf(),
            n <= old(self).svals().len(),
        ensures
            final(self).wf(),
            final(self).svals() == old(self).svals().skip(n as int),
            final(out)@ == old(self).svals().take(n as int),
    {
        out.clear();
        let mut i: usize = 0;
        while i < n
            invariant
                old(self).wf(),
                i <= n,
                n <= old(self).svals().len(),
                self.wf(),
                self.svals() == old(self).svals().skip(i as int),
                out@ =~= old(self).svals().take(i as int),
            decreases n - i,
        {
            proof {
                lemma_tail_unsorted_step(
                    self.data@.skip(self.offset as int),
                    self.gvals@.len() as int,
                );
            }
            let step = crate::vint::deserialize_vint(&self.data, self.offset);
            let (v, end) = step.unwrap();
            let ghost k0 = vint_dec(self.data@.skip(self.offset as int))->Some_0.1;
            proof {
                assert(self.data@.skip(self.offset as int).skip(k0) =~= self.data@.skip(
                    end as int,
                ));
                assert(self.gvals@[0] == old(self).svals().skip(i as int)[0]);
                assert(old(self).svals().skip(i as int)[0] == old(self).svals()[i as int]);
            }
            out.push(v as u32);
            self.offset = end;
            self.gvals = Ghost(self.gvals@.skip(1));
            proof {
                assert(old(self).svals().skip(i as int).skip(1) =~= old(self).svals().skip(
                    i + 1,
                ));
                assert(out@ =~= old(self).svals().take(i + 1));
            }
            i += 1;
        }
        proof {
            assert(self.svals() =~= old(self).svals().skip(n as int));
        }
    }
}

} // verus!
