//! Ordered streaming over a prefix-compressed term dictionary.
//!
//! Entries are `(key, TermInfo)` pairs stored in ascending key order with
//! front compression: each entry on the wire is the shared-prefix length, the
//! suffix length, the suffix bytes, and the serialised `TermInfo`, lengths as
//! variable-length integers. A builder narrows the byte range by key bounds
//! and the streamer walks the narrowed range, rebuilding keys incrementally.

use vstd::prelude::*;
use crate::vint::{vint_dec, vint_enc, lemma_vint_round_trip, serialize_vint, deserialize_vint};
use crate::compression::lemma_vint_dec_len;

verus! {

/// Locates one term's posting list within a segment: byte offset of the
/// postings, document frequency, and byte offset into the positions stream.
#[derive(Clone, Copy, Debug, PartialEq, Eq, Structural)]
pub struct TermInfo {
    /// Number of documents holding the term.
    pub doc_freq: u32,
    /// Byte offset of the posting list in the segment's postings data.
    pub postings_offset: u32,
    /// Byte offset of the term's deltas in the positions stream.
    pub positions_offset: u32,
}

impl Default for TermInfo {
    fn default() -> (r: TermInfo)
        ensures
            r.doc_freq == 0 && r.postings_offset == 0 && r.positions_offset == 0,
    {
        TermInfo { doc_freq: 0, postings_offset: 0, positions_offset: 0 }
    }
}

/// Strict lexicographic order on byte strings.
pub open spec fn lex_lt(a: Seq<u8>, b: Seq<u8>) -> bool
    decreases a.len(),
{
    if b.len() == 0 {
        false
    } else if a.len() == 0 {
        true
    } else if a[0] < b[0] {
        true
    } else if a[0] > b[0] {
        false
    } else {
        lex_lt(a.skip(1), b.skip(1))
    }
}

/// While two keys agree on a prefix, their order is decided past it.
pub proof fn lemma_lex_from(a: Seq<u8>, b: Seq<u8>, i: int)
    requires
        0 <= i <= a.len(),
        i <= b.len(),
        forall|j: int| 0 <= j < i ==> a[j] == b[j],
    ensures
        lex_lt(a, b) == lex_lt(a.skip(i), b.skip(i)),
    decreases i,
{
    if i > 0 {
        assert(a.skip(1).len() == a.len() - 1);
        assert(forall|j: int| 0 <= j < i - 1 ==> #[trigger] a.skip(1)[j] == b.skip(1)[j]);
        lemma_lex_from(a.skip(1), b.skip(1), i - 1);
        assert(a.skip(1).skip(i - 1) =~= a.skip(i));
        assert(b.skip(1).skip(i - 1) =~= b.skip(i));
    } else {
        assert(a.skip(0) =~= a);
        assert(b.skip(0) =~= b);
    }
}

/// Three-way lexicographic comparison: `0` below, `1` equal, `2` above.
fn key_cmp(a: &Vec<u8>, b: &Vec<u8>) -> (r: u8)
    ensures
        (r == 0) == lex_lt(a@, b@),
        (r == 1) == (a@ == b@),
        r <= 2,
{
    let mut i: usize = 0;
    let alen = a.len();
    let blen = b.len();
    let min = if alen < blen {
        alen
    } else {
        blen
    };
    while i < min
        invariant
            i <= min,
            min == if a@.len() < b@.len() {
                a@.len()
            } else {
                b@.len()
            },
            forall|j: int| 0 <= j < i ==> a@[j] == b@[j],
        decreases min - i,
    {
        if a[i] < b[i] {
            proof {
                lemma_lex_from(a@, b@, i as int);
                assert(a@.skip(i as int)[0] == a@[i as int]);
                assert(b@.skip(i as int)[0] == b@[i as int]);
                assert(a@ != b@) by {
                    assert(a@[i as int] != b@[i as int]);
                }
            }
            return 0;
        }
        if a[i] > b[i] {
            proof {
                lemma_lex_from(a@, b@, i as int);
                assert(a@.skip(i as int)[0] == a@[i as int]);
                assert(b@.skip(i as int)[0] == b@[i as int]);
                assert(a@ != b@) by {
                    assert(a@[i as int] != b@[i as int]);
                }
            }
            return 2;
        }
        i += 1;
    }
    proof {
        lemma_lex_from(a@, b@, min as int);
    }
    if alen < blen {
        proof {
            assert(lex_lt(a@.skip(min as int), b@.skip(min as int))) by {
                assert(a@.skip(min as int).len() == 0);
                assert(b@.skip(min as int).len() > 0);
            }
            assert(a@ != b@);
        }
        0
    } else if alen == blen {
        proof {
            assert(a@ =~= b@);
            assert(!lex_lt(a@.skip(min as int), b@.skip(min as int)));
        }
        1
    } else {
        proof {
            assert(!lex_lt(a@.skip(min as int), b@.skip(min as int))) by {
                assert(b@.skip(min as int).len() == 0);
            }
            assert(a@ != b@) by {
                assert(a@.len() != b@.len());
            }
        }
        2
    }
}

/// Decodes a serialised `TermInfo`: three variable-length integers.
pub open spec fn term_info_dec(s: Seq<u8>) -> Option<(TermInfo, int)> {
    match vint_dec(s) {
        None => None,
        Some((df, k1)) => if df >= 0x1_0000_0000 {
            None
        } else {
            match vint_dec(s.skip(k1)) {
                None => None,
                Some((po, k2)) => if po >= 0x1_0000_0000 {
                    None
                } else {
                    match vint_dec(s.skip(k1).skip(k2)) {
                        None => None,
                        Some((pp, k3)) => if pp >= 0x1_0000_0000 {
                            None
                        } else {
                            Some(
                                (
                                    TermInfo {
                                        doc_freq: df as u32,
                                        postings_offset: po as u32,
                                        positions_offset: pp as u32,
                                    },
                                    k1 + k2 + k3,
                                ),
                            )
                        },
                    }
                },
            }
        },
    }
}

/// Decodes one front-compressed entry against the previous key.
pub open spec fn dict_step(s: Seq<u8>, key: Seq<u8>) -> Option<((Seq<u8>, TermInfo), int)> {
    match vint_dec(s) {
        None => None,
        Some((common, k1)) => if common > key.len() {
            None
        } else {
            match vint_dec(s.skip(k1)) {
                None => None,
                Some((slen, k2)) => {
                    let rest = s.skip(k1).skip(k2);
                    if rest.len() < slen {
                        None
                    } else {
                        let newkey = key.take(common as int) + rest.take(slen as int);
                        match term_info_dec(rest.skip(slen as int)) {
                            None => None,
                            Some((ti, k3)) => Some(((newkey, ti), k1 + k2 + slen + k3)),
                        }
                    }
                },
            }
        },
    }
}

/// Decodes exactly `n` entries, returning them and the bytes consumed.
pub open spec fn dict_dec_n(s: Seq<u8>, key: Seq<u8>, n: int) -> Option<
    (Seq<(Seq<u8>, TermInfo)>, int),
>
    decreases n,
{
    if n <= 0 {
        Some((Seq::empty(), 0))
    } else {
        match dict_step(s, key) {
            None => None,
            Some((e, c)) => match dict_dec_n(s.skip(c), e.0, n - 1) {
                None => None,
                Some((es, c2)) => Some((seq![e] + es, c + c2)),
            },
        }
    }
}

/// The key state after the entries `es`, starting from `key`.
pub open spec fn last_key(key: Seq<u8>, es: Seq<(Seq<u8>, TermInfo)>) -> Seq<u8> {
    if es.len() == 0 {
        key
    } else {
        es.last().0
    }
}

pub proof fn lemma_dict_step_len(s: Seq<u8>, key: Seq<u8>)
    requires
        dict_step(s, key) is Some,
    ensures
        1 <= dict_step(s, key)->Some_0.1 <= s.len(),
{
    let (common, k1) = vint_dec(s)->Some_0;
    lemma_vint_dec_len(s);
    let (slen, k2) = vint_dec(s.skip(k1))->Some_0;
    lemma_vint_dec_len(s.skip(k1));
    let rest = s.skip(k1).skip(k2);
    let (ti, k3) = term_info_dec(rest.skip(slen as int))->Some_0;
    lemma_term_info_len(rest.skip(slen as int));
}

pub proof fn lemma_term_info_len(s: Seq<u8>)
    requires
        term_info_dec(s) is Some,
    ensures
        3 <= term_info_dec(s)->Some_0.1 <= s.len(),
{
    let (df, k1) = vint_dec(s)->Some_0;
    lemma_vint_dec_len(s);
    let (po, k2) = vint_dec(s.skip(k1))->Some_0;
    lemma_vint_dec_len(s.skip(k1));
    let (pp, k3) = vint_dec(s.skip(k1).skip(k2))->Some_0;
    lemma_vint_dec_len(s.skip(k1).skip(k2));
}

/// Shape of an `n`-entry decode: count, bounds, and the first step.
pub proof fn lemma_dict_dec_n_props(s: Seq<u8>, key: Seq<u8>, n: int)
    requires
        dict_dec_n(s, key, n) is Some,
    ensures
        ({
            let (es, c) = dict_dec_n(s, key, n)->Some_0;
            es.len() == if n <= 0 { 0 } else { n } && 0 <= c <= s.len() && (n > 0 ==> c >= n)
                && (n > 0 ==> dict_step(s, key) is Some && ({
                let (e, c0) = dict_step(s, key)->Some_0;
                es[0] == e && c0 <= c && dict_dec_n(s.skip(c0), e.0, n - 1) == Some(
                    (es.skip(1), c - c0),
                )
            }))
        }),
    decreases n,
{
    if n > 0 {
        let (e, c0) = dict_step(s, key)->Some_0;
        lemma_dict_step_len(s, key);
        lemma_dict_dec_n_props(s.skip(c0), e.0, n - 1);
        let (es1, c1) = dict_dec_n(s.skip(c0), e.0, n - 1)->Some_0;
        assert((seq![e] + es1).skip(1) =~= es1);
    }
}

/// Decoding `a + b` entries is decoding `a`, then `b` more from where the
/// first decode stopped.
pub proof fn lemma_dict_dec_n_split(s: Seq<u8>, key: Seq<u8>, a: int, b: int)
    requires
        a >= 0,
        b >= 0,
        dict_dec_n(s, key, a + b) is Some,
    ensures
        ({
            let (es, c) = dict_dec_n(s, key, a + b)->Some_0;
            exists|c1: int|
                #[trigger] dict_dec_n(s, key, a) == Some((es.take(a), c1)) && 0 <= c1 <= c
                    && dict_dec_n(s.skip(c1), last_key(key, es.take(a)), b) == Some(
                    (es.skip(a), c - c1),
                )
        }),
    decreases a,
{
    let (es, c) = dict_dec_n(s, key, a + b)->Some_0;
    lemma_dict_dec_n_props(s, key, a + b);
    if a == 0 {
        assert(es.take(0) =~= Seq::<(Seq<u8>, TermInfo)>::empty());
        assert(es.skip(0) =~= es);
        assert(s.skip(0) =~= s);
        assert(dict_dec_n(s, key, 0) == Some((es.take(0), 0int)));
    } else {
        let (e, c0) = dict_step(s, key)->Some_0;
        lemma_dict_step_len(s, key);
        lemma_dict_dec_n_props(s.skip(c0), e.0, a + b - 1);
        lemma_dict_dec_n_split(s.skip(c0), e.0, a - 1, b);
        let (es1, cr) = dict_dec_n(s.skip(c0), e.0, a + b - 1)->Some_0;
        let c1r = choose|c1: int|
            #[trigger] dict_dec_n(s.skip(c0), e.0, a - 1) == Some((es1.take(a - 1), c1)) && 0 <= c1
                <= cr && dict_dec_n(s.skip(c0).skip(c1), last_key(e.0, es1.take(a - 1)), b) == Some(
                (es1.skip(a - 1), cr - c1),
            );
        assert(cr <= s.skip(c0).len());
        assert(es =~= seq![e] + es1);
        assert(es.take(a) =~= seq![e] + es1.take(a - 1));
        assert(es.skip(a) =~= es1.skip(a - 1));
        assert(dict_dec_n(s, key, a) == Some((es.take(a), c0 + c1r)));
        assert(s.skip(c0).skip(c1r) =~= s.skip(c0 + c1r));
        assert(last_key(key, es.take(a)) == last_key(e.0, es1.take(a - 1))) by {
            if a == 1 {
                assert(es.take(1).last() == e);
            }
        }
        assert(dict_dec_n(s, key, a) == Some((es.take(a), c0 + c1r)) && 0 <= c0 + c1r <= c
            && dict_dec_n(s.skip(c0 + c1r), last_key(key, es.take(a)), b) == Some(
            (es.skip(a), c - (c0 + c1r)),
        ));
    }
}

/// Decoding `a` entries and then `b` entries composes.
pub proof fn lemma_dict_dec_n_concat(s: Seq<u8>, key: Seq<u8>, a: int, b: int)
    requires
        a >= 0,
        b >= 0,
        dict_dec_n(s, key, a) is Some,
        ({
            let (e1, c1) = dict_dec_n(s, key, a)->Some_0;
            dict_dec_n(s.skip(c1), last_key(key, e1), b) is Some
        }),
    ensures
        ({
            let (e1, c1) = dict_dec_n(s, key, a)->Some_0;
            let (e2, c2) = dict_dec_n(s.skip(c1), last_key(key, e1), b)->Some_0;
            dict_dec_n(s, key, a + b) == Some((e1 + e2, c1 + c2))
        }),
    decreases a,
{
    let (e1, c1) = dict_dec_n(s, key, a)->Some_0;
    let (e2, c2) = dict_dec_n(s.skip(c1), last_key(key, e1), b)->Some_0;
    lemma_dict_dec_n_props(s, key, a);
    if a == 0 {
        assert(s.skip(0) =~= s);
        assert(e1 + e2 =~= e2);
    } else {
        let (e, c0) = dict_step(s, key)->Some_0;
        lemma_dict_step_len(s, key);
        assert(s.skip(c0).skip(c1 - c0) =~= s.skip(c1));
        assert(last_key(e.0, e1.skip(1)) == last_key(key, e1)) by {
            if e1.len() == 1 {
                assert(e1[0] == e);
            }
        }
        lemma_dict_dec_n_concat(s.skip(c0), e.0, a - 1, b);
        assert(e1 =~= seq![e] + e1.skip(1));
        assert((e1.skip(1) + e2) =~= (e1 + e2).skip(1));
        assert(seq![e] + (e1.skip(1) + e2) =~= e1 + e2);
    }
}

} // verus!
// (continued: decode extension, builder, dictionary and streamer)

verus! {

/// Entry decoding is unaffected by bytes appended after the input.
pub proof fn lemma_dict_step_extend(s: Seq<u8>, key: Seq<u8>, ext: Seq<u8>)
    requires
        dict_step(s, key) is Some,
    ensures
        dict_step(s + ext, key) == dict_step(s, key),
{
    let t = s + ext;
    let (common, k1) = vint_dec(s)->Some_0;
    crate::vint::lemma_vint_dec_extend(s, ext);
    lemma_vint_dec_len(s);
    assert(t.skip(k1) =~= s.skip(k1) + ext);
    let (slen, k2) = vint_dec(s.skip(k1))->Some_0;
    crate::vint::lemma_vint_dec_extend(s.skip(k1), ext);
    lemma_vint_dec_len(s.skip(k1));
    let rest = s.skip(k1).skip(k2);
    assert(t.skip(k1).skip(k2) =~= rest + ext);
    assert((rest + ext).take(slen as int) =~= rest.take(slen as int));
    assert((rest + ext).skip(slen as int) =~= rest.skip(slen as int) + ext);
    lemma_term_info_extend(rest.skip(slen as int), ext);
}

pub proof fn lemma_term_info_extend(s: Seq<u8>, ext: Seq<u8>)
    requires
        term_info_dec(s) is Some,
    ensures
        term_info_dec(s + ext) == term_info_dec(s),
{
    let t = s + ext;
    let (df, k1) = vint_dec(s)->Some_0;
    crate::vint::lemma_vint_dec_extend(s, ext);
    lemma_vint_dec_len(s);
    assert(t.skip(k1) =~= s.skip(k1) + ext);
    let (po, k2) = vint_dec(s.skip(k1))->Some_0;
    crate::vint::lemma_vint_dec_extend(s.skip(k1), ext);
    lemma_vint_dec_len(s.skip(k1));
    assert(t.skip(k1).skip(k2) =~= s.skip(k1).skip(k2) + ext);
    crate::vint::lemma_vint_dec_extend(s.skip(k1).skip(k2), ext);
}

/// A whole decode run is unaffected by bytes appended after the input.
pub proof fn lemma_dict_dec_n_extend(s: Seq<u8>, key: Seq<u8>, n: int, ext: Seq<u8>)
    requires
        dict_dec_n(s, key, n) is Some,
    ensures
        dict_dec_n(s + ext, key, n) == dict_dec_n(s, key, n),
    decreases n,
{
    if n > 0 {
        let (e, c0) = dict_step(s, key)->Some_0;
        lemma_dict_step_extend(s, key, ext);
        lemma_dict_step_len(s, key);
        assert((s + ext).skip(c0) =~= s.skip(c0) + ext);
        lemma_dict_dec_n_extend(s.skip(c0), e.0, n - 1, ext);
    }
}

/// The serialised form of a `TermInfo`: three variable-length integers.
pub open spec fn term_info_enc(ti: TermInfo) -> Seq<u8> {
    vint_enc(ti.doc_freq as int) + vint_enc(ti.postings_offset as int) + vint_enc(
        ti.positions_offset as int,
    )
}

/// Appends the serialised form of `ti`.
pub fn serialize_term_info(ti: &TermInfo, out: &mut Vec<u8>)
    ensures
        final(out)@ == old(out)@ + term_info_enc(*ti),
{
    serialize_vint(ti.doc_freq as u64, out);
    serialize_vint(ti.postings_offset as u64, out);
    serialize_vint(ti.positions_offset as u64, out);
    proof {
        assert(final(out)@ =~= old(out)@ + term_info_enc(*ti));
    }
}

/// Round trip: a serialised `TermInfo` decodes back to itself.
pub proof fn lemma_term_info_round_trip(ti: TermInfo, rest: Seq<u8>)
    ensures
        term_info_dec(term_info_enc(ti) + rest) == Some(
            (ti, term_info_enc(ti).len() as int),
        ),
{
    let e1 = vint_enc(ti.doc_freq as int);
    let e2 = vint_enc(ti.postings_offset as int);
    let e3 = vint_enc(ti.positions_offset as int);
    let s = term_info_enc(ti) + rest;
    assert(s =~= e1 + (e2 + (e3 + rest)));
    lemma_vint_round_trip(ti.doc_freq as int, e2 + (e3 + rest));
    assert(s.skip(e1.len() as int) =~= e2 + (e3 + rest));
    lemma_vint_round_trip(ti.postings_offset as int, e3 + rest);
    assert(s.skip(e1.len() as int).skip(e2.len() as int) =~= e3 + rest);
    lemma_vint_round_trip(ti.positions_offset as int, rest);
}

/// The wire form of one entry following a key sharing `common` leading bytes.
pub open spec fn entry_enc(common: int, key: Seq<u8>, ti: TermInfo) -> Seq<u8> {
    vint_enc(common) + vint_enc(key.len() - common) + key.skip(common) + term_info_enc(ti)
}

/// An encoded entry decodes back to its key and value.
pub proof fn lemma_entry_enc_step(lk: Seq<u8>, key: Seq<u8>, ti: TermInfo, common: int)
    requires
        0 <= common <= lk.len(),
        common <= key.len(),
        key.len() < 0x1_0000_0000_0000_0000,
        forall|j: int| 0 <= j < common ==> key[j] == lk[j],
    ensures
        dict_step(entry_enc(common, key, ti), lk) == Some(
            ((key, ti), entry_enc(common, key, ti).len() as int),
        ),
{
    let suffix = key.skip(common);
    let enc = entry_enc(common, key, ti);
    let t1 = vint_enc(key.len() - common) + (suffix + term_info_enc(ti));
    lemma_vint_round_trip(common, t1);
    assert(enc =~= vint_enc(common) + t1);
    let k1 = vint_enc(common).len() as int;
    assert(enc.skip(k1) =~= t1);
    lemma_vint_round_trip(key.len() - common, suffix + term_info_enc(ti));
    let k2 = vint_enc(key.len() - common).len() as int;
    assert(enc.skip(k1).skip(k2) =~= suffix + term_info_enc(ti));
    let rest = suffix + term_info_enc(ti);
    assert(rest.take(key.len() - common) =~= suffix);
    assert(rest.skip(key.len() - common) =~= term_info_enc(ti));
    lemma_term_info_round_trip(ti, Seq::empty());
    assert(term_info_enc(ti) + Seq::<u8>::empty() =~= term_info_enc(ti));
    assert(lk.take(common) + suffix =~= key);
    assert(enc.len() == k1 + k2 + (key.len() - common) + term_info_enc(ti).len());
}

/// Appending one encoded entry to a fully decoded dictionary extends its
/// decode by that entry.
pub proof fn lemma_builder_append(
    d0: Seq<u8>,
    es0: Seq<(Seq<u8>, TermInfo)>,
    n0: int,
    enc: Seq<u8>,
    key: Seq<u8>,
    ti: TermInfo,
)
    requires
        n0 == es0.len(),
        dict_dec_n(d0, Seq::empty(), n0) == Some((es0, d0.len() as int)),
        dict_step(enc, last_key(Seq::empty(), es0)) == Some(((key, ti), enc.len() as int)),
    ensures
        dict_dec_n(d0 + enc, Seq::empty(), n0 + 1) == Some(
            (es0.push((key, ti)), d0.len() + enc.len() as int),
        ),
{
    let lk = last_key(Seq::empty(), es0);
    lemma_dict_dec_n_extend(d0, Seq::empty(), n0, enc);
    let dd = d0 + enc;
    assert(dd.skip(d0.len() as int) =~= enc);
    assert(dict_dec_n(dd.skip(d0.len() as int), lk, 1) == Some((seq![(key, ti)], enc.len() as int)))
        by {
        assert(dict_dec_n(enc.skip(enc.len() as int), key, 0) == Some(
            (Seq::<(Seq<u8>, TermInfo)>::empty(), 0int),
        ));
        assert(seq![(key, ti)] + Seq::<(Seq<u8>, TermInfo)>::empty() =~= seq![(key, ti)]);
    }
    lemma_dict_dec_n_concat(dd, Seq::empty(), n0, 1);
    assert(es0 + seq![(key, ti)] =~= es0.push((key, ti)));
}

/// Pushing a key above the chain's last keeps the chain sorted.
pub proof fn lemma_chain_push(es0: Seq<(Seq<u8>, TermInfo)>, key: Seq<u8>, ti: TermInfo)
    requires
        chain_sorted(Seq::empty(), es0),
        lex_lt(last_key(Seq::empty(), es0), key),
    ensures
        chain_sorted(Seq::empty(), es0.push((key, ti))),
{
    let es1 = es0.push((key, ti));
    assert(forall|i2: int| 0 <= i2 < es0.len() ==> #[trigger] es1[i2] == es0[i2]);
    assert(es1[es1.len() - 1].0 == key);
    if es0.len() > 0 {
        assert(es1[es1.len() - 2] == es0[es0.len() - 1]);
    }
}

/// Whether every key of `es` is above its predecessor, starting from `start`.
pub open spec fn chain_sorted(start: Seq<u8>, es: Seq<(Seq<u8>, TermInfo)>) -> bool {
    forall|i: int|
        0 <= i < es.len() ==> lex_lt(
            if i == 0 {
                start
            } else {
                es[i - 1].0
            },
            #[trigger] es[i].0,
        )
}

/// Writes a term dictionary: terms inserted in strictly ascending key order,
/// each stored as a shared-prefix length, suffix, and serialised `TermInfo`.
pub struct TermDictionaryBuilder {
    data: Vec<u8>,
    last_key: Vec<u8>,
    num_terms: usize,
    gentries: Ghost<Seq<(Seq<u8>, TermInfo)>>,
}

impl TermDictionaryBuilder {
    pub closed spec fn sentries(&self) -> Seq<(Seq<u8>, TermInfo)> {
        self.gentries@
    }

    pub closed spec fn slast_key(&self) -> Seq<u8> {
        self.last_key@
    }

    pub closed spec fn wf(&self) -> bool {
        &&& dict_dec_n(self.data@, Seq::empty(), self.num_terms as int) == Some(
            (self.gentries@, self.data@.len() as int),
        )
        &&& self.gentries@.len() == self.num_terms
        &&& self.last_key@ == last_key(Seq::empty(), self.gentries@)
        &&& chain_sorted(Seq::empty(), self.gentries@)
    }

    pub fn new() -> (r: TermDictionaryBuilder)
        ensures
            r.wf(),
            r.sentries() == Seq::<(Seq<u8>, TermInfo)>::empty(),
            r.slast_key() == Seq::<u8>::empty(),
    {
        TermDictionaryBuilder {
            data: Vec::new(),
            last_key: Vec::new(),
            num_terms: 0,
            gentries: Ghost(Seq::empty()),
        }
    }

    /// Appends one term; keys must arrive in strictly ascending order.
    #[verifier::rlimit(100)]
    pub fn insert(&mut self, key: &Vec<u8>, term_info: &TermInfo)
        requires
            old(self).wf(),
            lex_lt(old(self).slast_key(), key@),
            old(self).sentries().len() < usize::MAX,
        ensures
            final(self).wf(),
            final(self).sentries() == old(self).sentries().push((key@, *term_info)),
            final(self).slast_key() == key@,
    {
        let ghost n0 = self.num_terms as int;
        let ghost es0 = self.gentries@;
        let ghost d0 = self.data@;
        let ghost lk = self.last_key@;
        // longest shared prefix of the previous and the new key
        let mut common: usize = 0;
        let klen = key.len();
        let llen = self.last_key.len();
        let maxc = if klen < llen {
            klen
        } else {
            llen
        };
        while common < maxc
            invariant
                common <= maxc,
                maxc == if key@.len() < self.last_key@.len() {
                    key@.len()
                } else {
                    self.last_key@.len()
                },
                self.last_key@ == lk,
                forall|j: int| 0 <= j < common ==> key@[j] == lk[j],
            decreases maxc - common,
        {
            if key[common] != self.last_key[common] {
                break;
            }
            proof {
                assert(key@[common as int] == lk[common as int]);
            }
            common = common + 1;
        }
        let ghost dstart = self.data@.len() as int;
        serialize_vint(common as u64, &mut self.data);
        serialize_vint((klen - common) as u64, &mut self.data);
        let mut i: usize = common;
        while i < klen
            invariant
                common <= i <= klen,
                klen == key@.len(),
                self.num_terms == old(self).num_terms,
                self.num_terms < usize::MAX,
                self.gentries == old(self).gentries,
                self.last_key@ == lk,
                self.gentries@.len() == self.num_terms,
                self.data@ =~= d0 + vint_enc(common as int) + vint_enc(klen - common as int)
                    + key@.subrange(common as int, i as int),
            decreases klen - i,
        {
            let b = key[i];
            self.data.push(b);
            proof {
                assert(self.data@ =~= d0 + vint_enc(common as int) + vint_enc(
                    klen - common as int,
                ) + key@.subrange(common as int, i + 1));
            }
            i += 1;
        }
        serialize_term_info(term_info, &mut self.data);
        self.num_terms = self.num_terms + 1;
        self.last_key.clear();
        self.last_key.extend_from_slice(key.as_slice());
        self.gentries = Ghost(es0.push((key@, *term_info)));
        proof {
            let enc = entry_enc(common as int, key@, *term_info);
            assert(key@.subrange(common as int, klen as int) =~= key@.skip(common as int));
            assert(self.data@ =~= d0 + enc);
            lemma_entry_enc_step(lk, key@, *term_info, common as int);
            lemma_builder_append(d0, es0, n0, enc, key@, *term_info);
            lemma_chain_push(es0, key@, *term_info);
            assert(self.last_key@ =~= key@);
        }
    }

    /// Finishes the dictionary.
    pub fn finish(self) -> (r: TermDictionaryImpl)
        requires
            self.wf(),
        ensures
            r.wf(),
            r.sentries() == self.sentries(),
    {
        TermDictionaryImpl {
            data: self.data,
            num_terms: self.num_terms,
            gentries: self.gentries,
        }
    }
}

/// A read-only, front-compressed term dictionary.
pub struct TermDictionaryImpl {
    data: Vec<u8>,
    num_terms: usize,
    gentries: Ghost<Seq<(Seq<u8>, TermInfo)>>,
}

impl TermDictionaryImpl {
    /// The `(key, TermInfo)` entries, in ascending key order.
    pub closed spec fn sentries(&self) -> Seq<(Seq<u8>, TermInfo)> {
        self.gentries@
    }

    pub closed spec fn sdata(&self) -> Seq<u8> {
        self.data@
    }

    pub closed spec fn wf(&self) -> bool {
        &&& dict_dec_n(self.data@, Seq::empty(), self.num_terms as int) == Some(
            (self.gentries@, self.data@.len() as int),
        )
        &&& self.gentries@.len() == self.num_terms
        &&& chain_sorted(Seq::empty(), self.gentries@)
    }

    /// A well-formed dictionary's keys ascend strictly from the empty key.
    pub proof fn lemma_sorted_entries(&self)
        requires
            self.wf(),
        ensures
            chain_sorted(Seq::empty(), self.sentries()),
    {
    }

    /// The raw entry stream.
    pub fn stream_data(&self) -> (r: &Vec<u8>)
        ensures
            r@ == self.sdata(),
    {
        &self.data
    }

    /// A key at or below `target_key` and the stream offset to resume from.
    /// This dictionary keeps no skip index, so the scan resumes from the
    /// origin: the empty key at offset zero is below every key.
    pub fn strictly_previous_key(&self, target_key: &Vec<u8>) -> (r: (Vec<u8>, usize))
        ensures
            r.0@ == Seq::<u8>::empty(),
            r.1 == 0,
    {
        let empty_key: Vec<u8> = Vec::new();
        (empty_key, 0)
    }

    /// The first match of `key` among the entries.
    pub open spec fn slookup(es: Seq<(Seq<u8>, TermInfo)>, key: Seq<u8>) -> Option<TermInfo>
        decreases es.len(),
    {
        if es.len() == 0 {
            None
        } else if es[0].0 == key {
            Some(es[0].1)
        } else {
            Self::slookup(es.skip(1), key)
        }
    }

    /// Resolves one term's `TermInfo`, or `None` when the term is absent.
    pub fn term_info(&self, key: &Vec<u8>) -> (r: Option<TermInfo>)
        requires
            self.wf(),
        ensures
            r == Self::slookup(self.sentries(), key@),
    {
        let ghost es = self.gentries@;
        let nterms: usize = self.num_terms;
        let mut streamer = stream_before(self, key);
        let ghost n = es.len() as int;
        let mut i: usize = 0;
        proof {
            assert(es.skip(0) =~= es);
        }
        loop
            invariant
                streamer.wf(),
                streamer.sremaining() == es.skip(i as int),
                0 <= i <= es.len(),
                es.len() == nterms,
                es == self.sentries(),
                Self::slookup(es, key@) == Self::slookup(es.skip(i as int), key@),
            decreases es.len() - i,
        {
            if !streamer.advance() {
                proof {
                    assert(es.skip(i as int).len() == 0);
                }
                return None;
            }
            let c = key_cmp(streamer.key(), key);
            proof {
                assert(streamer.skey() == es.skip(i as int)[0].0);
                assert(es.skip(i as int).skip(1) =~= es.skip(i + 1));
            }
            if c == 1 {
                let ti = *streamer.value();
                proof {
                    assert(Self::slookup(es.skip(i as int), key@) == Some(
                        es.skip(i as int)[0].1,
                    ));
                }
                return Some(ti);
            }
            i += 1;
        }
    }
}

} // verus!
// (continued: the streamer and its range builder)

verus! {

/// Stateful iterator over a packed byte range of a term dictionary.
pub struct TermStreamerImpl {
    data: Vec<u8>,
    cursor: usize,
    stop: usize,
    current_key: Vec<u8>,
    current_value: TermInfo,
    gremaining: Ghost<Seq<(Seq<u8>, TermInfo)>>,
}

impl TermStreamerImpl {
    /// Entries not yet delivered, in order.
    pub closed spec fn sremaining(&self) -> Seq<(Seq<u8>, TermInfo)> {
        self.gremaining@
    }

    /// The current key.
    pub closed spec fn skey(&self) -> Seq<u8> {
        self.current_key@
    }

    /// The current value.
    pub closed spec fn svalue(&self) -> TermInfo {
        self.current_value
    }

    pub closed spec fn scursor(&self) -> int {
        self.cursor as int
    }

    pub closed spec fn sdata(&self) -> Seq<u8> {
        self.data@
    }

    pub closed spec fn wf(&self) -> bool {
        self.cursor <= self.stop <= self.data@.len() && dict_dec_n(
            self.data@.skip(self.cursor as int),
            self.current_key@,
            self.gremaining@.len() as int,
        ) == Some((self.gremaining@, self.stop - self.cursor))
    }

    /// Decodes the next entry: truncate the key to the shared prefix, append
    /// the suffix, read the value. `false` once the range is exhausted.
    pub fn advance(&mut self) -> (r: bool)
        requires
            old(self).wf(),
        ensures
            final(self).wf(),
            final(self).sdata() == old(self).sdata(),
            r == (old(self).sremaining().len() > 0),
            r ==> final(self).skey() == old(self).sremaining()[0].0 && final(self).svalue()
                == old(self).sremaining()[0].1 && final(self).sremaining() == old(
                self,
            ).sremaining().skip(1) && dict_step(
                old(self).sdata().skip(old(self).scursor()),
                old(self).skey(),
            ) == Some(
                (old(self).sremaining()[0], final(self).scursor() - old(self).scursor()),
            ),
            !r ==> *final(self) == *old(self),
    {
        let ghost rem = self.gremaining@;
        let ghost okey = self.current_key@;
        let ghost s = self.data@.skip(self.cursor as int);
        proof {
            lemma_dict_dec_n_props(s, okey, rem.len() as int);
        }
        if self.cursor >= self.stop {
            proof {
                if rem.len() > 0 {
                    assert(self.stop - self.cursor >= rem.len());
                }
            }
            return false;
        }
        proof {
            assert(rem.len() > 0) by {
                if rem.len() == 0 {
                    assert(self.stop - self.cursor == 0);
                }
            }
        }
        let ghost (entry, c0) = dict_step(s, okey)->Some_0;
        let dlen: usize = self.data.len();
        let klen: usize = self.current_key.len();
        let step1 = deserialize_vint(&self.data, self.cursor);
        let (common, o1) = step1.unwrap();
        proof {
            lemma_vint_dec_len(s);
            assert(s.skip(o1 - self.cursor) =~= self.data@.skip(o1 as int));
        }
        let step2 = deserialize_vint(&self.data, o1);
        let (slen, o2) = step2.unwrap();
        let ghost rest = s.skip(o1 - self.cursor).skip(o2 - o1);
        proof {
            assert(rest =~= self.data@.skip(o2 as int));
            lemma_term_info_len(rest.skip(slen as int));
        }
        self.current_key.truncate(common as usize);
        let suffix_end = o2 + (slen as usize);
        let mut p: usize = o2;
        while p < suffix_end
            invariant
                o2 <= p <= suffix_end,
                suffix_end <= self.data@.len(),
                self.data@ == old(self).sdata(),
                self.cursor == old(self).cursor,
                self.stop == old(self).stop,
                self.gremaining == old(self).gremaining,
                self.current_value == old(self).current_value,
                self.current_key@ =~= okey.take(common as int) + self.data@.subrange(
                    o2 as int,
                    p as int,
                ),
            decreases suffix_end - p,
        {
            let b = self.data[p];
            self.current_key.push(b);
            proof {
                assert(self.current_key@ =~= okey.take(common as int) + self.data@.subrange(
                    o2 as int,
                    p + 1,
                ));
            }
            p += 1;
        }
        proof {
            assert(self.data@.subrange(o2 as int, suffix_end as int) =~= rest.take(slen as int));
            assert(self.current_key@ =~= entry.0);
            assert(rest.skip(slen as int) =~= self.data@.skip(suffix_end as int));
        }
        let step3 = deserialize_vint(&self.data, suffix_end);
        let (df, o3) = step3.unwrap();
        proof {
            assert(self.data@.skip(suffix_end as int).skip(o3 - suffix_end) =~= self.data@.skip(
                o3 as int,
            ));
        }
        let step4 = deserialize_vint(&self.data, o3);
        let (po, o4) = step4.unwrap();
        proof {
            assert(self.data@.skip(o3 as int).skip(o4 - o3) =~= self.data@.skip(o4 as int));
        }
        let step5 = deserialize_vint(&self.data, o4);
        let (pp, o5) = step5.unwrap();
        self.current_value = TermInfo {
            doc_freq: df as u32,
            postings_offset: po as u32,
            positions_offset: pp as u32,
        };
        proof {
            assert(self.current_value == entry.1);
            assert(o5 - self.cursor == c0);
        }
        self.cursor = o5;
        self.gremaining = Ghost(rem.skip(1));
        proof {
            assert(self.data@.skip(o5 as int) =~= s.skip(c0));
        }
        true
    }

    /// The current key; valid between a successful `advance` and the next
    /// state change.
    pub fn key(&self) -> (r: &Vec<u8>)
        ensures
            r@ == self.skey(),
    {
        &self.current_key
    }

    /// The current value.
    pub fn value(&self) -> (r: &TermInfo)
        ensures
            *r == self.svalue(),
    {
        &self.current_value
    }

    /// Consumes the streamer, handing its current value out.
    pub fn extract_value(self) -> (r: TermInfo)
        ensures
            r == self.svalue(),
    {
        self.current_value
    }
}

/// A streamer over the dictionary resuming from the strictly-previous-key
/// position for `target_key`.
pub fn stream_before(term_dictionary: &TermDictionaryImpl, target_key: &Vec<u8>) -> (r:
    TermStreamerImpl)
    requires
        term_dictionary.wf(),
    ensures
        r.wf(),
        r.sremaining() == term_dictionary.sentries(),
        r.skey() == Seq::<u8>::empty(),
        r.scursor() == 0,
        r.sdata() == term_dictionary.sdata(),
        r.sremaining().len() <= r.sdata().len(),
    {
    let (prev_key, offset) = term_dictionary.strictly_previous_key(target_key);
    let data = term_dictionary.stream_data().clone();
    let stop = data.len();
    let r = TermStreamerImpl {
        data,
        cursor: offset,
        stop,
        current_key: prev_key,
        current_value: TermInfo { doc_freq: 0, postings_offset: 0, positions_offset: 0 },
        gremaining: Ghost(term_dictionary.sentries()),
    };
    proof {
        assert(r.data@.skip(0) =~= term_dictionary.sdata());
        lemma_dict_dec_n_props(r.data@.skip(0), Seq::empty(), r.gremaining@.len() as int);
    }
    r
}

/// Whether an entry's key lies below the bound: strictly, or allowing
/// equality.
pub open spec fn entry_below(e: (Seq<u8>, TermInfo), bound: Seq<u8>, strict: bool) -> bool {
    if strict {
        lex_lt(e.0, bound)
    } else {
        lex_lt(e.0, bound) || e.0 == bound
    }
}

/// Length of the leading run of entries below the bound: where a range
/// starting (or ending) at the bound begins (or stops).
pub open spec fn cut(es: Seq<(Seq<u8>, TermInfo)>, bound: Seq<u8>, strict: bool) -> int
    decreases es.len(),
{
    if es.len() == 0 {
        0
    } else if entry_below(es[0], bound, strict) {
        1 + cut(es.skip(1), bound, strict)
    } else {
        0
    }
}

pub proof fn lemma_cut_bounds(es: Seq<(Seq<u8>, TermInfo)>, bound: Seq<u8>, strict: bool)
    ensures
        0 <= cut(es, bound, strict) <= es.len(),
    decreases es.len(),
{
    if es.len() > 0 && entry_below(es[0], bound, strict) {
        lemma_cut_bounds(es.skip(1), bound, strict);
    }
}

/// Bounds of the two cuts a bound pair induces.
pub proof fn lemma_cut_bounds_pub(
    es: Seq<(Seq<u8>, TermInfo)>,
    lb: crate::range_query::Bound<Seq<u8>>,
    rb: crate::range_query::Bound<Seq<u8>>,
)
    ensures
        0 <= crate::range_query::lo_cut(es, lb) <= es.len(),
        0 <= crate::range_query::hi_cut(es, rb) <= es.len(),
        crate::range_query::lo_cut(es, lb) <= crate::range_query::hi_clamped(es, lb, rb)
            <= es.len(),
{
    match lb {
        crate::range_query::Bound::Included(k) => lemma_cut_bounds(es, k, true),
        crate::range_query::Bound::Excluded(k) => lemma_cut_bounds(es, k, false),
        crate::range_query::Bound::Unbounded => {},
    }
    match rb {
        crate::range_query::Bound::Included(k) => lemma_cut_bounds(es, k, false),
        crate::range_query::Bound::Excluded(k) => lemma_cut_bounds(es, k, true),
        crate::range_query::Bound::Unbounded => {},
    }
}

pub proof fn lemma_cut_is(es: Seq<(Seq<u8>, TermInfo)>, bound: Seq<u8>, strict: bool, i: int)
    requires
        0 <= i <= es.len(),
        forall|j: int| 0 <= j < i ==> entry_below(#[trigger] es[j], bound, strict),
        i < es.len() ==> !entry_below(es[i], bound, strict),
    ensures
        cut(es, bound, strict) == i,
    decreases i,
{
    if i > 0 {
        assert(entry_below(es[0], bound, strict));
        assert(forall|j: int|
            0 <= j < i - 1 ==> entry_below(#[trigger] es.skip(1)[j], bound, strict)) by {
            assert(forall|j: int| 0 <= j < i - 1 ==> es.skip(1)[j] == es[j + 1]);
        }
        if i - 1 < es.skip(1).len() {
            assert(es.skip(1)[i - 1] == es[i]);
        }
        lemma_cut_is(es.skip(1), bound, strict, i - 1);
    } else {
        if es.len() > 0 {
            assert(!entry_below(es[0], bound, strict));
        }
    }
}

/// Returns the byte offset of the first entry whose key fails the bound test,
/// and the key holding right before it: the narrowed range edge.
fn get_offset(target: &Vec<u8>, strict: bool, streamer: TermStreamerImpl, dict:
    &TermDictionaryImpl) -> (r: (usize, Vec<u8>))
    requires
        dict.wf(),
        streamer.wf(),
        streamer.sremaining() == dict.sentries(),
        streamer.skey() == Seq::<u8>::empty(),
        streamer.scursor() == 0,
        streamer.sdata() == dict.sdata(),
    ensures
        ({
            let i = cut(dict.sentries(), target@, strict);
            dict_dec_n(dict.sdata(), Seq::empty(), i) == Some(
                (dict.sentries().take(i), r.0 as int),
            ) && r.1@ == last_key(Seq::empty(), dict.sentries().take(i)) && r.0
                <= dict.sdata().len()
        }),
{
    let ghost es = dict.sentries();
    let mut st = streamer;
    let mut prev_offset: usize = 0;
    let mut prev_data: Vec<u8> = Vec::new();
    let ghost mut i: int = 0;
    proof {
        assert(es.take(0) =~= Seq::<(Seq<u8>, TermInfo)>::empty());
        assert(dict_dec_n(dict.sdata(), Seq::empty(), 0) == Some(
            (es.take(0), 0int),
        ));
    }
    loop
        invariant
            st.wf(),
            st.sdata() == dict.sdata(),
            st.sremaining() == es.skip(i),
            st.skey() == last_key(Seq::empty(), es.take(i)),
            0 <= i <= es.len(),
            es == dict.sentries(),
            dict_dec_n(dict.sdata(), Seq::empty(), i) == Some((es.take(i), st.scursor())),
            prev_offset == st.scursor(),
            prev_data@ == st.skey(),
            prev_offset <= dict.sdata().len(),
            forall|j: int| 0 <= j < i ==> entry_below(#[trigger] es[j], target@, strict),
        decreases es.len() - i,
    {
        let ghost pre = st;
        if !st.advance() {
            proof {
                assert(es.skip(i).len() == 0);
                lemma_cut_is(es, target@, strict, i);
            }
            return (prev_offset, prev_data);
        }
        proof {
            assert(st.skey() == es.skip(i)[0].0);
            assert(es.skip(i)[0] == es[i]);
        }
        let c = key_cmp(st.key(), target);
        let below = if strict {
            c == 0
        } else {
            c != 2
        };
        if !below {
            proof {
                assert(!entry_below(es[i], target@, strict));
                lemma_cut_is(es, target@, strict, i);
            }
            return (prev_offset, prev_data);
        }
        proof {
            assert(entry_below(es[i], target@, strict));
            // extend the prefix decode by the entry just consumed
            assert(dict_dec_n(
                dict.sdata().skip(pre.scursor()),
                pre.skey(),
                1,
            ) == Some((seq![es[i]], st.scursor() - pre.scursor()))) by {
                assert(dict_dec_n(
                    dict.sdata().skip(pre.scursor()).skip(st.scursor() - pre.scursor()),
                    es[i].0,
                    0,
                ) == Some((Seq::<(Seq<u8>, TermInfo)>::empty(), 0int)));
                assert(seq![es[i]] + Seq::<(Seq<u8>, TermInfo)>::empty() =~= seq![es[i]]);
            }
            assert(last_key(Seq::empty(), es.take(i)) == pre.skey());
            lemma_dict_dec_n_concat(dict.sdata(), Seq::empty(), i, 1);
            assert(es.take(i) + seq![es[i]] =~= es.take(i + 1));
            assert(es.skip(i).skip(1) =~= es.skip(i + 1));
            assert(last_key(Seq::empty(), es.take(i + 1)) == es[i].0) by {
                assert(es.take(i + 1).last() == es[i]);
            }
            i = i + 1;
        }
        prev_offset = st.cursor;
        let k = st.key();
        prev_data = k.clone();
        proof {
            lemma_dict_dec_n_props(dict.sdata(), Seq::empty(), i);
        }
    }
}

} // verus!
// (continued: the range builder)

verus! {

/// Builds a bounded streamer over a dictionary: each bound operation narrows
/// the byte range `[offset_from, offset_to)` by scanning for the first key
/// failing the bound, and `into_stream` walks the narrowed range.
pub struct TermStreamerBuilderImpl<'a> {
    term_dictionary: &'a TermDictionaryImpl,
    offset_from: usize,
    offset_to: usize,
    current_key: Vec<u8>,
    glo: Ghost<int>,
    ghi: Ghost<int>,
}

impl<'a> TermStreamerBuilderImpl<'a> {
    /// Index of the first entry in range.
    pub closed spec fn slo(&self) -> int {
        self.glo@
    }

    /// Index one past the last entry in range.
    pub closed spec fn shi(&self) -> int {
        self.ghi@
    }

    pub closed spec fn sdict(&self) -> &'a TermDictionaryImpl {
        self.term_dictionary
    }

    pub closed spec fn wf(&self) -> bool {
        let es = self.term_dictionary.sentries();
        &&& self.term_dictionary.wf()
        &&& 0 <= self.glo@ <= es.len()
        &&& 0 <= self.ghi@ <= es.len()
        &&& dict_dec_n(self.term_dictionary.sdata(), Seq::empty(), self.glo@) == Some(
            (es.take(self.glo@), self.offset_from as int),
        )
        &&& self.current_key@ == last_key(Seq::empty(), es.take(self.glo@))
        &&& dict_dec_n(self.term_dictionary.sdata(), Seq::empty(), self.ghi@) == Some(
            (es.take(self.ghi@), self.offset_to as int),
        )
    }

    /// A builder spanning the whole dictionary.
    pub fn new(term_dictionary: &'a TermDictionaryImpl) -> (r: Self)
        requires
            term_dictionary.wf(),
        ensures
            r.wf(),
            r.slo() == 0,
            r.shi() == term_dictionary.sentries().len(),
            r.sdict() == term_dictionary,
    {
        let data_len = term_dictionary.stream_data().len();
        let ghost es = term_dictionary.sentries();
        proof {
            assert(es.take(0) =~= Seq::<(Seq<u8>, TermInfo)>::empty());
            assert(es.take(es.len() as int) =~= es);
        }
        TermStreamerBuilderImpl {
            term_dictionary,
            offset_from: 0,
            offset_to: data_len,
            current_key: Vec::new(),
            glo: Ghost(0int),
            ghi: Ghost(term_dictionary.sentries().len() as int),
        }
    }

    /// Keeps only terms at or above `bound`.
    #[verifier::rlimit(100)]
    pub fn ge(self, bound: &Vec<u8>) -> (r: Self)
        requires
            self.wf(),
        ensures
            r.wf(),
            r.slo() == cut(self.sdict().sentries(), bound@, true),
            r.shi() == self.shi(),
            r.sdict() == self.sdict(),
    {
        let streamer = stream_before(self.term_dictionary, bound);
        proof {
            lemma_cut_bounds(self.term_dictionary.sentries(), bound@, true);
        }
        let (offset_before, current_key) = get_offset(bound, true, streamer, self.term_dictionary);
        TermStreamerBuilderImpl {
            offset_from: offset_before,
            current_key,
            glo: Ghost(cut(self.term_dictionary.sentries(), bound@, true)),
            ..self
        }
    }

    /// Keeps only terms strictly above `bound`.
    #[verifier::rlimit(100)]
    pub fn gt(self, bound: &Vec<u8>) -> (r: Self)
        requires
            self.wf(),
        ensures
            r.wf(),
            r.slo() == cut(self.sdict().sentries(), bound@, false),
            r.shi() == self.shi(),
            r.sdict() == self.sdict(),
    {
        let streamer = stream_before(self.term_dictionary, bound);
        proof {
            lemma_cut_bounds(self.term_dictionary.sentries(), bound@, false);
        }
        let (offset_before, current_key) = get_offset(bound, false, streamer, self.term_dictionary);
        TermStreamerBuilderImpl {
            offset_from: offset_before,
            current_key,
            glo: Ghost(cut(self.term_dictionary.sentries(), bound@, false)),
            ..self
        }
    }

    /// Keeps only terms strictly below `bound`.
    #[verifier::rlimit(100)]
    pub fn lt(self, bound: &Vec<u8>) -> (r: Self)
        requires
            self.wf(),
        ensures
            r.wf(),
            r.shi() == cut(self.sdict().sentries(), bound@, true),
            r.slo() == self.slo(),
            r.sdict() == self.sdict(),
    {
        let streamer = stream_before(self.term_dictionary, bound);
        proof {
            lemma_cut_bounds(self.term_dictionary.sentries(), bound@, true);
        }
        let (offset_before, _discarded_key) = get_offset(
            bound,
            true,
            streamer,
            self.term_dictionary,
        );
        TermStreamerBuilderImpl {
            offset_to: offset_before,
            ghi: Ghost(cut(self.term_dictionary.sentries(), bound@, true)),
            ..self
        }
    }

    /// Keeps only terms at or below `bound`.
    #[verifier::rlimit(100)]
    pub fn le(self, bound: &Vec<u8>) -> (r: Self)
        requires
            self.wf(),
        ensures
            r.wf(),
            r.shi() == cut(self.sdict().sentries(), bound@, false),
            r.slo() == self.slo(),
            r.sdict() == self.sdict(),
    {
        let streamer = stream_before(self.term_dictionary, bound);
        proof {
            lemma_cut_bounds(self.term_dictionary.sentries(), bound@, false);
        }
        let (offset_before, _discarded_key) = get_offset(
            bound,
            false,
            streamer,
            self.term_dictionary,
        );
        TermStreamerBuilderImpl {
            offset_to: offset_before,
            ghi: Ghost(cut(self.term_dictionary.sentries(), bound@, false)),
            ..self
        }
    }

    /// The entries the finished streamer will deliver.
    pub open spec fn sselected(es: Seq<(Seq<u8>, TermInfo)>, lo: int, hi: int) -> Seq<
        (Seq<u8>, TermInfo),
    > {
        es.subrange(lo, if hi < lo {
            lo
        } else {
            hi
        })
    }

    /// Finalises the range and returns a streamer over it, positioned so that
    /// the first `advance` lands on the first in-range term.
    #[verifier::rlimit(100)]
    pub fn into_stream(self) -> (r: TermStreamerImpl)
        requires
            self.wf(),
        ensures
            r.wf(),
            r.sremaining() == Self::sselected(
                self.sdict().sentries(),
                self.slo(),
                self.shi(),
            ),
    {
        let ghost es = self.term_dictionary.sentries();
        let ghost lo = self.glo@;
        let ghost hi = self.ghi@;
        let data = self.term_dictionary.stream_data().clone();
        let start = self.offset_from;
        let stop = if self.offset_to > start {
            self.offset_to
        } else {
            start
        };
        proof {
            let dd = self.term_dictionary.sdata();
            let n = es.len() as int;
            lemma_dict_dec_n_props(dd, Seq::empty(), lo);
            lemma_dict_dec_n_props(dd, Seq::empty(), hi);
            if hi >= lo {
                // split the `hi`-prefix decode at `lo`
                lemma_dict_dec_n_split(dd, Seq::empty(), lo, hi - lo);
                let c1 = choose|c1: int|
                    #[trigger] dict_dec_n(dd, Seq::empty(), lo) == Some(
                        (es.take(hi).take(lo), c1),
                    ) && 0 <= c1 <= self.offset_to as int && dict_dec_n(
                        dd.skip(c1),
                        last_key(Seq::empty(), es.take(hi).take(lo)),
                        hi - lo,
                    ) == Some((es.take(hi).skip(lo), self.offset_to - c1));
                assert(es.take(hi).take(lo) =~= es.take(lo));
                assert(c1 == self.offset_from as int);
                assert(es.take(hi).skip(lo) =~= es.subrange(lo, hi));
                assert(self.offset_to >= self.offset_from);
                assert(Self::sselected(es, lo, hi) =~= es.subrange(lo, hi));
            } else {
                // crossed bounds: the range is empty
                lemma_dict_dec_n_split(dd, Seq::empty(), hi, lo - hi);
                let c1 = choose|c1: int|
                    #[trigger] dict_dec_n(dd, Seq::empty(), hi) == Some(
                        (es.take(lo).take(hi), c1),
                    ) && 0 <= c1 <= self.offset_from as int && dict_dec_n(
                        dd.skip(c1),
                        last_key(Seq::empty(), es.take(lo).take(hi)),
                        lo - hi,
                    ) == Some((es.take(lo).skip(hi), self.offset_from - c1));
                assert(es.take(lo).take(hi) =~= es.take(hi));
                assert(c1 == self.offset_to as int);
                assert(self.offset_to <= self.offset_from);
                assert(Self::sselected(es, lo, hi) =~= Seq::<(Seq<u8>, TermInfo)>::empty());
            }
        }
        let r = TermStreamerImpl {
            data,
            cursor: start,
            stop,
            current_key: self.current_key,
            current_value: TermInfo { doc_freq: 0, postings_offset: 0, positions_offset: 0 },
            gremaining: Ghost(Self::sselected(es, lo, hi)),
        };
        proof {
            if hi >= lo {
                assert(r.data@.skip(start as int) =~= self.term_dictionary.sdata().skip(
                    start as int,
                ));
                lemma_dict_dec_n_props(r.data@.skip(start as int), r.current_key@, hi - lo);
            } else {
                assert(dict_dec_n(r.data@.skip(start as int), r.current_key@, 0) == Some(
                    (Seq::<(Seq<u8>, TermInfo)>::empty(), 0int),
                ));
            }
        }
        r
    }
}

} // verus!
