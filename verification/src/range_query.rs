//! Range queries: fan a key range out over the term dictionary, union every
//! matching term's documents into one bitset, and wrap it as a docset.

use vstd::prelude::*;
use crate::bitset::{BitSet, BitSetDocSet, all_docs, bit_of};
use crate::docset::{DocSet, lemma_filter_congruence};
use crate::schema::{Field, Term, i64_key, u64_key};
use crate::segment::{
    InvertedIndex, QueryError, SegmentPostingsOption, SegmentReader, postings_at, ti_ok,
};
use crate::streamer::{
    TermDictionaryImpl, TermInfo, TermStreamerBuilderImpl, TermStreamerImpl, cut,
};
use vstd::string::StringSliceAdditionalSpecFns;
use vstd::string::StrSliceExecFns;

verus! {

/// An interval edge over keys or values.
#[derive(Clone, Debug)]
pub enum Bound<T> {
    /// The edge value is inside the interval.
    Included(T),
    /// The edge value is outside the interval.
    Excluded(T),
    /// No edge on this side.
    Unbounded,
}

/// The byte-level view of a byte-valued bound.
pub open spec fn bound_view(b: Bound<Vec<u8>>) -> Bound<Seq<u8>> {
    match b {
        Bound::Included(v) => Bound::Included(v@),
        Bound::Excluded(v) => Bound::Excluded(v@),
        Bound::Unbounded => Bound::Unbounded,
    }
}

/// Applies a key encoding to a bound's value.
pub fn map_bound<TFrom, Transform: Fn(&TFrom) -> Vec<u8>>(
    bound: &Bound<TFrom>,
    transform: &Transform,
) -> (r: Bound<Vec<u8>>)
    requires
        forall|v: &TFrom| #[trigger] transform.requires((v,)),
    ensures
        match (bound, r) {
            (Bound::Included(v), Bound::Included(b)) => transform.ensures((v,), b),
            (Bound::Excluded(v), Bound::Excluded(b)) => transform.ensures((v,), b),
            (Bound::Unbounded, Bound::Unbounded) => true,
            _ => false,
        },
{
    match bound {
        Bound::Included(from_val) => Bound::Included(transform(from_val)),
        Bound::Excluded(from_val) => Bound::Excluded(transform(from_val)),
        Bound::Unbounded => Bound::Unbounded,
    }
}

/// A copy of a byte-valued bound.
pub fn clone_bound(b: &Bound<Vec<u8>>) -> (r: Bound<Vec<u8>>)
    ensures
        bound_view(r) == bound_view(*b),
{
    match b {
        Bound::Included(v) => Bound::Included(v.clone()),
        Bound::Excluded(v) => Bound::Excluded(v.clone()),
        Bound::Unbounded => Bound::Unbounded,
    }
}

/// Index of the first dictionary entry inside the left bound.
pub open spec fn lo_cut(es: Seq<(Seq<u8>, TermInfo)>, b: Bound<Seq<u8>>) -> int {
    match b {
        Bound::Included(k) => cut(es, k, true),
        Bound::Excluded(k) => cut(es, k, false),
        Bound::Unbounded => 0,
    }
}

/// Index one past the last dictionary entry inside the right bound.
pub open spec fn hi_cut(es: Seq<(Seq<u8>, TermInfo)>, b: Bound<Seq<u8>>) -> int {
    match b {
        Bound::Included(k) => cut(es, k, false),
        Bound::Excluded(k) => cut(es, k, true),
        Bound::Unbounded => es.len() as int,
    }
}

/// Clamps the upper cut to the lower one when the bounds cross.
pub open spec fn hi_clamped(es: Seq<(Seq<u8>, TermInfo)>, lb: Bound<Seq<u8>>, rb: Bound<Seq<u8>>) -> int {
    if hi_cut(es, rb) < lo_cut(es, lb) {
        lo_cut(es, lb)
    } else {
        hi_cut(es, rb)
    }
}

/// Membership in the range result: a document of some term within the bounds.
/// A function of the segment's frozen state and the bounds alone, so the
/// result bitset of a range query is, too.
pub open spec fn range_member(
    es: Seq<(Seq<u8>, TermInfo)>,
    pd: Seq<u8>,
    hf: bool,
    lo: int,
    hi: int,
) -> spec_fn(u32) -> bool {
    |d: u32|
        exists|i: int|
            lo <= i < hi && (postings_at(pd, (#[trigger] es[i]).1, hf))->Some_0.0.contains(d)
}

/// A query matching every document holding at least one term of the field
/// within the key range.
#[derive(Clone, Debug)]
pub struct RangeQuery {
    field: Field,
    left_bound: Bound<Vec<u8>>,
    right_bound: Bound<Vec<u8>>,
}

impl RangeQuery {
    pub closed spec fn sfield(&self) -> Field {
        self.field
    }

    pub closed spec fn sleft(&self) -> Bound<Seq<u8>> {
        bound_view(self.left_bound)
    }

    pub closed spec fn sright(&self) -> Bound<Seq<u8>> {
        bound_view(self.right_bound)
    }

    /// A range over a signed-integer field.
    pub fn new_i64(field: Field, left_bound: Bound<i64>, right_bound: Bound<i64>) -> (r:
        RangeQuery)
        ensures
            r.sfield() == field,
            r.sleft() == map_bound_view_i64(left_bound),
            r.sright() == map_bound_view_i64(right_bound),
    {
        let make_term_val = |val: &i64| -> (k: Vec<u8>)
            ensures
                k@ == i64_key(*val),
            {
                let t = Term::from_field_i64(field, *val);
                let b = t.value_bytes().clone();
                b
            };
        RangeQuery {
            field,
            left_bound: map_bound(&left_bound, &make_term_val),
            right_bound: map_bound(&right_bound, &make_term_val),
        }
    }

    /// A range over an unsigned-integer field.
    pub fn new_u64(field: Field, left_bound: Bound<u64>, right_bound: Bound<u64>) -> (r:
        RangeQuery)
        ensures
            r.sfield() == field,
            r.sleft() == map_bound_view_u64(left_bound),
            r.sright() == map_bound_view_u64(right_bound),
    {
        let make_term_val = |val: &u64| -> (k: Vec<u8>)
            ensures
                k@ == u64_key(*val),
            {
                let t = Term::from_field_u64(field, *val);
                let b = t.value_bytes().clone();
                b
            };
        RangeQuery {
            field,
            left_bound: map_bound(&left_bound, &make_term_val),
            right_bound: map_bound(&right_bound, &make_term_val),
        }
    }

    /// A range over a text field.
    pub fn new_str(field: Field, left_bound: Bound<&str>, right_bound: Bound<&str>) -> (r:
        RangeQuery)
        ensures
            r.sfield() == field,
    {
        let make_term_val = |val: &&str| -> (k: Vec<u8>) { val.as_bytes_vec() };
        RangeQuery {
            field,
            left_bound: map_bound(&left_bound, &make_term_val),
            right_bound: map_bound(&right_bound, &make_term_val),
        }
    }

    /// The weight binding this query to segments.
    pub fn weight(&self) -> (r: RangeWeight)
        ensures
            r.sfield() == self.sfield(),
            r.sleft() == self.sleft(),
            r.sright() == self.sright(),
    {
        RangeWeight {
            field: self.field,
            left_bound: clone_bound(&self.left_bound),
            right_bound: clone_bound(&self.right_bound),
        }
    }
}

pub open spec fn map_bound_view_i64(b: Bound<i64>) -> Bound<Seq<u8>> {
    match b {
        Bound::Included(v) => Bound::Included(i64_key(v)),
        Bound::Excluded(v) => Bound::Excluded(i64_key(v)),
        Bound::Unbounded => Bound::Unbounded,
    }
}

pub open spec fn map_bound_view_u64(b: Bound<u64>) -> Bound<Seq<u8>> {
    match b {
        Bound::Included(v) => Bound::Included(u64_key(v)),
        Bound::Excluded(v) => Bound::Excluded(u64_key(v)),
        Bound::Unbounded => Bound::Unbounded,
    }
}

/// The range query bound to a segment.
pub struct RangeWeight {
    field: Field,
    left_bound: Bound<Vec<u8>>,
    right_bound: Bound<Vec<u8>>,
}

impl RangeWeight {
    pub closed spec fn sfield(&self) -> Field {
        self.field
    }

    pub closed spec fn sleft(&self) -> Bound<Seq<u8>> {
        bound_view(self.left_bound)
    }

    pub closed spec fn sright(&self) -> Bound<Seq<u8>> {
        bound_view(self.right_bound)
    }

    /// Streams the dictionary entries within the bounds, in ascending key
    /// order.
    pub fn term_range<'a>(&self, term_dict: &'a TermDictionaryImpl) -> (r: TermStreamerImpl)
        requires
            term_dict.wf(),
        ensures
            r.wf(),
            r.sremaining() == term_dict.sentries().subrange(
                lo_cut(term_dict.sentries(), self.sleft()),
                hi_clamped(term_dict.sentries(), self.sleft(), self.sright()),
            ),
    {
        let mut term_stream_builder = TermStreamerBuilderImpl::new(term_dict);
        term_stream_builder = match &self.left_bound {
            Bound::Included(term_val) => term_stream_builder.ge(term_val),
            Bound::Excluded(term_val) => term_stream_builder.gt(term_val),
            Bound::Unbounded => term_stream_builder,
        };
        term_stream_builder = match &self.right_bound {
            Bound::Included(term_val) => term_stream_builder.le(term_val),
            Bound::Excluded(term_val) => term_stream_builder.lt(term_val),
            Bound::Unbounded => term_stream_builder,
        };
        term_stream_builder.into_stream()
    }

    /// Builds the scorer's docset: walks the in-range terms, inserts every
    /// document of each term's posting list into a bitset sized to the
    /// segment, and wraps the bitset. The result is a function of the frozen
    /// segment, the field and the two bounds alone.
    #[verifier::rlimit(100)]
    pub fn scorer(&self, reader: &SegmentReader) -> (r: Result<BitSetDocSet, QueryError>)
        requires
            reader.wf(),
        ensures
            match r {
                Ok(ds) => SegmentReader::sfield_at(reader.sfields(), self.sfield()) is Some && ({
                    let ii = reader.sfields()[SegmentReader::sfield_at(
                        reader.sfields(),
                        self.sfield(),
                    )->Some_0].1;
                    let es = ii.sentries();
                    ds.spos() == -1 && ds.wf() && ds.sdocs() == all_docs(
                        reader.smax_doc(),
                    ).filter(
                        range_member(
                            es,
                            ii.spostings_data(),
                            ii.shas_freq(),
                            lo_cut(es, self.sleft()),
                            hi_clamped(es, self.sleft(), self.sright()),
                        ),
                    )
                }),
                Err(e) => SegmentReader::sfield_at(reader.sfields(), self.sfield()) is None && e
                    == QueryError::FieldDoesNotExist,
            },
    {
        let max_doc = reader.max_doc();
        let mut doc_bitset = BitSet::with_max_value(max_doc);
        let inverted_index = match reader.inverted_index(self.field) {
            Some(ii) => ii,
            None => {
                return Err(QueryError::FieldDoesNotExist);
            },
        };
        let ghost fi = SegmentReader::sfield_at(reader.sfields(), self.sfield())->Some_0;
        let ghost es = inverted_index.sentries();
        let ghost pd = inverted_index.spostings_data();
        let ghost hf = inverted_index.shas_freq();
        let ghost lo = lo_cut(es, self.sleft());
        let ghost hi = hi_clamped(es, self.sleft(), self.sright());
        proof {
            crate::segment::lemma_sfield_at_bounds(reader.sfields(), self.sfield());
            reader.lemma_field_wf(fi);
            inverted_index.lemma_wf(max_doc);
        }
        let term_dict = inverted_index.terms();
        let mut term_range = self.term_range(term_dict);
        let ghost mut t: int = lo;
        proof {
            crate::streamer::lemma_cut_bounds_pub(es, self.sleft(), self.sright());
        }
        let mut terms_done: bool = false;
        while !terms_done
            invariant
                terms_done ==> t == hi,
                reader.wf(),
                term_range.wf(),
                es == inverted_index.sentries(),
                pd == inverted_index.spostings_data(),
                hf == inverted_index.shas_freq(),
                inverted_index.wf(max_doc),
                max_doc == reader.smax_doc(),
                lo <= t <= hi <= es.len(),
                0 <= lo,
                term_range.sremaining() == es.subrange(t, hi),
                doc_bitset.wf(),
                doc_bitset.smax() == max_doc,
                forall|d: u32|
                    #[trigger] doc_bitset.shas(d) == range_member(es, pd, hf, lo, t)(d),
            decreases hi - t, (if terms_done {
                0int
            } else {
                1int
            }),
        {
            if !term_range.advance() {
                proof {
                    assert(es.subrange(t, hi).len() == 0);
                }
                terms_done = true;
            } else {
            let term_info = *term_range.value();
            proof {
                assert(term_range.svalue() == es.subrange(t, hi)[0].1);
                assert(es.subrange(t, hi)[0] == es[t]);
                assert(es.subrange(t, hi).skip(1) =~= es.subrange(t + 1, hi));
                inverted_index.lemma_entry_ok(max_doc, t);
            }
            let mut block_segment_postings = inverted_index.read_block_postings_from_terminfo(
                &term_info,
                SegmentPostingsOption::NoFreq,
            );
            let ghost tdocs = postings_at(pd, term_info, hf)->Some_0.0;
            let mut blocks_done: bool = false;
            while !blocks_done
                invariant
                    blocks_done ==> block_segment_postings.sshown() == tdocs.len(),
                    block_segment_postings.wf(),
                    block_segment_postings.sdocs_all() == tdocs,
                    0 <= block_segment_postings.sshown()
                        <= block_segment_postings.sdoc_freq(),
                    tdocs.len() == block_segment_postings.sdoc_freq(),
                    tdocs == postings_at(pd, es[t].1, hf)->Some_0.0,
                    forall|k: int| 0 <= k < tdocs.len() ==> #[trigger] tdocs[k] < max_doc,
                    doc_bitset.wf(),
                    doc_bitset.smax() == max_doc,
                    lo <= t < hi <= es.len(),
                    0 <= lo,
                    es == inverted_index.sentries(),
                    pd == inverted_index.spostings_data(),
                    hf == inverted_index.shas_freq(),
                    forall|d: u32|
                        #[trigger] doc_bitset.shas(d) == (range_member(es, pd, hf, lo, t)(d)
                            || tdocs.take(block_segment_postings.sshown()).contains(d)),
                decreases block_segment_postings.sdoc_freq() - block_segment_postings.sshown(), (
            if blocks_done {
                0int
            } else {
                1int
            }),
            {
                let ghost shown0 = block_segment_postings.sshown();
                if !block_segment_postings.advance() {
                    blocks_done = true;
                } else {
                let block_len = block_segment_postings.block_len();
                let mut bi: usize = 0;
                while bi < block_len
                    invariant
                        bi <= block_len,
                        block_segment_postings.wf(),
                        block_segment_postings.sdocs_all() == tdocs,
                        block_len == block_segment_postings.sblock().len(),
                        block_segment_postings.sshown() == shown0 + block_len,
                        block_segment_postings.sblock() == tdocs.subrange(
                            shown0,
                            shown0 + block_len,
                        ),
                        0 <= shown0,
                        shown0 + block_len <= tdocs.len(),
                        forall|k: int| 0 <= k < tdocs.len() ==> #[trigger] tdocs[k] < max_doc,
                        doc_bitset.wf(),
                        doc_bitset.smax() == max_doc,
                        lo <= t < hi <= es.len(),
                        0 <= lo,
                        es == inverted_index.sentries(),
                        pd == inverted_index.spostings_data(),
                        hf == inverted_index.shas_freq(),
                        forall|d: u32|
                            #[trigger] doc_bitset.shas(d) == (range_member(es, pd, hf, lo, t)(
                                d,
                            ) || tdocs.take(shown0 + bi).contains(d)),
                    decreases block_len - bi,
                {
                    let ghost sh = block_segment_postings.sshown();
                    let ghost bl = block_len as int;
                    let d = block_segment_postings.doc(bi);
                    proof {
                        assert(tdocs.subrange(shown0, shown0 + block_len)[bi as int] == tdocs[shown0
                            + bi]);
                        assert(d == tdocs[shown0 + bi]);
                    }
                    doc_bitset.insert(d);
                    proof {
                        assert forall|d2: u32|
                            #[trigger] doc_bitset.shas(d2) == (range_member(es, pd, hf, lo, t)(
                                d2,
                            ) || tdocs.take(shown0 + bi + 1).contains(d2)) by {
                            assert(tdocs.take(shown0 + bi + 1) =~= tdocs.take(shown0 + bi).push(
                                tdocs[shown0 + bi],
                            ));
                            if doc_bitset.shas(d2) {
                                if d2 == d {
                                    assert(tdocs.take(shown0 + bi + 1)[shown0 + bi] == d2);
                                } else {
                                    if tdocs.take(shown0 + bi).contains(d2) {
                                        let k = choose|k: int|
                                            0 <= k < shown0 + bi && #[trigger] tdocs.take(
                                                shown0 + bi,
                                            )[k] == d2;
                                        assert(tdocs.take(shown0 + bi + 1)[k] == d2);
                                    }
                                }
                            } else {
                                if tdocs.take(shown0 + bi + 1).contains(d2) {
                                    let k = choose|k: int|
                                        0 <= k < shown0 + bi + 1 && #[trigger] tdocs.take(
                                            shown0 + bi + 1,
                                        )[k] == d2;
                                    if k < shown0 + bi {
                                        assert(tdocs.take(shown0 + bi)[k] == d2);
                                    }
                                }
                            }
                        }
                    }
                    bi += 1;
                }
                }
            }
            proof {
                assert(block_segment_postings.sshown() == tdocs.len());
                assert(tdocs.take(tdocs.len() as int) =~= tdocs);
                assert forall|d: u32|
                    #[trigger] doc_bitset.shas(d) == range_member(es, pd, hf, lo, t + 1)(
                        d,
                    ) by {
                    if doc_bitset.shas(d) {
                        if range_member(es, pd, hf, lo, t)(d) {
                            let i = choose|i: int|
                                lo <= i < t && (postings_at(
                                    pd,
                                    (#[trigger] es[i]).1,
                                    hf,
                                ))->Some_0.0.contains(d);
                            assert(lo <= i < t + 1 && (postings_at(
                                pd,
                                es[i].1,
                                hf,
                            ))->Some_0.0.contains(d));
                        } else {
                            assert(lo <= t < t + 1 && (postings_at(
                                pd,
                                es[t].1,
                                hf,
                            ))->Some_0.0.contains(d));
                        }
                    } else {
                        if range_member(es, pd, hf, lo, t + 1)(d) {
                            let i = choose|i: int|
                                lo <= i < t + 1 && (postings_at(
                                    pd,
                                    (#[trigger] es[i]).1,
                                    hf,
                                ))->Some_0.0.contains(d);
                            if i < t {
                                assert(range_member(es, pd, hf, lo, t)(d));
                            }
                        }
                    }
                }
                t = t + 1;
            }
            }
        }
        proof {
            assert(t == hi);
        }
        let ghost words = doc_bitset.swords();
        let ghost gb = doc_bitset;
        let r = BitSetDocSet::from(doc_bitset);
        proof {
            assert forall|i: int| 0 <= i < all_docs(max_doc).len() implies (bit_of(words)(
                #[trigger] all_docs(max_doc)[i],
            ) == range_member(es, pd, hf, lo, hi)(all_docs(max_doc)[i])) by {
                let d = all_docs(max_doc)[i];
                assert(gb.shas(d) == range_member(es, pd, hf, lo, t)(d));
            }
            lemma_filter_congruence(
                all_docs(max_doc),
                bit_of(words),
                range_member(es, pd, hf, lo, hi),
            );
        }
        Ok(r)
    }
}

} // verus!
