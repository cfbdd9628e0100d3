//! The term query bound to a segment: resolves the term, opens its posting
//! list, and wraps it as the scorer's docset. The score of a document is
//! `idf * sqrt(term_freq) * fieldnorm`, computed by the floating-point layer
//! above from the integers this scorer exposes.

use vstd::prelude::*;
use crate::bitset::DeleteBitSet;
use crate::docset::DocSet;
use crate::schema::Term;
use crate::segment::{
    FieldNormReader, QueryError, SegmentPostingsOption, SegmentReader, postings_at,
};
use crate::segment_postings::{SegmentPostings, live_of};
use crate::streamer::TermDictionaryImpl;

verus! {

/// A term scorer's integer state: the posting cursor plus what the scoring
/// formula needs (`num_docs`, `doc_freq`, per-document field norms).
pub struct TermScorer {
    /// The document cursor over the term's posting list.
    pub postings: SegmentPostings,
    /// Total number of documents in the collection.
    pub num_docs: u32,
    /// Number of documents holding the term.
    pub doc_freq: u32,
    /// Field-length norms, when the field stores them.
    pub fieldnorm_reader_opt: Option<FieldNormReader>,
}

/// The term query bound to a segment.
pub struct TermWeight {
    /// Total number of documents in the collection.
    pub num_docs: u32,
    /// Number of documents holding the term, across the collection.
    pub doc_freq: u32,
    /// The queried term.
    pub term: Term,
    /// How much of the posting list to decode.
    pub segment_postings_options: SegmentPostingsOption,
}

impl TermWeight {
    /// The documents the scorer will deliver: the term's posting list with
    /// tombstoned documents removed, or nothing when the term is absent.
    pub open spec fn sdocs(&self, reader: &SegmentReader) -> Seq<u32> {
        match SegmentReader::sfield_at(reader.sfields(), self.term.sfield()) {
            Some(fi) => {
                let ii = reader.sfields()[fi].1;
                match TermDictionaryImpl::slookup(ii.sentries(), self.term.svalue()) {
                    Some(ti) => postings_at(
                        ii.spostings_data(),
                        ti,
                        ii.shas_freq(),
                    )->Some_0.0.filter(live_of(reader.sdelete_words())),
                    None => Seq::empty(),
                }
            },
            None => Seq::empty(),
        }
    }

    /// Whether the segment holds the queried term: the field exists and the
    /// field's dictionary holds the term's key.
    pub open spec fn sfound(&self, reader: &SegmentReader) -> bool {
        match SegmentReader::sfield_at(reader.sfields(), self.term.sfield()) {
            Some(fi) => TermDictionaryImpl::slookup(
                reader.sfields()[fi].1.sentries(),
                self.term.svalue(),
            ) is Some,
            None => false,
        }
    }

    /// The found term's raw posting list: documents and their frequencies,
    /// deleted documents included.
    pub open spec fn sraw(&self, reader: &SegmentReader) -> (Seq<u32>, Seq<u32>) {
        let fi = SegmentReader::sfield_at(reader.sfields(), self.term.sfield())->Some_0;
        let ii = reader.sfields()[fi].1;
        let ti = TermDictionaryImpl::slookup(ii.sentries(), self.term.svalue())->Some_0;
        postings_at(ii.spostings_data(), ti, ii.shas_freq())->Some_0
    }

    /// Whether the scorer's cursor decodes token positions: they were asked
    /// for, and the field stores them.
    pub open spec fn swith_positions(&self, reader: &SegmentReader) -> bool {
        let fi = SegmentReader::sfield_at(reader.sfields(), self.term.sfield())->Some_0;
        self.segment_postings_options is FreqAndPositions
            && reader.sfields()[fi].1.shas_positions()
    }

    /// Builds the scorer: the term's postings when the term is present, the
    /// empty docset when the segment lacks the term (a missing term is not an
    /// error), an error when it lacks the whole field. On success the cursor's
    /// raw list, frequencies, liveness predicate and positions mode are
    /// pinned, as is the attached fieldnorm reader.
    pub fn specialized_scorer(&self, reader: &SegmentReader) -> (r: Result<TermScorer, QueryError>)
        requires
            reader.wf(),
        ensures
            match r {
                Ok(sc) => SegmentReader::sfield_at(reader.sfields(), self.term.sfield()) is Some
                    && sc.postings.wf() && sc.postings.spos() == -1 && sc.postings.sdocs()
                    == self.sdocs(reader) && sc.num_docs == self.num_docs && sc.doc_freq
                    == self.doc_freq && sc.postings.sdocs().len() <= u32::MAX && (self.sfound(
                    reader,
                ) ==> sc.postings.rdocs() == self.sraw(reader).0 && sc.postings.rfreqs()
                    == self.sraw(reader).1 && sc.postings.lpred() == live_of(
                    reader.sdelete_words(),
                ) && sc.postings.shas_positions() == self.swith_positions(reader) && (
                match SegmentReader::snorm_at(reader.sfieldnorm_fields(), self.term.sfield()) {
                    Some(ni) => sc.fieldnorm_reader_opt is Some
                        && sc.fieldnorm_reader_opt->Some_0.sdata()
                        == reader.sfieldnorm_fields()[ni].1.sdata(),
                    None => sc.fieldnorm_reader_opt is None,
                })) && (!self.sfound(reader) ==> sc.postings.rdocs() == Seq::<u32>::empty()
                    && sc.postings.rfreqs() == Seq::<u32>::empty()
                    && !sc.postings.shas_positions() && sc.fieldnorm_reader_opt is None),
                Err(e) => SegmentReader::sfield_at(reader.sfields(), self.term.sfield()) is None
                    && e == QueryError::FieldDoesNotExist,
            },
    {
        let field = self.term.field();
        let field_reader = match reader.inverted_index(field) {
            Some(ii) => ii,
            None => {
                return Err(QueryError::FieldDoesNotExist);
            },
        };
        proof {
            crate::segment::lemma_sfield_at_bounds(reader.sfields(), field);
            let fi = SegmentReader::sfield_at(reader.sfields(), field)->Some_0;
            reader.lemma_field_wf(fi);
        }
        let fieldnorm_reader_opt = match reader.get_fieldnorms_reader(field) {
            Some(fr) => Some(FieldNormReader::new(fr.clone_data())),
            None => None,
        };
        let delete_bitset = reader.delete_bitset();
        proof {
            let fi = SegmentReader::sfield_at(reader.sfields(), field)->Some_0;
            assert(field_reader.wf(reader.smax_doc()));
        }
        let postings_opt = field_reader.read_postings(
            self.term.value_bytes(),
            self.segment_postings_options,
            delete_bitset,
        );
        match postings_opt {
            Some(segment_postings) => {
                proof {
                    let fi = SegmentReader::sfield_at(reader.sfields(), field)->Some_0;
                    let ii = reader.sfields()[fi].1;
                    let ti = TermDictionaryImpl::slookup(
                        ii.sentries(),
                        self.term.svalue(),
                    )->Some_0;
                    crate::segment::lemma_slookup_found(ii.sentries(), self.term.svalue());
                    let i = choose|i: int|
                        0 <= i < ii.sentries().len() && #[trigger] ii.sentries()[i].1 == ti
                            && ii.sentries()[i].0 == self.term.svalue();
                    ii.lemma_entry_ok(reader.smax_doc(), i);
                    let ds = postings_at(ii.spostings_data(), ti, ii.shas_freq())->Some_0.0;
                    ds.lemma_filter_len(live_of(reader.sdelete_words()));
                }
                Ok(
                    TermScorer {
                        postings: segment_postings,
                        num_docs: self.num_docs,
                        doc_freq: self.doc_freq,
                        fieldnorm_reader_opt,
                    },
                )
            },
            None => {
                // a missing term yields the empty docset; the configured
                // doc_freq is kept, and since no document is ever scored the
                // substitute idf of one the scoring layer would use is
                // unobservable
                proof {
                    crate::docset::lemma_filter_empty(
                        Seq::<u32>::empty(),
                        live_of(reader.sdelete_words()),
                    );
                    assert(Seq::<u32>::empty().filter(live_of(reader.sdelete_words())) =~= Seq::<
                        u32,
                    >::empty());
                }
                Ok(
                    TermScorer {
                        postings: SegmentPostings::empty(),
                        num_docs: self.num_docs,
                        doc_freq: self.doc_freq,
                        fieldnorm_reader_opt: None,
                    },
                )
            },
        }
    }

    /// The scorer as a plain docset.
    pub fn scorer(&self, reader: &SegmentReader) -> (r: Result<TermScorer, QueryError>)
        requires
            reader.wf(),
        ensures
            match r {
                Ok(sc) => sc.postings.wf() && sc.postings.spos() == -1 && sc.postings.sdocs()
                    == self.sdocs(reader),
                Err(e) => SegmentReader::sfield_at(reader.sfields(), self.term.sfield()) is None
                    && e == QueryError::FieldDoesNotExist,
            },
    {
        self.specialized_scorer(reader)
    }
}

} // verus!
