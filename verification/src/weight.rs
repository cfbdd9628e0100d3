//! A `Weight` is the specialisation of a query for a given segment: it can
//! produce a scorer, and count the matching documents.

use vstd::prelude::*;
use crate::docset::DocSet;
use crate::segment::{QueryError, SegmentReader};

verus! {

/// A query bound to segments. `smatches` is the document sequence the
/// weight's scorer walks on the given segment; `sok` says whether binding the
/// weight to the segment succeeds.
pub trait Weight: Sized {
    /// The documents the weight's scorer delivers on this segment.
    spec fn smatches(&self, reader: &SegmentReader) -> Seq<u32>;

    /// Whether the weight can bind to this segment.
    spec fn sok(&self, reader: &SegmentReader) -> bool;

    /// Counts the documents matching within the given segment.
    fn count(&self, reader: &SegmentReader) -> (r: Result<u32, QueryError>)
        requires
            reader.wf(),
        ensures
            r is Ok <==> self.sok(reader),
            r is Ok ==> r->Ok_0 == self.smatches(reader).len(),
    ;
}

/// Drains a docset, returning how many documents it delivers.
pub fn count_docset<TDocSet: DocSet>(docset: &mut TDocSet) -> (r: u32)
    requires
        old(docset).wf(),
        old(docset).spos() == -1,
        old(docset).sdocs().len() <= u32::MAX,
    ensures
        r == old(docset).sdocs().len(),
{
    proof {
        docset.lemma_wf();
    }
    let mut count: u32 = 0;
    loop
        invariant
            docset.wf(),
            docset.sdocs() == old(docset).sdocs(),
            docset.sdocs().len() <= u32::MAX,
            -1 <= docset.spos(),
            docset.spos() < docset.sdocs().len(),
            count == docset.spos() + 1,
        decreases docset.sdocs().len() - docset.spos(),
    {
        if !docset.advance() {
            return count;
        }
        count = count + 1;
    }
}

} // verus!
// (continued: the weights of the two query kinds)

verus! {

impl Weight for crate::range_query::RangeWeight {
    open spec fn smatches(&self, reader: &SegmentReader) -> Seq<u32> {
        match crate::segment::SegmentReader::sfield_at(reader.sfields(), self.sfield()) {
            Some(fi) => {
                let ii = reader.sfields()[fi].1;
                let es = ii.sentries();
                crate::bitset::all_docs(reader.smax_doc()).filter(
                    crate::range_query::range_member(
                        es,
                        ii.spostings_data(),
                        ii.shas_freq(),
                        crate::range_query::lo_cut(es, self.sleft()),
                        crate::range_query::hi_clamped(es, self.sleft(), self.sright()),
                    ),
                )
            },
            None => Seq::empty(),
        }
    }

    open spec fn sok(&self, reader: &SegmentReader) -> bool {
        crate::segment::SegmentReader::sfield_at(reader.sfields(), self.sfield()) is Some
    }

    fn count(&self, reader: &SegmentReader) -> (r: Result<u32, QueryError>) {
        match self.scorer(reader) {
            Ok(mut ds) => {
                proof {
                    crate::bitset::all_docs(reader.smax_doc()).lemma_filter_len(
                        crate::range_query::range_member(
                            reader.sfields()[crate::segment::SegmentReader::sfield_at(
                                reader.sfields(),
                                self.sfield(),
                            )->Some_0].1.sentries(),
                            reader.sfields()[crate::segment::SegmentReader::sfield_at(
                                reader.sfields(),
                                self.sfield(),
                            )->Some_0].1.spostings_data(),
                            reader.sfields()[crate::segment::SegmentReader::sfield_at(
                                reader.sfields(),
                                self.sfield(),
                            )->Some_0].1.shas_freq(),
                            crate::range_query::lo_cut(
                                reader.sfields()[crate::segment::SegmentReader::sfield_at(
                                    reader.sfields(),
                                    self.sfield(),
                                )->Some_0].1.sentries(),
                                self.sleft(),
                            ),
                            crate::range_query::hi_clamped(
                                reader.sfields()[crate::segment::SegmentReader::sfield_at(
                                    reader.sfields(),
                                    self.sfield(),
                                )->Some_0].1.sentries(),
                                self.sleft(),
                                self.sright(),
                            ),
                        ),
                    );
                }
                Ok(count_docset(&mut ds))
            },
            Err(e) => Err(e),
        }
    }
}

impl Weight for crate::term_weight::TermWeight {
    open spec fn smatches(&self, reader: &SegmentReader) -> Seq<u32> {
        self.sdocs(reader)
    }

    open spec fn sok(&self, reader: &SegmentReader) -> bool {
        crate::segment::SegmentReader::sfield_at(reader.sfields(), self.term.sfield()) is Some
    }

    fn count(&self, reader: &SegmentReader) -> (r: Result<u32, QueryError>) {
        match self.specialized_scorer(reader) {
            Ok(mut sc) => {
                proof {
                    sc.postings.lemma_wf();
                }
                Ok(count_docset(&mut sc.postings))
            },
            Err(e) => Err(e),
        }
    }
}

} // verus!
