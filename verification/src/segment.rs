//! The segment a query runs against: per-field inverted indexes, the delete
//! bitmap, and field norms, all behind byte slices already materialised by
//! the caller.

use vstd::prelude::*;
use crate::bitset::DeleteBitSet;
use crate::schema::Field;
use crate::segment_postings::{
    BlockSegmentPostings, SegmentPostings, postings_dec, sum_freqs, groups_fit,
};
use crate::streamer::{TermDictionaryImpl, TermInfo};
use crate::compression::{tail_dec_unsorted, CompressedIntStream};
use crate::docset::{strictly_increasing, DocSet};

verus! {

/// How much of a posting list a reader asks for.
#[derive(Clone, Copy, Debug, PartialEq, Eq, Structural)]
pub enum SegmentPostingsOption {
    /// Documents only.
    NoFreq,
    /// Documents and term frequencies.
    Freq,
    /// Documents, frequencies and token positions.
    FreqAndPositions,
}

/// What a query can fail with.
#[derive(Clone, Copy, Debug, PartialEq, Eq, Structural)]
pub enum QueryError {
    /// The queried field does not exist in the segment.
    FieldDoesNotExist,
}

/// The documents and frequencies a `TermInfo` locates in `pd`.
pub open spec fn postings_at(pd: Seq<u8>, ti: TermInfo, has_freq: bool) -> Option<
    (Seq<u32>, Seq<u32>),
> {
    postings_dec(
        pd.skip(ti.postings_offset as int),
        0,
        ti.doc_freq as int / 128,
        ti.doc_freq as int % 128,
        has_freq,
    )
}

/// Validity of one term's `TermInfo` against the segment's byte stores.
pub open spec fn ti_ok(
    ti: TermInfo,
    pd: Seq<u8>,
    ppd: Seq<u8>,
    has_freq: bool,
    has_positions: bool,
    max_doc: u32,
) -> bool {
    &&& ti.postings_offset <= pd.len()
    &&& postings_at(pd, ti, has_freq) is Some
    &&& ({
        let (ds, fs) = postings_at(pd, ti, has_freq)->Some_0;
        &&& strictly_increasing(ds)
        &&& ds.len() == ti.doc_freq
        &&& (forall|k: int| 0 <= k < ds.len() ==> #[trigger] ds[k] < max_doc)
        &&& (has_positions ==> ti.positions_offset <= ppd.len() && sum_freqs(fs) <= usize::MAX
            && tail_dec_unsorted(
            ppd.skip(ti.positions_offset as int),
            sum_freqs(fs),
        ) is Some && groups_fit(
            fs,
            tail_dec_unsorted(ppd.skip(ti.positions_offset as int), sum_freqs(fs))->Some_0.0,
        ))
    })
}

/// One field's inverted index: its term dictionary and the byte stores its
/// `TermInfo` entries point into.
pub struct InvertedIndex {
    termdict: TermDictionaryImpl,
    postings_data: Vec<u8>,
    positions_data: Vec<u8>,
    has_freq: bool,
    has_positions: bool,
}

impl InvertedIndex {
    pub closed spec fn sentries(&self) -> Seq<(Seq<u8>, TermInfo)> {
        self.termdict.sentries()
    }

    pub closed spec fn spostings_data(&self) -> Seq<u8> {
        self.postings_data@
    }

    pub closed spec fn spositions_data(&self) -> Seq<u8> {
        self.positions_data@
    }

    pub closed spec fn shas_freq(&self) -> bool {
        self.has_freq
    }

    pub closed spec fn shas_positions(&self) -> bool {
        self.has_positions
    }

    pub closed spec fn wf(&self, max_doc: u32) -> bool {
        &&& self.termdict.wf()
        &&& forall|i: int|
            0 <= i < self.sentries().len() ==> ti_ok(
                (#[trigger] self.sentries()[i]).1,
                self.postings_data@,
                self.positions_data@,
                self.has_freq,
                self.has_positions,
                max_doc,
            )
    }

    /// Assembles a field's index from its dictionary and byte stores.
    pub fn new(
        termdict: TermDictionaryImpl,
        postings_data: Vec<u8>,
        positions_data: Vec<u8>,
        has_freq: bool,
        has_positions: bool,
        max_doc: u32,
    ) -> (r: InvertedIndex)
        requires
            termdict.wf(),
            forall|i: int|
                0 <= i < termdict.sentries().len() ==> ti_ok(
                    (#[trigger] termdict.sentries()[i]).1,
                    postings_data@,
                    positions_data@,
                    has_freq,
                    has_positions,
                    max_doc,
                ),
        ensures
            r.wf(max_doc),
            r.sentries() == termdict.sentries(),
            r.spostings_data() == postings_data@,
            r.spositions_data() == positions_data@,
            r.shas_freq() == has_freq,
            r.shas_positions() == has_positions,
    {
        InvertedIndex { termdict, postings_data, positions_data, has_freq, has_positions }
    }

    /// The dictionary as a value, for contracts.
    pub closed spec fn sterms(&self) -> TermDictionaryImpl {
        self.termdict
    }

    /// Well-formedness hands the dictionary's own well-formedness out.
    pub proof fn lemma_wf(&self, max_doc: u32)
        requires
            self.wf(max_doc),
        ensures
            self.sterms().wf(),
            self.sterms().sentries() == self.sentries(),
    {
    }

    /// Validity of one entry's `TermInfo`, from the index's well-formedness.
    pub proof fn lemma_entry_ok(&self, max_doc: u32, i: int)
        requires
            self.wf(max_doc),
            0 <= i < self.sentries().len(),
        ensures
            ti_ok(
                self.sentries()[i].1,
                self.spostings_data(),
                self.spositions_data(),
                self.shas_freq(),
                self.shas_positions(),
                max_doc,
            ),
    {
        assert(ti_ok(
            (self.sentries()[i]).1,
            self.postings_data@,
            self.positions_data@,
            self.has_freq,
            self.has_positions,
            max_doc,
        ));
    }

    /// The term dictionary.
    pub fn terms(&self) -> (r: &TermDictionaryImpl)
        ensures
            *r == self.sterms(),
            r.sentries() == self.sentries(),
    {
        &self.termdict
    }

    /// Opens a block cursor on the posting list a `TermInfo` locates.
    pub fn read_block_postings_from_terminfo(
        &self,
        term_info: &TermInfo,
        _option: SegmentPostingsOption,
    ) -> (r: BlockSegmentPostings)
        requires
            ti_ok(
                *term_info,
                self.spostings_data(),
                self.spositions_data(),
                self.shas_freq(),
                self.shas_positions(),
                u32::MAX,
            ) || exists|max_doc: u32|
                #[trigger] ti_ok(
                    *term_info,
                    self.spostings_data(),
                    self.spositions_data(),
                    self.shas_freq(),
                    self.shas_positions(),
                    max_doc,
                ),
        ensures
            r.wf(),
            r.sshown() == 0,
            r.sblock().len() == 0,
            r.sdoc_freq() == term_info.doc_freq,
            r.shas_freq() == self.shas_freq(),
            Some((r.sdocs_all(), r.sfreqs_all())) == postings_at(
                self.spostings_data(),
                *term_info,
                self.shas_freq(),
            ),
    {
        let data = copy_bytes_from(&self.postings_data, term_info.postings_offset as usize);
        proof {
            let ghost md = choose|max_doc: u32|
                #[trigger] ti_ok(
                    *term_info,
                    self.spostings_data(),
                    self.spositions_data(),
                    self.shas_freq(),
                    self.shas_positions(),
                    max_doc,
                );
            let (ds, fs) = postings_at(self.spostings_data(), *term_info, self.shas_freq())->Some_0;
            assert(postings_dec(
                data@,
                0,
                term_info.doc_freq as int / 128,
                term_info.doc_freq as int % 128,
                self.shas_freq(),
            ) == Some((ds, fs)));
        }
        BlockSegmentPostings::from_data(term_info.doc_freq as usize, data, self.has_freq)
    }

    /// Rebinds an existing block cursor onto the posting list a `TermInfo`
    /// locates, keeping the cursor's buffers.
    pub fn reset_block_postings_from_terminfo(
        &self,
        term_info: &TermInfo,
        block_postings: &mut BlockSegmentPostings,
    )
        requires
            old(block_postings).wf(),
            old(block_postings).shas_freq() == self.shas_freq(),
            exists|max_doc: u32|
                #[trigger] ti_ok(
                    *term_info,
                    self.spostings_data(),
                    self.spositions_data(),
                    self.shas_freq(),
                    self.shas_positions(),
                    max_doc,
                ),
        ensures
            final(block_postings).wf(),
            final(block_postings).sshown() == 0,
            final(block_postings).sblock().len() == 0,
            final(block_postings).sdoc_freq() == term_info.doc_freq,
            final(block_postings).shas_freq() == self.shas_freq(),
            Some((final(block_postings).sdocs_all(), final(block_postings).sfreqs_all()))
                == postings_at(self.spostings_data(), *term_info, self.shas_freq()),
    {
        let data = copy_bytes_from(&self.postings_data, term_info.postings_offset as usize);
        proof {
            let ghost md = choose|max_doc: u32|
                #[trigger] ti_ok(
                    *term_info,
                    self.spostings_data(),
                    self.spositions_data(),
                    self.shas_freq(),
                    self.shas_positions(),
                    max_doc,
                );
            let (ds, fs) = postings_at(self.spostings_data(), *term_info, self.shas_freq())->Some_0;
            assert(postings_dec(
                data@,
                0,
                term_info.doc_freq as int / 128,
                term_info.doc_freq as int % 128,
                self.shas_freq(),
            ) == Some((ds, fs)));
        }
        block_postings.reset(term_info.doc_freq as usize, data);
    }

    /// Opens a document-level cursor for a term, or `None` when the term is
    /// absent from the dictionary.
    pub fn read_postings(
        &self,
        term_value: &Vec<u8>,
        option: SegmentPostingsOption,
        delete_bitset: DeleteBitSet,
    ) -> (r: Option<SegmentPostings>)
        requires
            exists|md: u32| #[trigger] self.wf(md),
        ensures
            match r {
                Some(sp) => TermDictionaryImpl::slookup(self.sentries(), term_value@) is Some
                    && sp.wf() && sp.spos() == -1 && ({
                    let ti = TermDictionaryImpl::slookup(self.sentries(), term_value@)->Some_0;
                    let p = postings_at(self.spostings_data(), ti, self.shas_freq())->Some_0;
                    let with_positions = option is FreqAndPositions && self.shas_positions();
                    sp.sdocs() == p.0.filter(
                        crate::segment_postings::live_of(delete_bitset.swords()),
                    ) && sp.sdoc_freq() == ti.doc_freq && sp.rdocs() == p.0 && sp.rfreqs() == p.1
                        && sp.lpred() == crate::segment_postings::live_of(delete_bitset.swords())
                        && sp.shas_positions() == with_positions && sp.sdeltas_all() == (
                    if with_positions {
                        tail_dec_unsorted(
                            self.spositions_data().skip(ti.positions_offset as int),
                            sum_freqs(p.1),
                        )->Some_0.0
                    } else {
                        Seq::<u32>::empty()
                    })
                }),
                None => TermDictionaryImpl::slookup(self.sentries(), term_value@) is None,
            },
    {
        let ghost max_doc = choose|md: u32| #[trigger] self.wf(md);
        let ti_opt = self.termdict.term_info(term_value);
        match ti_opt {
            None => None,
            Some(ti) => {
                proof {
                    lemma_slookup_found(self.sentries(), term_value@);
                }
                let block = self.read_block_postings_from_terminfo(&ti, option);
                let want_positions = match option {
                    SegmentPostingsOption::FreqAndPositions => true,
                    _ => false,
                };
                let positions_stream = if want_positions && self.has_positions {
                    let ghost fs = postings_at(
                        self.spostings_data(),
                        ti,
                        self.shas_freq(),
                    )->Some_0.1;
                    proof {
                        let es = self.sentries();
                        let i = choose|i: int|
                            0 <= i < es.len() && #[trigger] es[i].1
                                == TermDictionaryImpl::slookup(es, term_value@)->Some_0 && es[i].0
                                == term_value@;
                        assert(ti_ok(
                            es[i].1,
                            self.postings_data@,
                            self.positions_data@,
                            self.has_freq,
                            self.has_positions,
                            max_doc,
                        ));
                        let fi = crate::compression::to_ints(fs);
                        crate::compression::lemma_seq_sum_nonneg_mono(fi, fi.len() as int);
                        assert(fi.take(fi.len() as int) =~= fi);
                    }
                    let pdata = self.positions_data.clone();
                    Some(
                        CompressedIntStream::open(
                            pdata,
                            ti.positions_offset as usize,
                            Ghost(sum_freqs(fs)),
                        ),
                    )
                } else {
                    None
                };
                Some(SegmentPostings::from_block_postings(block, delete_bitset, positions_stream))
            },
        }
    }
}

/// A found key's value satisfies validity facts quantified over the entries.
pub proof fn lemma_slookup_found(es: Seq<(Seq<u8>, TermInfo)>, key: Seq<u8>)
    requires
        TermDictionaryImpl::slookup(es, key) is Some,
    ensures
        exists|i: int|
            0 <= i < es.len() && #[trigger] es[i].1 == TermDictionaryImpl::slookup(
                es,
                key,
            )->Some_0 && es[i].0 == key,
    decreases es.len(),
{
    if es.len() > 0 {
        if es[0].0 == key {
            assert(es[0].1 == TermDictionaryImpl::slookup(es, key)->Some_0 && es[0].0 == key);
        } else {
            lemma_slookup_found(es.skip(1), key);
            let i = choose|i: int|
                0 <= i < es.skip(1).len() && #[trigger] es.skip(1)[i].1
                    == TermDictionaryImpl::slookup(es.skip(1), key)->Some_0 && es.skip(1)[i].0
                    == key;
            assert(es[i + 1].1 == TermDictionaryImpl::slookup(es, key)->Some_0 && es[i + 1].0
                == key);
        }
    }
}

/// Copies `data[from..]` into a fresh vector.
pub fn copy_bytes_from(data: &Vec<u8>, from: usize) -> (r: Vec<u8>)
    requires
        from <= data@.len(),
    ensures
        r@ == data@.skip(from as int),
{
    let mut r: Vec<u8> = Vec::new();
    let mut j: usize = from;
    let n = data.len();
    while j < n
        invariant
            from <= j <= n,
            n == data@.len(),
            r@ =~= data@.subrange(from as int, j as int),
        decreases n - j,
    {
        let x = data[j];
        r.push(x);
        proof {
            assert(r@ =~= data@.subrange(from as int, j + 1));
        }
        j += 1;
    }
    proof {
        assert(r@ =~= data@.skip(from as int));
    }
    r
}

/// Per-document field-length norms, one identifier byte per document.
pub struct FieldNormReader {
    data: Vec<u8>,
}

impl FieldNormReader {
    pub closed spec fn sdata(&self) -> Seq<u8> {
        self.data@
    }

    pub fn new(data: Vec<u8>) -> (r: FieldNormReader)
        ensures
            r.sdata() == data@,
    {
        FieldNormReader { data }
    }

    /// A copy of the stored norm identifiers.
    pub fn clone_data(&self) -> (r: Vec<u8>)
        ensures
            r@ == self.sdata(),
    {
        self.data.clone()
    }

    /// The norm identifier of `doc`; zero past the stored range.
    pub fn fieldnorm_id(&self, doc: u32) -> (r: u8)
        ensures
            r == if doc < self.sdata().len() {
                self.sdata()[doc as int]
            } else {
                0u8
            },
    {
        if (doc as usize) < self.data.len() {
            self.data[doc as usize]
        } else {
            0
        }
    }
}

/// A read-only view of one segment: enough for a weight to bind a query and
/// produce a scorer.
pub struct SegmentReader {
    max_doc: u32,
    delete_bitset: DeleteBitSet,
    fields: Vec<(u32, InvertedIndex)>,
    fieldnorm_fields: Vec<(u32, FieldNormReader)>,
}

impl SegmentReader {
    pub closed spec fn smax_doc(&self) -> u32 {
        self.max_doc
    }

    pub closed spec fn sdelete_words(&self) -> Seq<u64> {
        self.delete_bitset.swords()
    }

    pub closed spec fn sfields(&self) -> Seq<(u32, InvertedIndex)> {
        self.fields@
    }

    /// The first index entry registered for `field`.
    pub open spec fn sfield_at(fields: Seq<(u32, InvertedIndex)>, field: Field) -> Option<int>
        decreases fields.len(),
    {
        if fields.len() == 0 {
            None
        } else if fields[0].0 == field.0 {
            Some(0)
        } else {
            match Self::sfield_at(fields.skip(1), field) {
                None => None,
                Some(i) => Some(i + 1),
            }
        }
    }

    pub closed spec fn wf(&self) -> bool {
        forall|i: int|
            0 <= i < self.fields@.len() ==> (#[trigger] self.fields@[i]).1.wf(self.max_doc)
    }

    /// Assembles a segment from its parts.
    pub fn new(
        max_doc: u32,
        delete_bitset: DeleteBitSet,
        fields: Vec<(u32, InvertedIndex)>,
        fieldnorm_fields: Vec<(u32, FieldNormReader)>,
    ) -> (r: SegmentReader)
        requires
            forall|i: int| 0 <= i < fields@.len() ==> (#[trigger] fields@[i]).1.wf(max_doc),
        ensures
            r.wf(),
            r.smax_doc() == max_doc,
            r.sdelete_words() == delete_bitset.swords(),
            r.sfields() == fields@,
    {
        SegmentReader { max_doc, delete_bitset, fields, fieldnorm_fields }
    }

    /// Well-formedness of one field's index, from the segment's.
    pub proof fn lemma_field_wf(&self, fi: int)
        requires
            self.wf(),
            0 <= fi < self.sfields().len(),
        ensures
            self.sfields()[fi].1.wf(self.smax_doc()),
    {
        assert((self.fields@[fi]).1.wf(self.max_doc));
    }

    /// The number of documents in the segment, deleted ones included.
    pub fn max_doc(&self) -> (r: u32)
        ensures
            r == self.smax_doc(),
    {
        self.max_doc
    }

    /// The segment's delete bitmap.
    pub fn delete_bitset(&self) -> (r: DeleteBitSet)
        ensures
            r.swords() == self.sdelete_words(),
    {
        let words = self.delete_bitset.clone_words();
        DeleteBitSet::from_words(words)
    }

    /// The inverted index of `field`, when the segment has that field.
    pub fn inverted_index(&self, field: Field) -> (r: Option<&InvertedIndex>)
        ensures
            match r {
                Some(ii) => Self::sfield_at(self.sfields(), field) is Some && *ii
                    == self.sfields()[Self::sfield_at(self.sfields(), field)->Some_0].1,
                None => Self::sfield_at(self.sfields(), field) is None,
            },
    {
        let ghost fs = self.fields@;
        let n = self.fields.len();
        let mut i: usize = 0;
        proof {
            lemma_sfield_at_bounds(fs, field);
        }
        while i < n
            invariant
                i <= n,
                n == fs.len(),
                fs == self.fields@,
                Self::sfield_at(fs, field) is Some ==> Self::sfield_at(fs, field)->Some_0 >= i,
                forall|j: int| 0 <= j < i ==> (#[trigger] fs[j]).0 != field.0,
            decreases n - i,
        {
            if self.fields[i].0 == field.0 {
                proof {
                    lemma_sfield_at_found(fs, field, i as int);
                }
                return Some(&self.fields[i].1);
            }
            proof {
                lemma_sfield_at_miss(fs, field, i + 1);
            }
            i += 1;
        }
        proof {
            lemma_sfield_at_bounds(fs, field);
            lemma_sfield_at_miss(fs, field, n as int);
            if Self::sfield_at(fs, field) is Some {
                assert(false);
            }
        }
        None
    }

    pub closed spec fn sfieldnorm_fields(&self) -> Seq<(u32, FieldNormReader)> {
        self.fieldnorm_fields@
    }

    /// The first norms entry registered for `field`.
    pub open spec fn snorm_at(fields: Seq<(u32, FieldNormReader)>, field: Field) -> Option<int>
        decreases fields.len(),
    {
        if fields.len() == 0 {
            None
        } else if fields[0].0 == field.0 {
            Some(0)
        } else {
            match Self::snorm_at(fields.skip(1), field) {
                None => None,
                Some(i) => Some(i + 1),
            }
        }
    }

    /// The field norms of `field`: `Some` exactly when the segment stores
    /// norms for that field, and then the stored reader itself.
    pub fn get_fieldnorms_reader(&self, field: Field) -> (r: Option<&FieldNormReader>)
        ensures
            match r {
                Some(fr) => Self::snorm_at(self.sfieldnorm_fields(), field) is Some && fr.sdata()
                    == self.sfieldnorm_fields()[Self::snorm_at(
                    self.sfieldnorm_fields(),
                    field,
                )->Some_0].1.sdata(),
                None => Self::snorm_at(self.sfieldnorm_fields(), field) is None,
            },
    {
        let ghost fs = self.fieldnorm_fields@;
        let n = self.fieldnorm_fields.len();
        let mut i: usize = 0;
        proof {
            lemma_snorm_at_bounds(fs, field);
        }
        while i < n
            invariant
                i <= n,
                n == fs.len(),
                fs == self.fieldnorm_fields@,
                Self::snorm_at(fs, field) is Some ==> Self::snorm_at(fs, field)->Some_0 >= i,
                forall|j: int| 0 <= j < i ==> (#[trigger] fs[j]).0 != field.0,
            decreases n - i,
        {
            if self.fieldnorm_fields[i].0 == field.0 {
                proof {
                    lemma_snorm_at_found(fs, field, i as int);
                }
                return Some(&self.fieldnorm_fields[i].1);
            }
            proof {
                lemma_snorm_at_miss(fs, field, i + 1);
            }
            i += 1;
        }
        proof {
            lemma_snorm_at_bounds(fs, field);
            lemma_snorm_at_miss(fs, field, n as int);
            if Self::snorm_at(fs, field) is Some {
                assert(false);
            }
        }
        None
    }

    /// Resolves a term's `TermInfo` in its field's dictionary.
    pub fn get_term_info(&self, term: &crate::schema::Term) -> (r: Option<TermInfo>)
        requires
            self.wf(),
        ensures
            match Self::sfield_at(self.sfields(), term.sfield()) {
                Some(fi) => r == TermDictionaryImpl::slookup(
                    self.sfields()[fi].1.sentries(),
                    term.svalue(),
                ),
                None => r is None,
            },
    {
        match self.inverted_index(term.field()) {
            Some(ii) => {
                proof {
                    let fi = Self::sfield_at(self.sfields(), term.sfield())->Some_0;
                    lemma_sfield_at_bounds(self.sfields(), term.sfield());
                }
                ii.terms().term_info(term.value_bytes())
            },
            None => None,
        }
    }

    /// Opens a block cursor for a resolved term.
    pub fn read_block_postings_from_terminfo(
        &self,
        term_info: &TermInfo,
        field: Field,
        option: SegmentPostingsOption,
    ) -> (r: Option<BlockSegmentPostings>)
        requires
            self.wf(),
            ({
                match Self::sfield_at(self.sfields(), field) {
                    Some(fi) => exists|i: int|
                        0 <= i < self.sfields()[fi].1.sentries().len() && (#[trigger] self.sfields()[fi].1.sentries()[i]).1 == *term_info,
                    None => true,
                }
            }),
        ensures
            match Self::sfield_at(self.sfields(), field) {
                Some(fi) => r is Some && ({
                    let ii = self.sfields()[fi].1;
                    let bp = r->Some_0;
                    bp.wf() && bp.sshown() == 0 && bp.sblock().len() == 0 && bp.sdoc_freq()
                        == term_info.doc_freq && Some((bp.sdocs_all(), bp.sfreqs_all()))
                        == postings_at(ii.spostings_data(), *term_info, ii.shas_freq())
                }),
                None => r is None,
            },
    {
        match self.inverted_index(field) {
            Some(ii) => {
                proof {
                    lemma_sfield_at_bounds(self.sfields(), field);
                    let fi = Self::sfield_at(self.sfields(), field)->Some_0;
                    let i = choose|i: int|
                        0 <= i < self.sfields()[fi].1.sentries().len() && (#[trigger] self.sfields()[fi].1.sentries()[i]).1 == *term_info;
                    assert(ti_ok(
                        *term_info,
                        ii.spostings_data(),
                        ii.spositions_data(),
                        ii.shas_freq(),
                        ii.shas_positions(),
                        self.max_doc,
                    ));
                }
                Some(ii.read_block_postings_from_terminfo(term_info, option))
            },
            None => None,
        }
    }
}

proof fn lemma_snorm_at_found(fs: Seq<(u32, FieldNormReader)>, field: Field, i: int)
    requires
        0 <= i < fs.len(),
        fs[i].0 == field.0,
        forall|j: int| 0 <= j < i ==> (#[trigger] fs[j]).0 != field.0,
    ensures
        SegmentReader::snorm_at(fs, field) == Some(i),
    decreases i,
{
    if i > 0 {
        assert(forall|j: int| 0 <= j < i - 1 ==> (#[trigger] fs.skip(1)[j]).0 != field.0) by {
            assert(forall|j: int| 0 <= j < i - 1 ==> fs.skip(1)[j] == fs[j + 1]);
        }
        assert(fs.skip(1)[i - 1] == fs[i]);
        lemma_snorm_at_found(fs.skip(1), field, i - 1);
    }
}

proof fn lemma_snorm_at_miss(fs: Seq<(u32, FieldNormReader)>, field: Field, i: int)
    requires
        0 <= i <= fs.len(),
        forall|j: int| 0 <= j < i ==> (#[trigger] fs[j]).0 != field.0,
    ensures
        SegmentReader::snorm_at(fs, field) is Some ==> SegmentReader::snorm_at(fs, field)->Some_0
            >= i,
    decreases i,
{
    lemma_snorm_at_bounds(fs, field);
    if i > 0 && fs.len() > 0 {
        assert(fs[0].0 != field.0);
        assert(forall|j: int| 0 <= j < i - 1 ==> (#[trigger] fs.skip(1)[j]).0 != field.0) by {
            assert(forall|j: int| 0 <= j < i - 1 ==> fs.skip(1)[j] == fs[j + 1]);
        }
        lemma_snorm_at_miss(fs.skip(1), field, i - 1);
    }
}

proof fn lemma_snorm_at_bounds(fs: Seq<(u32, FieldNormReader)>, field: Field)
    ensures
        SegmentReader::snorm_at(fs, field) is Some ==> 0 <= SegmentReader::snorm_at(
            fs,
            field,
        )->Some_0 < fs.len(),
    decreases fs.len(),
{
    if fs.len() > 0 && fs[0].0 != field.0 {
        lemma_snorm_at_bounds(fs.skip(1), field);
    }
}

proof fn lemma_sfield_at_found(fs: Seq<(u32, InvertedIndex)>, field: Field, i: int)
    requires
        0 <= i < fs.len(),
        fs[i].0 == field.0,
        forall|j: int| 0 <= j < i ==> (#[trigger] fs[j]).0 != field.0,
    ensures
        SegmentReader::sfield_at(fs, field) == Some(i),
    decreases i,
{
    if i > 0 {
        assert(forall|j: int| 0 <= j < i - 1 ==> (#[trigger] fs.skip(1)[j]).0 != field.0) by {
            assert(forall|j: int| 0 <= j < i - 1 ==> fs.skip(1)[j] == fs[j + 1]);
        }
        assert(fs.skip(1)[i - 1] == fs[i]);
        lemma_sfield_at_found(fs.skip(1), field, i - 1);
    }
}

proof fn lemma_sfield_at_miss(fs: Seq<(u32, InvertedIndex)>, field: Field, i: int)
    requires
        0 <= i <= fs.len(),
        forall|j: int| 0 <= j < i ==> (#[trigger] fs[j]).0 != field.0,
    ensures
        SegmentReader::sfield_at(fs, field) is Some ==> SegmentReader::sfield_at(
            fs,
            field,
        )->Some_0 >= i,
    decreases i,
{
    lemma_sfield_at_bounds(fs, field);
    if i > 0 && fs.len() > 0 {
        assert(fs[0].0 != field.0);
        assert(forall|j: int| 0 <= j < i - 1 ==> (#[trigger] fs.skip(1)[j]).0 != field.0) by {
            assert(forall|j: int| 0 <= j < i - 1 ==> fs.skip(1)[j] == fs[j + 1]);
        }
        lemma_sfield_at_miss(fs.skip(1), field, i - 1);
    }
}

pub proof fn lemma_sfield_at_bounds(fs: Seq<(u32, InvertedIndex)>, field: Field)
    ensures
        SegmentReader::sfield_at(fs, field) is Some ==> 0 <= SegmentReader::sfield_at(
            fs,
            field,
        )->Some_0 < fs.len(),
    decreases fs.len(),
{
    if fs.len() > 0 && fs[0].0 != field.0 {
        lemma_sfield_at_bounds(fs.skip(1), field);
    }
}

} // verus!
