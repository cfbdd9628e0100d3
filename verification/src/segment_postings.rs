//! Cursors over one term's posting list.
//!
//! [`BlockSegmentPostings`] is the block-level cursor: it walks the full
//! 128-document blocks and the variable-int tail of a posting list, exposing
//! one decoded block at a time. [`SegmentPostings`] is the document-level
//! cursor built on top of it: per-document advance, forward seek, deletion
//! filtering and lazy position materialisation.

use vstd::prelude::*;
use crate::compression::{
    BlockDecoder, NUM_DOCS_PER_BLOCK, block_dec_sorted, block_dec_unsorted, tail_dec_sorted,
    tail_dec_unsorted, seq_sum,
};
use crate::docset::strictly_increasing;

verus! {

/// All-ones frequencies, used when a posting list stores no frequencies.
pub open spec fn ones(n: int) -> Seq<u32> {
    Seq::new(n as nat, |i: int| 1u32)
}

/// Decodes a whole posting-list suffix: `nblocks` full blocks, then a tail of
/// `ntail` documents. Returns the documents and their frequencies (all ones
/// when `has_freq` is false).
pub open spec fn postings_dec(
    s: Seq<u8>,
    base: u32,
    nblocks: int,
    ntail: int,
    has_freq: bool,
) -> Option<(Seq<u32>, Seq<u32>)>
    decreases nblocks,
{
    if nblocks > 0 {
        match block_dec_sorted(s, base) {
            None => None,
            Some((docs, used)) => {
                let rest1 = s.skip(used);
                if has_freq {
                    match block_dec_unsorted(rest1) {
                        None => None,
                        Some((freqs, used2)) => match postings_dec(
                            rest1.skip(used2),
                            docs.last(),
                            nblocks - 1,
                            ntail,
                            has_freq,
                        ) {
                            None => None,
                            Some((d2, f2)) => Some((docs + d2, freqs + f2)),
                        },
                    }
                } else {
                    match postings_dec(rest1, docs.last(), nblocks - 1, ntail, has_freq) {
                        None => None,
                        Some((d2, f2)) => Some((docs + d2, ones(128) + f2)),
                    }
                }
            },
        }
    } else if ntail > 0 {
        match tail_dec_sorted(s, base, ntail) {
            None => None,
            Some((docs, used)) => if has_freq {
                match tail_dec_unsorted(s.skip(used), ntail) {
                    None => None,
                    Some((freqs, used2)) => Some((docs, freqs)),
                }
            } else {
                Some((docs, ones(ntail)))
            },
        }
    } else {
        Some((Seq::empty(), Seq::empty()))
    }
}

/// A cursor iterating over the blocks of one term's posting list.
///
/// Owns its two decoders, whose buffers are reset rather than reallocated
/// when the cursor is rebound to another term's postings.
pub struct BlockSegmentPostings {
    doc_decoder: BlockDecoder,
    freq_decoder: BlockDecoder,
    has_freq: bool,
    doc_freq: usize,
    doc_offset: u32,
    num_binpacked_blocks: usize,
    num_vint_docs: usize,
    data: Vec<u8>,
    cursor: usize,
    gdocs: Ghost<Seq<u32>>,
    gfreqs: Ghost<Seq<u32>>,
    gshown: Ghost<int>,
}

impl BlockSegmentPostings {
    /// Every document of the posting list, in order.
    pub closed spec fn sdocs_all(&self) -> Seq<u32> {
        self.gdocs@
    }

    /// The frequency of every document of the posting list.
    pub closed spec fn sfreqs_all(&self) -> Seq<u32> {
        self.gfreqs@
    }

    /// Number of documents already delivered through completed blocks.
    pub closed spec fn sshown(&self) -> int {
        self.gshown@
    }

    pub closed spec fn sdoc_freq(&self) -> int {
        self.doc_freq as int
    }

    pub closed spec fn shas_freq(&self) -> bool {
        self.has_freq
    }

    /// The documents of the block decoded last.
    pub closed spec fn sblock(&self) -> Seq<u32> {
        self.doc_decoder.out()
    }

    /// The frequencies aligned with the current block.
    pub closed spec fn sblock_freqs(&self) -> Seq<u32> {
        if self.has_freq {
            self.freq_decoder.out()
        } else {
            ones(128)
        }
    }

    pub closed spec fn wf(&self) -> bool {
        let docs = self.gdocs@;
        let freqs = self.gfreqs@;
        let shown = self.gshown@;
        let bl = self.doc_decoder.out().len() as int;
        &&& docs.len() == self.doc_freq
        &&& freqs.len() == docs.len()
        &&& strictly_increasing(docs)
        &&& self.cursor <= self.data@.len()
        &&& 0 <= shown <= docs.len()
        &&& bl <= shown
        &&& bl <= 128
        &&& self.num_vint_docs < 128
        &&& shown == self.doc_freq - (self.num_binpacked_blocks * 128 + self.num_vint_docs)
        &&& self.doc_decoder.out() == docs.subrange(shown - bl, shown)
        &&& (shown > 0 && shown < docs.len() ==> self.doc_offset == docs[shown - 1])
        &&& (shown == 0 ==> self.doc_offset == 0 && bl == 0)
        &&& postings_dec(
            self.data@.skip(self.cursor as int),
            self.doc_offset,
            self.num_binpacked_blocks as int,
            self.num_vint_docs as int,
            self.has_freq,
        ) == Some((docs.skip(shown), freqs.skip(shown)))
        &&& bl <= self.sblock_freqs().len()
        &&& freqs.subrange(shown - bl, shown) == self.sblock_freqs().take(bl)
        &&& (!self.has_freq ==> self.freq_decoder.out() == ones(128))
    }

    /// Binds a cursor to a posting list of `doc_freq` documents encoded at
    /// the front of `data`.
    pub fn from_data(doc_freq: usize, data: Vec<u8>, has_freq: bool) -> (r: BlockSegmentPostings)
        requires
            ({
                let nb = doc_freq as int / 128;
                let nt = doc_freq as int % 128;
                exists|docs: Seq<u32>, freqs: Seq<u32>|
                    #[trigger] postings_dec(data@, 0, nb, nt, has_freq) == Some((docs, freqs))
                        && strictly_increasing(docs) && docs.len() == doc_freq
            }),
        ensures
            r.wf(),
            r.sshown() == 0,
            r.sdoc_freq() == doc_freq,
            r.shas_freq() == has_freq,
            r.sblock().len() == 0,
            postings_dec(
                data@,
                0,
                doc_freq as int / 128,
                doc_freq as int % 128,
                has_freq,
            ) == Some((r.sdocs_all(), r.sfreqs_all())),
            !has_freq ==> r.sfreqs_all() == ones(doc_freq as int),
    {
        let num_binpacked_blocks: usize = doc_freq / NUM_DOCS_PER_BLOCK;
        let num_vint_docs: usize = doc_freq % NUM_DOCS_PER_BLOCK;
        let ghost pair = choose|docs: Seq<u32>, freqs: Seq<u32>|
            #[trigger] postings_dec(
                data@,
                0,
                doc_freq as int / 128,
                doc_freq as int % 128,
                has_freq,
            ) == Some((docs, freqs)) && strictly_increasing(docs) && docs.len() == doc_freq;
        let ghost gdocs = pair.0;
        let ghost gfreqs = pair.1;
        proof {
            lemma_postings_dec_len(
                data@,
                0,
                doc_freq as int / 128,
                doc_freq as int % 128,
                has_freq,
            );
            if !has_freq {
                lemma_postings_dec_no_freq(
                    data@,
                    0,
                    doc_freq as int / 128,
                    doc_freq as int % 128,
                );
            }
            assert(gdocs.skip(0) =~= gdocs);
            assert(gfreqs.skip(0) =~= gfreqs);
            assert(gdocs.subrange(0, 0) =~= Seq::<u32>::empty());
            assert(gfreqs.subrange(0, 0) =~= Seq::<u32>::empty());
        }
        let r = BlockSegmentPostings {
            doc_decoder: BlockDecoder::new(),
            freq_decoder: BlockDecoder::with_val(1),
            has_freq,
            doc_freq,
            doc_offset: 0,
            num_binpacked_blocks,
            num_vint_docs,
            data,
            cursor: 0,
            gdocs: Ghost(gdocs),
            gfreqs: Ghost(gfreqs),
            gshown: Ghost(0int),
        };
        proof {
            assert(r.sblock_freqs().take(0) =~= Seq::<u32>::empty());
            assert(r.freq_decoder.out() =~= ones(128));
            assert(doc_freq as int == (doc_freq as int / 128) * 128 + (doc_freq as int % 128))
                by (nonlinear_arith);
            assert(r.data@.skip(0) =~= r.data@);
            assert(r.doc_decoder.out() =~= gdocs.subrange(0, 0));
        }
        r
    }

    /// Rebinds the cursor to another posting list, keeping the decoder
    /// buffers. Position state held by an enclosing document cursor is not
    /// touched and must be reset by it.
    pub fn reset(&mut self, doc_freq: usize, postings_data: Vec<u8>)
        requires
            old(self).wf(),
            ({
                let nb = doc_freq as int / 128;
                let nt = doc_freq as int % 128;
                exists|docs: Seq<u32>, freqs: Seq<u32>|
                    #[trigger] postings_dec(postings_data@, 0, nb, nt, old(self).shas_freq())
                        == Some((docs, freqs)) && strictly_increasing(docs) && docs.len()
                        == doc_freq
            }),
        ensures
            final(self).wf(),
            final(self).sshown() == 0,
            final(self).sdoc_freq() == doc_freq,
            final(self).shas_freq() == old(self).shas_freq(),
            final(self).sblock().len() == 0,
            postings_dec(
                postings_data@,
                0,
                doc_freq as int / 128,
                doc_freq as int % 128,
                old(self).shas_freq(),
            ) == Some((final(self).sdocs_all(), final(self).sfreqs_all())),
            !old(self).shas_freq() ==> final(self).sfreqs_all() == ones(doc_freq as int),
    {
        let ghost pair = choose|docs: Seq<u32>, freqs: Seq<u32>|
            #[trigger] postings_dec(
                postings_data@,
                0,
                doc_freq as int / 128,
                doc_freq as int % 128,
                self.has_freq,
            ) == Some((docs, freqs)) && strictly_increasing(docs) && docs.len() == doc_freq;
        proof {
            lemma_postings_dec_len(
                postings_data@,
                0,
                doc_freq as int / 128,
                doc_freq as int % 128,
                self.has_freq,
            );
            if !self.has_freq {
                lemma_postings_dec_no_freq(
                    postings_data@,
                    0,
                    doc_freq as int / 128,
                    doc_freq as int % 128,
                );
            }
        }
        self.num_binpacked_blocks = doc_freq / NUM_DOCS_PER_BLOCK;
        self.num_vint_docs = doc_freq % NUM_DOCS_PER_BLOCK;
        self.data = postings_data;
        self.cursor = 0;
        self.doc_offset = 0;
        self.doc_freq = doc_freq;
        self.doc_decoder.clear();
        self.gdocs = Ghost(pair.0);
        self.gfreqs = Ghost(pair.1);
        self.gshown = Ghost(0int);
        proof {
            let gdocs = pair.0;
            let gfreqs = pair.1;
            assert(gdocs.skip(0) =~= gdocs);
            assert(gfreqs.skip(0) =~= gfreqs);
            assert(gdocs.subrange(0, 0) =~= Seq::<u32>::empty());
            assert(gfreqs.subrange(0, 0) =~= Seq::<u32>::empty());
            assert(self.sblock_freqs().take(0) =~= Seq::<u32>::empty());
            assert(doc_freq as int == (doc_freq as int / 128) * 128 + (doc_freq as int % 128))
                by (nonlinear_arith);
            assert(self.data@.skip(0) =~= self.data@);
            assert(self.doc_decoder.out() =~= gdocs.subrange(0, 0));
        }
    }

    /// The document frequency of the bound posting list: the sum of all block
    /// lengths, not discounting deleted documents.
    pub fn doc_freq(&self) -> (r: usize)
        ensures
            r == self.sdoc_freq(),
    {
        self.doc_freq
    }

    /// The documents of the current block; empty before the first `advance`.
    pub fn docs(&self) -> (r: &Vec<u32>)
        ensures
            r@ == self.sblock(),
    {
        self.doc_decoder.output_array()
    }

    /// The document at `idx` in the current block.
    pub fn doc(&self, idx: usize) -> (r: u32)
        requires
            idx < self.sblock().len(),
        ensures
            r == self.sblock()[idx as int],
    {
        self.doc_decoder.output(idx)
    }

    /// The frequencies of the current block (all ones when the posting list
    /// stores none).
    pub fn freqs(&self) -> (r: &Vec<u32>)
        requires
            self.shas_freq(),
        ensures
            r@ == self.sblock_freqs(),
    {
        self.freq_decoder.output_array()
    }

    /// The frequency at `idx` in the current block.
    pub fn freq(&self, idx: usize) -> (r: u32)
        requires
            self.wf(),
            idx < self.sblock().len(),
        ensures
            r == self.sblock_freqs()[idx as int],
    {
        self.freq_decoder.output(idx)
    }

    /// Length of the current block: 128 for every full block, 1 to 127 for
    /// the tail, 0 before the first `advance`.
    pub fn block_len(&self) -> (r: usize)
        ensures
            r == self.sblock().len(),
    {
        self.doc_decoder.output_len()
    }

    /// Decodes the next block. Returns `false` iff no block remains.
    pub fn advance(&mut self) -> (r: bool)
        requires
            old(self).wf(),
        ensures
            final(self).wf(),
            final(self).sdocs_all() == old(self).sdocs_all(),
            final(self).sfreqs_all() == old(self).sfreqs_all(),
            final(self).sdoc_freq() == old(self).sdoc_freq(),
            final(self).shas_freq() == old(self).shas_freq(),
            r == (old(self).sshown() < old(self).sdoc_freq()),
            r ==> final(self).sblock().len() > 0 && final(self).sshown() == old(self).sshown()
                + final(self).sblock().len(),
            r ==> final(self).sblock().len() == (if old(self).sdoc_freq() - old(self).sshown()
                < 128 {
                old(self).sdoc_freq() - old(self).sshown()
            } else {
                128int
            }),
            r ==> final(self).sblock_freqs().take(final(self).sblock().len() as int)
                == final(self).sfreqs_all().subrange(
                final(self).sshown() - final(self).sblock().len(),
                final(self).sshown(),
            ),
            !final(self).shas_freq() ==> final(self).sblock_freqs() == ones(128),
            0 <= final(self).sshown() <= final(self).sdoc_freq(),
            final(self).sdocs_all().len() == final(self).sdoc_freq(),
            r ==> final(self).sblock() == final(self).sdocs_all().subrange(
                final(self).sshown() - final(self).sblock().len(),
                final(self).sshown(),
            ),
            !r ==> *final(self) == *old(self),
    {
        let ghost docs = self.gdocs@;
        let ghost freqs = self.gfreqs@;
        let ghost shown = self.gshown@;
        let ghost rem = self.data@.skip(self.cursor as int);
        let dlen: usize = self.data.len();
        if self.num_binpacked_blocks > 0 {
            proof {
                assert(self.num_binpacked_blocks * 128 >= 128) by (nonlinear_arith)
                    requires self.num_binpacked_blocks >= 1;
            }
            let c1 = self.doc_decoder.uncompress_block_sorted(
                &self.data,
                self.cursor,
                self.doc_offset,
            );
            let ghost (bdocs, used1) = block_dec_sorted(rem, self.doc_offset)->Some_0;
            proof {
                assert(self.data@.skip(c1 as int) =~= rem.skip(used1));
            }
            let c2 = if self.has_freq {
                self.freq_decoder.uncompress_block_unsorted(&self.data, c1)
            } else {
                c1
            };
            let ghost (bfreqs, used2) = if self.has_freq {
                block_dec_unsorted(rem.skip(used1))->Some_0
            } else {
                (ones(128), 0int)
            };
            let ghost rest2 = if self.has_freq {
                rem.skip(used1).skip(used2)
            } else {
                rem.skip(used1)
            };
            proof {
                if self.has_freq {
                    assert(self.data@.skip(c2 as int) =~= rem.skip(used1).skip(used2));
                }
            }
            self.cursor = c2;
            self.doc_offset = self.doc_decoder.output(NUM_DOCS_PER_BLOCK - 1);
            self.num_binpacked_blocks = self.num_binpacked_blocks - 1;
            self.gshown = Ghost(shown + 128);
            proof {
                let (d2, f2) = postings_dec(
                    rest2,
                    bdocs.last(),
                    self.num_binpacked_blocks as int,
                    self.num_vint_docs as int,
                    self.has_freq,
                )->Some_0;
                assert(docs.skip(shown) == bdocs + d2 && freqs.skip(shown) == bfreqs + f2);
                assert(bdocs.len() == 128);
                assert(bfreqs.len() == 128);
                assert(d2 =~= docs.skip(shown + 128)) by {
                    assert((bdocs + d2).skip(128) =~= d2);
                    assert(docs.skip(shown).skip(128) =~= docs.skip(shown + 128));
                }
                assert(f2 =~= freqs.skip(shown + 128)) by {
                    assert((bfreqs + f2).skip(128) =~= f2);
                    assert(freqs.skip(shown).skip(128) =~= freqs.skip(shown + 128));
                }
                assert(bdocs =~= docs.subrange(shown, shown + 128)) by {
                    assert((bdocs + d2).take(128) =~= bdocs);
                    assert(docs.skip(shown).take(128) =~= docs.subrange(shown, shown + 128));
                }
                assert(bfreqs =~= freqs.subrange(shown, shown + 128)) by {
                    assert((bfreqs + f2).take(128) =~= bfreqs);
                    assert(freqs.skip(shown).take(128) =~= freqs.subrange(shown, shown + 128));
                }
                assert(docs[shown + 127] == bdocs[127]);
                assert((self.num_binpacked_blocks + 1) * 128 == self.num_binpacked_blocks * 128
                    + 128) by (nonlinear_arith);
                assert(self.sblock_freqs().take(128) =~= self.sblock_freqs()) by {
                    if self.has_freq {
                        assert(self.freq_decoder.out() == bfreqs);
                    } else {
                        assert(ones(128).take(128) =~= ones(128));
                    }
                }
                assert(freqs.subrange(shown + 128 - 128, shown + 128) == self.sblock_freqs().take(
                    128,
                )) by {
                    if self.has_freq {
                    } else {
                        assert(bfreqs =~= ones(128));
                    }
                }
            }
            true
        } else if self.num_vint_docs > 0 {
            let n = self.num_vint_docs;
            proof {
                crate::compression::lemma_vint_seq_dec_props(rem, n as int);
            }
            let c1 = self.doc_decoder.uncompress_vint_sorted(
                &self.data,
                self.cursor,
                self.doc_offset,
                n,
            );
            let ghost (bdocs, used1) = tail_dec_sorted(rem, self.doc_offset, n as int)->Some_0;
            proof {
                assert(self.data@.skip(c1 as int) =~= rem.skip(used1));
                if self.has_freq {
                    crate::compression::lemma_vint_seq_dec_props(rem.skip(used1), n as int);
                }
            }
            let c2 = if self.has_freq {
                self.freq_decoder.uncompress_vint_unsorted(&self.data, c1, n)
            } else {
                c1
            };
            let ghost bfreqs = if self.has_freq {
                tail_dec_unsorted(rem.skip(used1), n as int)->Some_0.0
            } else {
                ones(n as int)
            };
            self.cursor = c2;
            self.num_vint_docs = 0;
            self.gshown = Ghost(docs.len() as int);
            proof {
                let dl = docs.len() as int;
                assert(docs.skip(shown) == bdocs && freqs.skip(shown) == bfreqs);
                assert(bdocs.len() == n);
                assert(shown + n == dl);
                assert(self.doc_decoder.out() == bdocs);
                assert(bdocs =~= docs.subrange(dl - n, dl));
                assert(bfreqs =~= freqs.subrange(dl - n, dl));
                assert(docs.skip(dl) =~= Seq::<u32>::empty());
                assert(freqs.skip(dl) =~= Seq::<u32>::empty());
                let bf = self.sblock_freqs();
                assert(freqs.subrange(dl - n, dl) == bf.take(n as int)) by {
                    if self.has_freq {
                        assert(bf == bfreqs);
                        assert(bf.take(n as int) =~= bf);
                    } else {
                        assert(bfreqs =~= ones(128).take(n as int));
                    }
                }
                assert(n <= bf.len());
            }
            true
        } else {
            false
        }
    }

    /// An empty cursor, whose first `advance` returns `false`.
    pub fn empty() -> (r: BlockSegmentPostings)
        ensures
            r.wf(),
            r.sdocs_all() == Seq::<u32>::empty(),
            r.sfreqs_all() == Seq::<u32>::empty(),
            r.sdoc_freq() == 0,
            r.sshown() == 0,
            r.sblock().len() == 0,
    {
        let r = BlockSegmentPostings {
            doc_decoder: BlockDecoder::new(),
            freq_decoder: BlockDecoder::with_val(1),
            has_freq: false,
            doc_freq: 0,
            doc_offset: 0,
            num_binpacked_blocks: 0,
            num_vint_docs: 0,
            data: Vec::new(),
            cursor: 0,
            gdocs: Ghost(Seq::empty()),
            gfreqs: Ghost(Seq::empty()),
            gshown: Ghost(0int),
        };
        proof {
            let e = Seq::<u32>::empty();
            assert(r.freq_decoder.out() =~= ones(128));
            assert(r.data@.skip(0) =~= r.data@);
            assert(e.skip(0) =~= e);
            assert(e.subrange(0, 0) =~= e);
            assert(r.doc_decoder.out() =~= e.subrange(0, 0));
            assert(r.sblock_freqs().take(0) =~= e);
        }
        r
    }

    /// Iterator-style wrapper: decodes the next block and hands out its
    /// documents, or `None` at the end of the posting list.
    pub fn next(&mut self) -> (r: Option<&Vec<u32>>)
        requires
            old(self).wf(),
        ensures
            final(self).wf(),
            final(self).sdocs_all() == old(self).sdocs_all(),
            final(self).sfreqs_all() == old(self).sfreqs_all(),
            final(self).sdoc_freq() == old(self).sdoc_freq(),
            final(self).shas_freq() == old(self).shas_freq(),
            match r {
                Some(block) => old(self).sshown() < old(self).sdoc_freq() && block@ == final(self).sblock() && final(self).sshown() == old(self).sshown() + block@.len()
                    && block@.len() > 0,
                None => old(self).sshown() == old(self).sdoc_freq() && *final(self) == *old(self),
            },
    {
        if self.advance() {
            Some(self.docs())
        } else {
            None
        }
    }
}

/// Without stored frequencies, every decoded frequency defaults to one.
pub proof fn lemma_postings_dec_no_freq(s: Seq<u8>, base: u32, nblocks: int, ntail: int)
    requires
        postings_dec(s, base, nblocks, ntail, false) is Some,
        nblocks >= 0,
        ntail >= 0,
    ensures
        ({
            let (docs, freqs) = postings_dec(s, base, nblocks, ntail, false)->Some_0;
            freqs == ones(docs.len() as int)
        }),
    decreases nblocks,
{
    let (docs, freqs) = postings_dec(s, base, nblocks, ntail, false)->Some_0;
    if nblocks > 0 {
        let (bdocs, used1) = crate::compression::block_dec_sorted(s, base)->Some_0;
        lemma_postings_dec_no_freq(s.skip(used1), bdocs.last(), nblocks - 1, ntail);
        let (d2, f2) = postings_dec(s.skip(used1), bdocs.last(), nblocks - 1, ntail, false)->Some_0;
        assert(ones(128) + ones(d2.len() as int) =~= ones(128 + d2.len() as int));
    } else if ntail > 0 {
        crate::compression::lemma_vint_seq_dec_props(s, ntail);
    } else {
        assert(freqs =~= ones(0));
    }
}

/// A decoded posting list is as long as its document frequency says.
pub proof fn lemma_postings_dec_len(
    s: Seq<u8>,
    base: u32,
    nblocks: int,
    ntail: int,
    has_freq: bool,
)
    requires
        postings_dec(s, base, nblocks, ntail, has_freq) is Some,
        nblocks >= 0,
        ntail >= 0,
    ensures
        ({
            let (docs, freqs) = postings_dec(s, base, nblocks, ntail, has_freq)->Some_0;
            docs.len() == nblocks * 128 + ntail && freqs.len() == docs.len()
        }),
    decreases nblocks,
{
    if nblocks > 0 {
        let (bdocs, used1) = block_dec_sorted(s, base)->Some_0;
        let rest1 = s.skip(used1);
        if has_freq {
            let (bfreqs, used2) = block_dec_unsorted(rest1)->Some_0;
            lemma_postings_dec_len(rest1.skip(used2), bdocs.last(), nblocks - 1, ntail, has_freq);
        } else {
            lemma_postings_dec_len(rest1, bdocs.last(), nblocks - 1, ntail, has_freq);
        }
        assert(nblocks * 128 == 128 + (nblocks - 1) * 128) by (nonlinear_arith);
    } else if ntail > 0 {
        let (docs, used) = tail_dec_sorted(s, base, ntail)->Some_0;
        crate::compression::lemma_vint_seq_dec_props(s, ntail);
        if has_freq {
            crate::compression::lemma_vint_seq_dec_props(s.skip(used), ntail);
        }
    }
}

} // verus!
// (continued: the document-level cursor)

verus! {

/// The predicate selecting documents not tombstoned in `words`.
pub open spec fn live_of(words: Seq<u64>) -> spec_fn(u32) -> bool {
    |d: u32| !crate::bitset::has_bit(words, d)
}

/// Absolute positions: cumulative sums of the deltas.
pub open spec fn position_sums(ds: Seq<u32>) -> Seq<u32> {
    crate::compression::psum_docs(0, crate::compression::to_ints(ds))
}

/// Position law: each absolute position is the cumulative sum of the deltas
/// up to it, and there are as many positions as deltas, so a cursor's
/// `positions()` holds exactly `term_freq()` entries, each the sum of the
/// `delta_positions()` prefix ending at it.
pub proof fn lemma_positions_are_delta_sums(ds: Seq<u32>, i: int)
    requires
        0 <= i < ds.len(),
    ensures
        position_sums(ds).len() == ds.len(),
        position_sums(ds)[i] == seq_sum(crate::compression::to_ints(ds).take(i + 1)) as u32,
{
}

/// The sum of the deltas stays within 32 bits, so every cumulative sum does.
pub open spec fn sums_fit(ds: Seq<u32>) -> bool {
    seq_sum(crate::compression::to_ints(ds)) < 0x1_0000_0000
}

/// Number of position deltas that precede the positions of document `r` in a
/// posting list with frequencies `freqs`.
pub open spec fn group_start(freqs: Seq<u32>, r: int) -> int {
    seq_sum(crate::compression::to_ints(freqs).take(r))
}

/// Total number of position deltas of the posting list.
pub open spec fn sum_freqs(freqs: Seq<u32>) -> int {
    seq_sum(crate::compression::to_ints(freqs))
}

/// Every document's run of deltas sums within 32 bits.
pub open spec fn groups_fit(freqs: Seq<u32>, deltas: Seq<u32>) -> bool {
    forall|r: int|
        0 <= r < freqs.len() ==> sums_fit(
            #[trigger] deltas.subrange(group_start(freqs, r), group_start(freqs, r + 1)),
        )
}

pub proof fn lemma_group_step(freqs: Seq<u32>, r: int)
    requires
        0 <= r < freqs.len(),
    ensures
        group_start(freqs, r + 1) == group_start(freqs, r) + freqs[r],
{
    crate::compression::lemma_seq_sum_take_step(crate::compression::to_ints(freqs), r);
}

pub proof fn lemma_group_bounds(freqs: Seq<u32>, r: int)
    requires
        0 <= r <= freqs.len(),
    ensures
        0 <= group_start(freqs, r) <= sum_freqs(freqs),
{
    let fi = crate::compression::to_ints(freqs);
    assert(crate::compression::all_nonneg(fi));
    crate::compression::lemma_seq_sum_nonneg_mono(fi, r);
}

/// Sums split at a cut point: the deltas between two documents.
pub proof fn lemma_group_span(freqs: Seq<u32>, a: int, b: int)
    requires
        0 <= a <= b <= freqs.len(),
    ensures
        group_start(freqs, b) == group_start(freqs, a) + seq_sum(
            crate::compression::to_ints(freqs).subrange(a, b),
        ),
{
    let fi = crate::compression::to_ints(freqs);
    assert(fi.take(b) =~= fi.take(a) + fi.subrange(a, b));
    crate::compression::lemma_seq_sum_append(fi.take(a), fi.subrange(a, b));
}

/// Lazy state for the token positions of the current document: a count of
/// delta values still to be skipped in the positions stream, the reusable
/// delta and absolute-position buffers, and the stream itself.
pub struct PositionComputer {
    position_to_skip: Option<usize>,
    delta_positions: Vec<u32>,
    positions: Vec<u32>,
    positions_stream: crate::compression::CompressedIntStream,
}

impl PositionComputer {
    pub closed spec fn spending(&self) -> Option<usize> {
        self.position_to_skip
    }

    /// Values the stream will still yield.
    pub closed spec fn svals(&self) -> Seq<u32> {
        self.positions_stream.svals()
    }

    pub closed spec fn sdeltas(&self) -> Seq<u32> {
        self.delta_positions@
    }

    pub closed spec fn spositions(&self) -> Seq<u32> {
        self.positions@
    }

    pub closed spec fn wf(&self) -> bool {
        self.positions_stream.wf()
    }

    pub fn new(positions_stream: crate::compression::CompressedIntStream) -> (r: PositionComputer)
        requires
            positions_stream.wf(),
        ensures
            r.wf(),
            r.spending() is None,
            r.svals() == positions_stream.svals(),
    {
        PositionComputer {
            position_to_skip: None,
            positions: Vec::new(),
            delta_positions: Vec::new(),
            positions_stream,
        }
    }

    /// Records that `num_skip` more delta values must be skipped before the
    /// next read. When no skip is pending the stream already sits at the
    /// current document's deltas, so the count restarts at zero.
    pub fn add_skip(&mut self, num_skip: usize)
        requires
            match old(self).spending() {
                Some(p) => p + num_skip <= usize::MAX,
                None => true,
            },
        ensures
            final(self).wf() == old(self).wf(),
            final(self).svals() == old(self).svals(),
            final(self).sdeltas() == old(self).sdeltas(),
            final(self).spositions() == old(self).spositions(),
            final(self).spending() == match old(self).spending() {
                None => Some(0usize),
                Some(p) => Some((p + num_skip) as usize),
            },
    {
        self.position_to_skip = Some(
            match self.position_to_skip {
                Some(prev_skip) => prev_skip + num_skip,
                None => 0,
            },
        );
    }

    /// The position deltas of the current document: skips the pending run of
    /// values, reads `term_freq` deltas, and folds them into absolute
    /// positions. A second call without movement returns the same buffer.
    pub fn delta_positions(&mut self, term_freq: usize) -> (r: &Vec<u32>)
        requires
            old(self).wf(),
            match old(self).spending() {
                Some(n) => n + term_freq <= old(self).svals().len() && sums_fit(
                    old(self).svals().subrange(n as int, n + term_freq),
                ),
                None => old(self).sdeltas().len() >= term_freq && old(self).spositions()
                    == position_sums(old(self).sdeltas()),
            },
        ensures
            final(self).wf(),
            final(self).spending() is None,
            r@ == final(self).sdeltas(),
            match old(self).spending() {
                Some(n) => final(self).sdeltas() == old(self).svals().subrange(
                    n as int,
                    n + term_freq,
                ) && final(self).svals() == old(self).svals().skip(n + term_freq),
                None => final(self).sdeltas() == old(self).sdeltas().take(term_freq as int)
                    && final(self).svals() == old(self).svals(),
            },
            final(self).sdeltas().len() == term_freq,
            final(self).spositions() == position_sums(final(self).sdeltas()),
    {
        match self.position_to_skip {
            Some(num_skip) => {
                self.positions_stream.skip(num_skip);
                let ghost after_skip = self.positions_stream.svals();
                self.positions_stream.read(term_freq, &mut self.delta_positions);
                proof {
                    assert(after_skip.take(term_freq as int) =~= old(self).svals().subrange(
                        num_skip as int,
                        num_skip + term_freq,
                    ));
                    assert(after_skip.skip(term_freq as int) =~= old(self).svals().skip(
                        num_skip + term_freq,
                    ));
                }
                let ghost ds = self.delta_positions@;
                let ghost di = crate::compression::to_ints(ds);
                proof {
                    assert(crate::compression::all_nonneg(di));
                    assert(seq_sum(di) < 0x1_0000_0000);
                    assert(di.take(0) =~= Seq::<int>::empty());
                }
                self.positions.clear();
                let mut cum: u32 = 0;
                let mut i: usize = 0;
                while i < term_freq
                    invariant
                        i <= term_freq,
                        self.wf(),
                        self.svals() == after_skip.skip(term_freq as int),
                        after_skip.take(term_freq as int) == ds,
                        term_freq == ds.len(),
                        ds == self.delta_positions@,
                        di == crate::compression::to_ints(ds),
                        crate::compression::all_nonneg(di),
                        seq_sum(di) < 0x1_0000_0000,
                        self.positions@ =~= position_sums(ds).take(i as int),
                        cum == seq_sum(di.take(i as int)),
                    decreases term_freq - i,
                {
                    proof {
                        crate::compression::lemma_seq_sum_take_step(di, i as int);
                        crate::compression::lemma_seq_sum_nonneg_mono(di, i + 1);
                        assert(di[i as int] == ds[i as int] as int);
                    }
                    cum = cum + self.delta_positions[i];
                    self.positions.push(cum);
                    proof {
                        assert(self.positions@ =~= position_sums(ds).take(i + 1));
                    }
                    i += 1;
                }
                proof {
                    assert(position_sums(ds).take(term_freq as int) =~= position_sums(ds));
                }
                self.position_to_skip = None;
                &self.delta_positions
            },
            None => {
                // with no pending skip the buffers already hold the current
                // document's run; hand out its first `term_freq` entries
                let ghost ds0 = self.delta_positions@;
                self.delta_positions.truncate(term_freq);
                self.positions.truncate(term_freq);
                proof {
                    assert(self.positions@ =~= position_sums(self.delta_positions@)) by {
                        let k = term_freq as int;
                        assert forall|i: int| 0 <= i < k implies position_sums(ds0).take(k)[i]
                            == position_sums(ds0.take(k))[i] by {
                            lemma_positions_are_delta_sums(ds0, i);
                            lemma_positions_are_delta_sums(ds0.take(k), i);
                            assert(crate::compression::to_ints(ds0.take(k)).take(i + 1)
                                =~= crate::compression::to_ints(ds0).take(i + 1));
                        }
                        assert(position_sums(ds0).take(k) =~= position_sums(ds0.take(k)));
                    }
                }
                &self.delta_positions
            },
        }
    }

    /// The absolute-positions buffer as last materialised.
    pub fn positions_buf(&self) -> (r: &Vec<u32>)
        ensures
            r@ == self.spositions(),
    {
        &self.positions
    }

    /// The delta buffer as last materialised.
    pub fn deltas_buf(&self) -> (r: &Vec<u32>)
        ensures
            r@ == self.sdeltas(),
    {
        &self.delta_positions
    }

    /// The absolute positions of the current document: the cumulative sums of
    /// its deltas.
    pub fn positions(&mut self, term_freq: usize) -> (r: &Vec<u32>)
        requires
            old(self).wf(),
            match old(self).spending() {
                Some(n) => n + term_freq <= old(self).svals().len() && sums_fit(
                    old(self).svals().subrange(n as int, n + term_freq),
                ),
                None => old(self).sdeltas().len() == term_freq && old(self).spositions()
                    == position_sums(old(self).sdeltas()),
            },
        ensures
            final(self).wf(),
            final(self).spending() is None,
            match old(self).spending() {
                Some(n) => final(self).sdeltas() == old(self).svals().subrange(
                    n as int,
                    n + term_freq,
                ) && final(self).svals() == old(self).svals().skip(n + term_freq),
                None => final(self).sdeltas() == old(self).sdeltas() && final(self).svals()
                    == old(self).svals(),
            },
            final(self).sdeltas().len() == term_freq,
            final(self).spositions() == position_sums(final(self).sdeltas()),
            r@ == final(self).spositions(),
            r@.len() == term_freq,
    {
        let _deltas_len = self.delta_positions(term_freq).len();
        &self.positions
    }
}

} // verus!
// (continued: SegmentPostings)

use crate::bitset::DeleteBitSet;
use crate::docset::{
    DocSet, SkipResult, seek_pos, fpos, lemma_seek_pos_props, lemma_seek_pos_unique,
    lemma_fpos_step, lemma_fpos_index, lemma_fpos_nonneg, lemma_fpos_mono, lemma_fpos_between,
};
use crate::compression::CompressedIntStream;

verus! {

/// The posting list of one term as a document-level docset: per-document
/// advance, forward seek across blocks, deletion filtering, and lazy
/// materialisation of token positions.
pub struct SegmentPostings {
    block_cursor: BlockSegmentPostings,
    /// Index within the current block; `NUM_DOCS_PER_BLOCK` before the first
    /// advance to force a block load.
    cur: usize,
    delete_bitset: DeleteBitSet,
    position_computer: Option<PositionComputer>,
    /// Handed out by `delta_positions` when the list was opened without
    /// positions; always empty.
    empty_positions: Vec<u32>,
    gdone: Ghost<bool>,
    gdeltas: Ghost<Seq<u32>>,
}

impl SegmentPostings {
    /// Every document of the posting list, deleted ones included.
    pub closed spec fn rdocs(&self) -> Seq<u32> {
        self.block_cursor.sdocs_all()
    }

    /// The frequency of every document of the posting list.
    pub closed spec fn rfreqs(&self) -> Seq<u32> {
        self.block_cursor.sfreqs_all()
    }

    /// The liveness predicate of the segment's delete bitmap.
    pub closed spec fn lpred(&self) -> spec_fn(u32) -> bool {
        live_of(self.delete_bitset.swords())
    }

    /// All position deltas of the term, across all its documents.
    pub closed spec fn sdeltas_all(&self) -> Seq<u32> {
        self.gdeltas@
    }

    pub closed spec fn shas_positions(&self) -> bool {
        self.position_computer is Some
    }

    spec fn bl(&self) -> int {
        self.block_cursor.sblock().len() as int
    }

    /// Index of the current document within `rdocs`.
    pub closed spec fn raw(&self) -> int {
        self.block_cursor.sshown() - self.bl() + self.cur
    }

    pub closed spec fn is_done(&self) -> bool {
        self.gdone@
    }

    pub closed spec fn is_fresh(&self) -> bool {
        !self.gdone@ && self.cur >= self.bl()
    }

    pub closed spec fn is_mid(&self) -> bool {
        !self.gdone@ && self.cur < self.bl()
    }

    /// Deltas consumed from the positions stream so far.
    spec fn vpos(&self) -> int {
        self.gdeltas@.len() - self.position_computer->Some_0.svals().len()
    }

    /// Position accounting: the pending skip plus the stream position always
    /// reaches the current document's run of deltas.
    spec fn acct(&self) -> bool {
        match self.position_computer {
            None => true,
            Some(c) => {
                let tt = self.gdeltas@;
                let fr = self.rfreqs();
                &&& c.wf()
                &&& tt.len() == sum_freqs(fr)
                &&& tt.len() <= usize::MAX
                &&& groups_fit(fr, tt)
                &&& c.svals().len() <= tt.len()
                &&& c.svals() == tt.skip(tt.len() - c.svals().len())
                &&& (self.is_fresh() ==> c.spending() is None && self.vpos() == 0)
                &&& (self.is_mid() ==> match c.spending() {
                    None => self.vpos() == group_start(fr, self.raw() + 1) && c.sdeltas()
                        == tt.subrange(
                        group_start(fr, self.raw()),
                        group_start(fr, self.raw() + 1),
                    ) && c.spositions() == position_sums(c.sdeltas()),
                    Some(p) => self.vpos() + p == group_start(fr, self.raw()),
                })
            },
        }
    }

    /// Invariant of the cursor machinery, current document's liveness aside.
    spec fn core_inv(&self) -> bool {
        &&& self.block_cursor.wf()
        &&& self.cur <= 128
        &&& self.empty_positions@.len() == 0
        &&& (self.is_fresh() ==> self.block_cursor.sshown() == 0 && self.bl() == 0 && self.cur
            == 128)
        &&& (self.is_done() ==> self.block_cursor.sshown() == self.rdocs().len() && self.cur
            == self.bl())
        &&& self.acct()
    }

    /// Raw index one past the current document: where the next candidate sits.
    spec fn next_raw(&self) -> int {
        if self.is_fresh() {
            0
        } else {
            self.raw() + 1
        }
    }

    spec fn entry_raw(&self) -> int {
        if self.is_fresh() {
            -1
        } else {
            self.raw()
        }
    }

    /// A well-formed cursor holding a current document is exactly one whose
    /// position lies within the live sequence; such a cursor answers
    /// `term_freq`, `positions` and `delta_positions`.
    pub proof fn lemma_cursor_mid(&self)
        requires
            self.wf(),
        ensures
            self.is_mid() <==> 0 <= self.spos() < self.sdocs().len(),
    {
        let ud = self.rdocs();
        let lp = self.lpred();
        if self.is_mid() {
            lemma_fpos_index(ud, lp, self.raw());
        }
        crate::docset::lemma_fpos_nonneg(ud, lp, ud.len() as int);
    }

    /// Ties the raw index to the public cursor: on a current document the raw
    /// index addresses it within `rdocs`, it is live, and the public position
    /// is its rank among the live documents. With this, `term_freq` and
    /// `positions` speak about the document `doc()` returns.
    pub proof fn lemma_raw_position(&self)
        requires
            self.wf(),
            self.is_mid(),
        ensures
            0 <= self.raw() < self.rdocs().len(),
            self.lpred()(self.rdocs()[self.raw()]),
            self.spos() == fpos(self.rdocs(), self.lpred(), self.raw()),
            0 <= self.spos() < self.sdocs().len(),
            self.rdocs()[self.raw()] == self.sdocs()[self.spos()],
    {
        lemma_fpos_index(self.rdocs(), self.lpred(), self.raw());
    }

    /// Whether the cursor holds a current document, as an executable test:
    /// lets unverified callers establish the precondition of `doc`,
    /// `term_freq` and `positions` at run time.
    pub fn has_current(&self) -> (r: bool)
        requires
            self.wf(),
        ensures
            r == self.is_mid(),
    {
        self.cur < self.block_cursor.block_len()
    }

    /// `DocSet::advance`, stated over the whole cursor: besides the cursor
    /// movement, the underlying list, its frequencies, the position deltas,
    /// the liveness predicate and the positions mode are untouched — the
    /// facts a caller of `term_freq` and `positions` needs across moves.
    pub fn advance_doc(&mut self) -> (r: bool)
        requires
            old(self).wf(),
        ensures
            final(self).wf(),
            final(self).rdocs() == old(self).rdocs(),
            final(self).rfreqs() == old(self).rfreqs(),
            final(self).lpred() == old(self).lpred(),
            final(self).sdeltas_all() == old(self).sdeltas_all(),
            final(self).shas_positions() == old(self).shas_positions(),
            final(self).sdoc_freq() == old(self).sdoc_freq(),
            final(self).shint() == old(self).shint(),
            final(self).sdocs() == old(self).sdocs(),
            final(self).spos() == if old(self).spos() < old(self).sdocs().len() {
                old(self).spos() + 1
            } else {
                old(self).spos()
            },
            r == (final(self).spos() < final(self).sdocs().len()),
    {
        let ghost p1 = self.spos();
        proof {
            let ud = self.rdocs();
            let lp = self.lpred();
            if self.is_mid() {
                lemma_fpos_step(ud, lp, self.raw());
            } else if self.is_fresh() {
                assert(ud.take(0) =~= Seq::<u32>::empty());
                assert(fpos(ud, lp, 0) == 0) by {
                    reveal(Seq::filter);
                }
            }
        }
        self.advance_loop(Ghost(p1))
    }

    /// Builds the document cursor over a block cursor, a delete bitmap and,
    /// when the list was opened with positions, its positions stream.
    pub fn from_block_postings(
        segment_block_postings: BlockSegmentPostings,
        delete_bitset: DeleteBitSet,
        positions_stream_opt: Option<CompressedIntStream>,
    ) -> (r: SegmentPostings)
        requires
            segment_block_postings.wf(),
            segment_block_postings.sshown() == 0,
            segment_block_postings.sblock().len() == 0,
            match positions_stream_opt {
                Some(stream) => stream.wf() && stream.svals().len() == sum_freqs(
                    segment_block_postings.sfreqs_all(),
                ) && stream.svals().len() <= usize::MAX && groups_fit(
                    segment_block_postings.sfreqs_all(),
                    stream.svals(),
                ),
                None => true,
            },
        ensures
            r.wf(),
            r.spos() == -1,
            r.rdocs() == segment_block_postings.sdocs_all(),
            r.rfreqs() == segment_block_postings.sfreqs_all(),
            r.sdocs() == segment_block_postings.sdocs_all().filter(
                live_of(delete_bitset.swords()),
            ),
            r.lpred() == live_of(delete_bitset.swords()),
            r.shas_positions() == positions_stream_opt is Some,
            r.sdeltas_all() == match positions_stream_opt {
                Some(stream) => stream.svals(),
                None => Seq::<u32>::empty(),
            },
            r.sdoc_freq() == segment_block_postings.sdoc_freq(),
            r.shint() == segment_block_postings.sdoc_freq(),
    {
        let ghost gdeltas = if positions_stream_opt is Some {
            positions_stream_opt->Some_0.svals()
        } else {
            Seq::<u32>::empty()
        };
        let position_computer = match positions_stream_opt {
            Some(stream) => Some(PositionComputer::new(stream)),
            None => None,
        };
        let r = SegmentPostings {
            block_cursor: segment_block_postings,
            cur: NUM_DOCS_PER_BLOCK,
            delete_bitset,
            position_computer,
            empty_positions: Vec::new(),
            gdone: Ghost(false),
            gdeltas: Ghost(gdeltas),
        };
        proof {
            if r.position_computer is Some {
                let c = r.position_computer->Some_0;
                assert(c.svals() =~= gdeltas.skip(0));
            }
        }
        r
    }

    /// An empty posting list.
    pub fn empty() -> (r: SegmentPostings)
        ensures
            r.wf(),
            r.spos() == -1,
            r.sdocs() == Seq::<u32>::empty(),
            r.rdocs() == Seq::<u32>::empty(),
            r.rfreqs() == Seq::<u32>::empty(),
            !r.shas_positions(),
            r.sdeltas_all() == Seq::<u32>::empty(),
            r.sdoc_freq() == 0,
            r.shint() == 0,
    {
        let empty_block_cursor = BlockSegmentPostings::empty();
        let r = SegmentPostings {
            block_cursor: empty_block_cursor,
            delete_bitset: DeleteBitSet::empty(),
            cur: NUM_DOCS_PER_BLOCK,
            position_computer: None,
            empty_positions: Vec::new(),
            gdone: Ghost(false),
            gdeltas: Ghost(Seq::empty()),
        };
        proof {
            crate::docset::lemma_filter_empty(r.rdocs(), r.lpred());
            assert(r.sdocs() =~= Seq::<u32>::empty());
        }
        r
    }

    /// The stored document frequency: a tight upper bound on the number of
    /// live documents (deletions are not discounted).
    pub closed spec fn sdoc_freq(&self) -> int {
        self.block_cursor.sdoc_freq()
    }

    /// The stored document frequency.
    pub fn len(&self) -> (r: usize)
        requires
            self.wf(),
        ensures
            r == self.sdoc_freq(),
            r == self.shint(),
            self.sdocs().len() <= r,
    {
        proof {
            self.rdocs().lemma_filter_len(self.lpred());
        }
        self.block_cursor.doc_freq()
    }

    /// The term frequency of the current document.
    pub fn term_freq(&self) -> (r: u32)
        requires
            self.wf(),
            self.is_mid(),
        ensures
            r == self.rfreqs()[self.raw()],
    {
        proof {
            let sh = self.block_cursor.sshown();
            let bl = self.bl();
            assert(self.rfreqs().subrange(sh - bl, sh) == self.block_cursor.sblock_freqs().take(
                bl,
            ));
            assert(self.rfreqs().subrange(sh - bl, sh)[self.cur as int] == self.rfreqs()[self.raw()]);
        }
        self.block_cursor.freq(self.cur)
    }

    /// Forwards a pending-skip increment to the position computer, when the
    /// list carries positions.
    fn position_add_skip(&mut self, num_skips: usize)
        requires
            match old(self).position_computer {
                Some(c) => match c.spending() {
                    Some(p) => p + num_skips <= usize::MAX,
                    None => true,
                },
                None => true,
            },
        ensures
            final(self).block_cursor == old(self).block_cursor,
            final(self).cur == old(self).cur,
            final(self).delete_bitset == old(self).delete_bitset,
            final(self).gdone == old(self).gdone,
            final(self).gdeltas == old(self).gdeltas,
            final(self).empty_positions == old(self).empty_positions,
            match old(self).position_computer {
                None => final(self).position_computer is None,
                Some(c) => final(self).position_computer is Some && ({
                    let c2 = final(self).position_computer->Some_0;
                    c2.wf() == c.wf() && c2.svals() == c.svals() && c2.sdeltas() == c.sdeltas()
                        && c2.spositions() == c.spositions() && c2.spending() == (match c.spending() {
                        None => Some(0usize),
                        Some(p) => Some((p + num_skips) as usize),
                    })
                }),
            },
    {
        if self.position_computer.is_some() {
            let mut c = self.position_computer.take().unwrap();
            c.add_skip(num_skips);
            self.position_computer = Some(c);
        }
    }

    /// Advances past the current entry (and any deleted documents) to the
    /// next live document; `p1 + 1` is its position among the live documents.
    fn advance_loop(&mut self, Ghost(p1): Ghost<int>) -> (r: bool)
        requires
            old(self).core_inv(),
            !old(self).is_done() ==> fpos(old(self).rdocs(), old(self).lpred(), old(
                self,
            ).next_raw()) == p1 + 1,
        ensures
            final(self).wf(),
            final(self).rdocs() == old(self).rdocs(),
            final(self).rfreqs() == old(self).rfreqs(),
            final(self).lpred() == old(self).lpred(),
            final(self).sdeltas_all() == old(self).sdeltas_all(),
            final(self).shas_positions() == old(self).shas_positions(),
            final(self).sdoc_freq() == old(self).sdoc_freq(),
            final(self).sdocs() == old(self).sdocs(),
            r == (final(self).spos() < final(self).sdocs().len()),
            r ==> final(self).spos() == p1 + 1 && final(self).is_mid() && old(self).entry_raw()
                < final(self).raw(),
            r && final(self).shas_positions() ==> final(self).position_computer->Some_0.spending() is Some,
            !r ==> final(self).is_done() && final(self).spos() == final(self).sdocs().len() && (
            !old(self).is_done() ==> final(self).sdocs().len() == p1 + 1),
    {
        let ghost ud = self.rdocs();
        let ghost fr = self.rfreqs();
        let ghost lp = self.lpred();
        let ghost er = self.entry_raw();
        proof {
            self.rdocs().lemma_filter_len(lp);
        }
        loop
            invariant
                self.core_inv(),
                ud == self.rdocs(),
                fr == self.rfreqs(),
                lp == self.lpred(),
                self.rdocs() == old(self).rdocs(),
                self.rfreqs() == old(self).rfreqs(),
                self.lpred() == old(self).lpred(),
                self.sdeltas_all() == old(self).sdeltas_all(),
                self.shas_positions() == old(self).shas_positions(),
                self.sdoc_freq() == old(self).sdoc_freq(),
                self.delete_bitset == old(self).delete_bitset,
                self.gdone == old(self).gdone,
                er == old(self).entry_raw(),
                -1 <= er,
                self.is_done() == old(self).is_done(),
                self.is_fresh() ==> er == -1,
                self.is_mid() ==> er <= self.raw(),
                !self.is_done() ==> fpos(ud, lp, self.next_raw()) == p1 + 1,
            decreases ud.len() - self.entry_raw(),
        {
            let bl = self.block_cursor.block_len();
            let ghost pre = *self;
            // account for the positions of the entry being left
            if self.position_computer.is_some() {
                if self.cur < bl {
                    let tf = self.block_cursor.freq(self.cur);
                    proof {
                        let c = self.position_computer->Some_0;
                        if self.is_mid() {
                            lemma_group_step(fr, self.raw());
                            lemma_group_bounds(fr, self.raw());
                            lemma_group_bounds(fr, self.raw() + 1);
                            let sh = self.block_cursor.sshown();
                            assert(fr.subrange(sh - bl, sh)
                                == self.block_cursor.sblock_freqs().take(bl as int));
                            assert(fr.subrange(sh - bl, sh)[self.cur as int] == fr[self.raw()]);
                        }
                    }
                    self.position_add_skip(tf as usize);
                } else {
                    self.position_add_skip(0);
                }
            }
            proof {
                if self.position_computer is Some {
                    let c = self.position_computer->Some_0;
                    if self.is_mid() {
                        lemma_group_step(fr, self.raw());
                        assert(c.spending() is Some);
                        assert(self.vpos() + c.spending()->Some_0 == group_start(
                            fr,
                            self.raw() + 1,
                        ));
                    } else if self.is_fresh() {
                        assert(crate::compression::to_ints(fr).take(0) =~= Seq::<int>::empty());
                        assert(group_start(fr, 0) == 0);
                        assert(c.spending() == Some(0usize));
                        assert(self.vpos() == 0);
                    }
                }
            }
            // move one entry forward, loading the next block when needed
            if self.cur + 1 < bl {
                self.cur = self.cur + 1;
            } else {
                let ghost old_next = pre.next_raw();
                if !self.block_cursor.advance() {
                    self.cur = self.block_cursor.block_len();
                    self.gdone = Ghost(true);
                    proof {
                        lemma_fpos_nonneg(ud, lp, ud.len() as int);
                        if !pre.is_done() {
                            assert(pre.next_raw() == ud.len());
                        }
                        assert(self.spos() == self.sdocs().len());
                    }
                    return false;
                }
                self.cur = 0;
            }
            proof {
                assert(self.is_mid());
                assert(self.raw() == (if pre.is_fresh() {
                    0int
                } else {
                    pre.raw() + 1
                }));
                if self.position_computer is Some {
                    let c = self.position_computer->Some_0;
                    assert(self.vpos() + c.spending()->Some_0 == group_start(fr, self.raw()));
                }
            }
            // deliver the document when it is live; otherwise keep walking
            let ghost sh = self.block_cursor.sshown();
            let ghost nbl = self.bl();
            let d = self.block_cursor.doc(self.cur);
            proof {
                assert(self.rdocs().subrange(sh - nbl, sh)[self.cur as int] == ud[self.raw()]);
                assert(d == ud[self.raw()]);
            }
            if !self.delete_bitset.is_deleted(d) {
                proof {
                    assert(lp(ud[self.raw()]));
                    assert(self.spos() == fpos(ud, lp, self.raw()));
                    lemma_fpos_index(ud, lp, self.raw());
                }
                return true;
            }
            proof {
                assert(!lp(ud[self.raw()]));
                lemma_fpos_step(ud, lp, self.raw());
            }
        }
    }
}

} // verus!
// (continued: search, positions accessors, and the docset contract)

verus! {

impl SegmentPostings {
    /// Sum of the current block's frequencies over `[from, to)`.
    fn sum_block_freq_range(&self, from: usize, to: usize) -> (s: u64)
        requires
            self.block_cursor.wf(),
            from <= to <= self.block_cursor.sblock().len(),
        ensures
            s == seq_sum(
                crate::compression::to_ints(self.rfreqs()).subrange(
                    self.block_cursor.sshown() - self.bl() + from,
                    self.block_cursor.sshown() - self.bl() + to,
                ),
            ),
            s <= (to - from) * 0xFFFF_FFFFu64,
    {
        let ghost fr = self.rfreqs();
        let ghost fi = crate::compression::to_ints(fr);
        let ghost sh = self.block_cursor.sshown();
        let ghost bl = self.bl();
        let ghost a = sh - bl + from;
        proof {
            assert(fr.subrange(sh - bl, sh) == self.block_cursor.sblock_freqs().take(bl));
            assert(fi.subrange(a, a).len() == 0);
            assert(seq_sum(fi.subrange(a, a)) == 0) by {
                assert(fi.subrange(a, a) =~= Seq::<int>::empty());
            }
        }
        let mut acc: u64 = 0;
        let mut j: usize = from;
        while j < to
            invariant
                from <= j <= to,
                to <= self.block_cursor.sblock().len(),
                self.block_cursor.wf(),
                fr == self.rfreqs(),
                fi == crate::compression::to_ints(fr),
                sh == self.block_cursor.sshown(),
                bl == self.bl(),
                a == sh - bl + from,
                acc == seq_sum(fi.subrange(a, a + (j - from))),
                acc <= (j - from) * 0xFFFF_FFFFu64,
            decreases to - j,
        {
            let f = self.block_cursor.freq(j);
            proof {
                assert(fr.subrange(sh - bl, sh) == self.block_cursor.sblock_freqs().take(bl));
                assert(fr.subrange(sh - bl, sh)[j as int] == fr[sh - bl + j]);
                assert(f == fr[sh - bl + j]);
                let w = fi.subrange(a, a + (j - from) + 1);
                assert(w.drop_last() =~= fi.subrange(a, a + (j - from)));
                assert(w.last() == fi[a + (j - from)]);
                assert(fi[sh - bl + j] == fr[sh - bl + j] as int);
                assert(acc + f <= ((j - from) + 1) * 0xFFFF_FFFFu64) by (nonlinear_arith)
                    requires
                        acc <= (j - from) * 0xFFFF_FFFFu64,
                        f <= 0xFFFF_FFFFu64,
                        j >= from,
                ;
                assert(((j - from) + 1) * 0xFFFF_FFFFu64 <= 128 * 0xFFFF_FFFFu64)
                    by (nonlinear_arith)
                    requires j - from + 1 <= 128;
            }
            acc = acc + (f as u64);
            j += 1;
        }
        proof {
            assert(fi.subrange(a, a + (to - from)) =~= fi.subrange(a, sh - bl + to));
        }
        acc
    }

    /// First index at or past `cur` in the current block whose document is at
    /// or after `target`: an exponential probe narrowing to a binary search.
    fn search_in_block(&self, target: u32) -> (i: usize)
        requires
            self.block_cursor.wf(),
            self.cur < self.block_cursor.sblock().len(),
            self.block_cursor.sblock()[self.cur as int] <= target,
            target <= self.block_cursor.sblock().last(),
        ensures
            self.cur <= i < self.block_cursor.sblock().len(),
            self.block_cursor.sblock()[i as int] >= target,
            forall|j: int|
                self.cur <= j < i ==> #[trigger] self.block_cursor.sblock()[j] < target,
    {
        let ghost blk = self.block_cursor.sblock();
        let block_len = self.block_cursor.block_len();
        proof {
            let ud = self.rdocs();
            let sh = self.block_cursor.sshown();
            let bl = blk.len() as int;
            assert forall|x: int, y: int| 0 <= x < y < bl implies #[trigger] blk[x] < #[trigger]
                blk[y] by {
                assert(blk[x] == ud.subrange(sh - bl, sh)[x]);
                assert(blk[y] == ud.subrange(sh - bl, sh)[y]);
            }
        }
        // exponential probe: double the step until it overshoots the block or
        // lands at or past the target
        let mut start: usize = self.cur;
        let mut count: usize = 1;
        let mut probing: bool = true;
        while probing
            invariant
                self.cur <= start < blk.len(),
                blk == self.block_cursor.sblock(),
                block_len == blk.len(),
                self.block_cursor.wf(),
                1 <= count <= 256,
                blk.len() <= 128,
                forall|j: int| self.cur < j <= start ==> #[trigger] blk[j] < target,
                forall|x: int, y: int|
                    0 <= x < y < blk.len() ==> #[trigger] blk[x] < #[trigger] blk[y],
                !probing ==> (start + count >= blk.len() || blk[start + count] >= target),
            decreases (if probing {
                1int
            } else {
                0int
            }), blk.len() - start,
        {
            let next = start + count;
            if next < block_len {
                let d = self.block_cursor.doc(next);
                if d < target {
                    proof {
                        assert forall|j: int| self.cur < j <= next implies #[trigger] blk[j]
                            < target by {
                            if j < next {
                                if j <= start {
                                } else {
                                    assert(blk[j] < blk[next as int]);
                                }
                            }
                        }
                        assert(2 * count <= 256) by {
                            assert(count < blk.len());
                        }
                    }
                    start = next;
                    count = count * 2;
                } else {
                    probing = false;
                }
            } else {
                probing = false;
            }
        }
        let mut end: usize = start + count;
        if end > block_len {
            end = block_len;
        }
        proof {
            assert(end <= blk.len());
            if start + count < blk.len() {
                assert(blk[start + count] >= target);
                assert forall|j: int| end <= j < blk.len() implies #[trigger] blk[j] >= target by {
                    if j > end {
                        assert(blk[end as int] < blk[j]);
                    }
                }
            }
        }
        // binary search in the narrowed window
        proof {
            assert forall|j: int| self.cur <= j < start implies #[trigger] blk[j] < target by {
                if j == self.cur && start > self.cur {
                    assert(blk[start as int] < target);
                    assert(blk[self.cur as int] < blk[start as int]);
                }
            }
        }
        let mut lo: usize = start;
        let mut remaining: usize = end - start;
        while remaining > 0
            invariant
                self.cur <= lo,
                lo + remaining <= end <= blk.len(),
                blk == self.block_cursor.sblock(),
                block_len == blk.len(),
                self.block_cursor.wf(),
                target <= blk.last(),
                blk.len() >= 1,
                forall|j: int| self.cur <= j < lo ==> #[trigger] blk[j] < target,
                forall|j: int| lo + remaining <= j < blk.len() ==> #[trigger] blk[j] >= target,
                forall|x: int, y: int|
                    0 <= x < y < blk.len() ==> #[trigger] blk[x] < #[trigger] blk[y],
            decreases remaining,
        {
            let step = remaining / 2;
            let mid = lo + step;
            let d = self.block_cursor.doc(mid);
            if d < target {
                proof {
                    assert forall|j: int| self.cur <= j < mid + 1 implies #[trigger] blk[j]
                        < target by {
                        if j < mid && j >= lo {
                            assert(blk[j] < blk[mid as int]);
                        }
                    }
                }
                lo = mid + 1;
                remaining = remaining - (step + 1);
            } else {
                proof {
                    assert forall|j: int| mid <= j < blk.len() implies #[trigger] blk[j]
                        >= target by {
                        if j > mid {
                            assert(blk[mid as int] < blk[j]);
                        }
                    }
                }
                remaining = step;
            }
        }
        proof {
            if lo == blk.len() {
                assert(blk[blk.len() - 1] < target);
            }
        }
        lo
    }

    /// The absolute token positions of the current document: the cumulative
    /// sums of its deltas, `term_freq()` of them. Only available when the
    /// posting list was opened with positions.
    pub fn positions(&mut self) -> (r: &Vec<u32>)
        requires
            old(self).wf(),
            old(self).is_mid(),
            old(self).shas_positions(),
        ensures
            final(self).wf(),
            final(self).is_mid(),
            final(self).raw() == old(self).raw(),
            final(self).rdocs() == old(self).rdocs(),
            final(self).rfreqs() == old(self).rfreqs(),
            final(self).sdeltas_all() == old(self).sdeltas_all(),
            final(self).sdocs() == old(self).sdocs(),
            final(self).spos() == old(self).spos(),
            final(self).shas_positions(),
            r@ == position_sums(
                old(self).sdeltas_all().subrange(
                    group_start(old(self).rfreqs(), old(self).raw()),
                    group_start(old(self).rfreqs(), old(self).raw() + 1),
                ),
            ),
            r@.len() == old(self).rfreqs()[old(self).raw()],
    {
        let ghost fr = self.rfreqs();
        let ghost tt = self.gdeltas@;
        let ghost rw = self.raw();
        let tf = self.term_freq();
        proof {
            lemma_group_step(fr, rw);
            lemma_group_bounds(fr, rw);
            lemma_group_bounds(fr, rw + 1);
        }
        let mut c = self.position_computer.take().unwrap();
        proof {
            let gs = group_start(fr, rw);
            let ge = group_start(fr, rw + 1);
            match c.spending() {
                Some(p) => {
                    assert(c.svals() == tt.skip(tt.len() - c.svals().len()));
                    let vp = tt.len() - c.svals().len();
                    assert(vp + p == gs);
                    assert(c.svals().subrange(p as int, p + tf) =~= tt.subrange(gs, ge));
                },
                None => {},
            }
        }
        let _len = c.positions(tf as usize).len();
        self.position_computer = Some(c);
        proof {
            let c2 = self.position_computer->Some_0;
            let gs = group_start(fr, rw);
            let ge = group_start(fr, rw + 1);
            assert(c2.sdeltas() == tt.subrange(gs, ge));
            assert(c2.svals() =~= tt.skip(ge));
        }
        match &self.position_computer {
            Some(c2) => c2.positions_buf(),
            None => &self.empty_positions,
        }
    }

    /// The position deltas of the current document, without the cumulative
    /// sum; empty when the posting list was opened without positions.
    pub fn delta_positions(&mut self) -> (r: &Vec<u32>)
        requires
            old(self).wf(),
            old(self).is_mid(),
        ensures
            final(self).wf(),
            final(self).is_mid(),
            final(self).raw() == old(self).raw(),
            final(self).rdocs() == old(self).rdocs(),
            final(self).rfreqs() == old(self).rfreqs(),
            final(self).sdeltas_all() == old(self).sdeltas_all(),
            final(self).sdocs() == old(self).sdocs(),
            final(self).spos() == old(self).spos(),
            final(self).shas_positions() == old(self).shas_positions(),
            old(self).shas_positions() ==> r@ == old(self).sdeltas_all().subrange(
                group_start(old(self).rfreqs(), old(self).raw()),
                group_start(old(self).rfreqs(), old(self).raw() + 1),
            ),
            !old(self).shas_positions() ==> r@ == Seq::<u32>::empty(),
    {
        if self.position_computer.is_none() {
            return &self.empty_positions;
        }
        let ghost fr = self.rfreqs();
        let ghost tt = self.gdeltas@;
        let ghost rw = self.raw();
        let tf = self.term_freq();
        proof {
            lemma_group_step(fr, rw);
            lemma_group_bounds(fr, rw);
            lemma_group_bounds(fr, rw + 1);
        }
        let mut c = self.position_computer.take().unwrap();
        proof {
            let gs = group_start(fr, rw);
            let ge = group_start(fr, rw + 1);
            match c.spending() {
                Some(p) => {
                    let vp = tt.len() - c.svals().len();
                    assert(vp + p == gs);
                    assert(c.svals().subrange(p as int, p + tf) =~= tt.subrange(gs, ge));
                },
                None => {},
            }
        }
        let _len = c.delta_positions(tf as usize).len();
        self.position_computer = Some(c);
        proof {
            let c2 = self.position_computer->Some_0;
            let gs = group_start(fr, rw);
            let ge = group_start(fr, rw + 1);
            assert(c2.sdeltas() == tt.subrange(gs, ge));
            assert(c2.svals() =~= tt.skip(ge));
        }
        match &self.position_computer {
            Some(c2) => c2.deltas_buf(),
            None => &self.empty_positions,
        }
    }
}

/// In the window a seek crosses, every already-live document stays below the
/// target, so the filtered seek lands on the first live document at or after
/// it.
proof fn lemma_postings_window(
    ud: Seq<u32>,
    lp: spec_fn(u32) -> bool,
    r1: int,
    q: int,
    p0: int,
    target: u32,
)
    requires
        strictly_increasing(ud),
        0 <= r1 <= q <= ud.len(),
        fpos(ud, lp, r1) == p0 + 1,
        forall|k: int| r1 <= k < q ==> #[trigger] ud[k] < target,
    ensures
        p0 < fpos(ud, lp, q),
        forall|j: int| p0 < j < fpos(ud, lp, q) ==> #[trigger] ud.filter(lp)[j] < target,
{
    lemma_fpos_mono(ud, lp, r1, q);
    assert forall|j: int| p0 < j < fpos(ud, lp, q) implies #[trigger] ud.filter(lp)[j]
        < target by {
        lemma_fpos_between(ud, lp, r1, q, j);
        let k = choose|k: int|
            r1 <= k < q && lp(#[trigger] ud[k]) && fpos(ud, lp, k) == j && ud.filter(lp)[j]
                == ud[k];
        assert(ud[k] < target);
    }
}

} // verus!
// (continued: the ordered-seek contract of the posting list)

verus! {

impl DocSet for SegmentPostings {
    closed spec fn sdocs(&self) -> Seq<u32> {
        self.rdocs().filter(self.lpred())
    }

    closed spec fn spos(&self) -> int {
        if self.gdone@ {
            self.sdocs().len() as int
        } else if self.cur >= self.bl() {
            -1
        } else {
            fpos(self.rdocs(), self.lpred(), self.raw())
        }
    }

    closed spec fn wf(&self) -> bool {
        self.core_inv() && (self.is_mid() ==> self.lpred()(self.rdocs()[self.raw()]))
    }

    closed spec fn shint(&self) -> int {
        self.block_cursor.sdoc_freq()
    }

    proof fn lemma_wf(&self) {
        let ud = self.rdocs();
        let lp = self.lpred();
        crate::docset::lemma_filter_sorted(ud, lp);
        lemma_fpos_nonneg(ud, lp, ud.len() as int);
        ud.lemma_filter_len(lp);
        if self.is_mid() {
            lemma_fpos_index(ud, lp, self.raw());
        }
    }

    fn advance(&mut self) -> (r: bool) {
        self.advance_doc()
    }

    #[verifier::rlimit(100)]
    fn skip_next(&mut self, target: u32) -> (r: SkipResult) {
        let ghost ud = self.rdocs();
        let ghost lp = self.lpred();
        let ghost fr = self.rfreqs();
        let ghost fdocs = self.sdocs();
        let ghost p0 = self.spos();
        let ghost sp = seek_pos(fdocs, p0, target);
        proof {
            self.lemma_wf();
            lemma_seek_pos_props(fdocs, p0, target);
            let ud2 = self.rdocs();
            if self.is_mid() {
                lemma_fpos_step(ud2, lp, self.raw());
            } else if self.is_fresh() {
                assert(ud2.take(0) =~= Seq::<u32>::empty());
                assert(fpos(ud2, lp, 0) == 0) by {
                    reveal(Seq::filter);
                }
            }
        }
        let ghost entry_done = self.is_done();
        if !self.advance_loop(Ghost(p0)) {
            proof {
                if entry_done {
                    assert(p0 == fdocs.len());
                } else {
                    assert(self.sdocs().len() == p0 + 1);
                }
                assert(self.spos() == sp);
            }
            return SkipResult::End;
        }
        let ghost r1 = self.raw();
        proof {
            assert(self.spos() == p0 + 1);
            assert(fpos(ud, lp, r1) == p0 + 1);
            assert(lp(ud[r1]));
        }
        // skip whole blocks while the target lies past the current block
        let mut in_block: bool = false;
        while !in_block
            invariant
                self.core_inv(),
                self.is_mid(),
                ud == self.rdocs(),
                fr == self.rfreqs(),
                lp == self.lpred(),
                fdocs == self.sdocs(),
                fdocs == old(self).sdocs(),
                p0 == old(self).spos(),
                self.sdeltas_all() == old(self).sdeltas_all(),
                self.shas_positions() == old(self).shas_positions(),
                self.sdoc_freq() == old(self).sdoc_freq(),
                0 <= r1 <= self.raw() < ud.len(),
                fpos(ud, lp, r1) == p0 + 1,
                forall|k: int| r1 <= k < self.raw() ==> #[trigger] ud[k] < target,
                self.shas_positions() ==> self.position_computer->Some_0.spending() is Some,
                sp == seek_pos(fdocs, p0, target),
                -1 <= p0,
                self.raw() == r1 ==> self.lpred()(ud[r1]),
                in_block ==> target <= ud[self.block_cursor.sshown() - 1],
            decreases ud.len() - self.raw() + (if in_block {
                0int
            } else {
                1int
            }),
        {
            let bl = self.block_cursor.block_len();
            let ghost sh = self.block_cursor.sshown();
            let last_doc = self.block_cursor.doc(bl - 1);
            proof {
                assert(ud.subrange(sh - bl, sh)[bl - 1] == ud[sh - 1]);
                assert(last_doc == ud[sh - 1]);
            }
            if target > last_doc {
                // account for the remaining positions of this block
                if self.position_computer.is_some() {
                    let s = self.sum_block_freq_range(self.cur, bl);
                    proof {
                        let c = self.position_computer->Some_0;
                        let p = c.spending()->Some_0;
                        let rw = self.raw();
                        lemma_group_span(fr, rw, sh);
                        lemma_group_bounds(fr, rw);
                        lemma_group_bounds(fr, sh);
                        assert(self.vpos() + p == group_start(fr, rw));
                        assert(p + s <= self.gdeltas@.len());
                    }
                    self.position_add_skip(s as usize);
                }
                let ghost pre = *self;
                proof {
                    assert forall|k: int| r1 <= k < sh implies #[trigger] ud[k] < target by {
                        if k >= pre.raw() {
                            assert(ud.subrange(sh - bl, sh)[k - (sh - bl)] == ud[k]);
                            assert(ud[k] <= ud[sh - 1]);
                        }
                    }
                }
                if !self.block_cursor.advance() {
                    self.cur = self.block_cursor.block_len();
                    self.gdone = Ghost(true);
                    proof {
                        lemma_fpos_nonneg(ud, lp, ud.len() as int);
                        lemma_postings_window(ud, lp, r1, ud.len() as int, p0, target);
                        lemma_seek_pos_unique(fdocs, p0, target, fdocs.len() as int);
                        assert(self.spos() == fdocs.len());
                    }
                    return SkipResult::End;
                }
                self.cur = 0;
                proof {
                    assert(self.raw() == sh);
                    if self.shas_positions() {
                        let c = self.position_computer->Some_0;
                        assert(self.vpos() + c.spending()->Some_0 == group_start(fr, sh));
                    }
                }
            } else {
                in_block = true;
            }
        }
        // the target lies within the current block
        let ghost rw0 = self.raw();
        let cur_doc = self.block_cursor.doc(self.cur);
        proof {
            let sh = self.block_cursor.sshown();
            let bl = self.bl();
            assert(ud.subrange(sh - bl, sh)[self.cur as int] == ud[rw0]);
            assert(cur_doc == ud[rw0]);
        }
        if target < cur_doc {
            // the current entry is already the first at or after the target
            if !self.delete_bitset.is_deleted(cur_doc) {
                proof {
                    lemma_postings_window(ud, lp, r1, rw0, p0, target);
                    lemma_fpos_index(ud, lp, rw0);
                    lemma_seek_pos_unique(fdocs, p0, target, fpos(ud, lp, rw0));
                    assert(self.spos() == sp);
                    assert(fdocs[sp] == ud[rw0]);
                }
                return SkipResult::OverStep;
            }
            proof {
                lemma_fpos_step(ud, lp, rw0);
                lemma_postings_window(ud, lp, r1, rw0, p0, target);
            }
            let ghost p1 = fpos(ud, lp, rw0) - 1;
            if self.advance_loop(Ghost(p1)) {
                proof {
                    self.lemma_wf();
                    lemma_fpos_index(ud, lp, self.raw());
                    assert(fdocs[p1 + 1] == ud[self.raw()]);
                    assert(ud[rw0] < ud[self.raw()]);
                    lemma_seek_pos_unique(fdocs, p0, target, p1 + 1);
                }
                return SkipResult::OverStep;
            } else {
                proof {
                    lemma_seek_pos_unique(fdocs, p0, target, p1 + 1);
                }
                return SkipResult::End;
            }
        }
        // binary-search the block for the first document at or after target
        let ghost sh = self.block_cursor.sshown();
        let ghost bl = self.bl();
        proof {
            assert(ud.subrange(sh - bl, sh)[bl - 1] == ud[sh - 1]);
        }
        let i = self.search_in_block(target);
        if self.position_computer.is_some() {
            let s = self.sum_block_freq_range(self.cur, i);
            proof {
                let c = self.position_computer->Some_0;
                let p = c.spending()->Some_0;
                lemma_group_span(fr, rw0, sh - bl + i);
                lemma_group_bounds(fr, rw0);
                lemma_group_bounds(fr, sh - bl + i);
                assert(self.vpos() + p == group_start(fr, rw0));
                assert(p + s <= self.gdeltas@.len());
            }
            self.position_add_skip(s as usize);
        }
        let ghost pre2 = *self;
        self.cur = i;
        let ghost rwi = self.raw();
        proof {
            assert(rwi == sh - bl + i);
            assert(forall|k: int|
                rw0 <= k < rwi ==> #[trigger] ud[k] < target) by {
                assert forall|k: int| rw0 <= k < rwi implies #[trigger] ud[k] < target by {
                    assert(ud.subrange(sh - bl, sh)[k - (sh - bl)] == ud[k]);
                }
            }
            if self.shas_positions() {
                let c = self.position_computer->Some_0;
                assert(self.vpos() + c.spending()->Some_0 == group_start(fr, rwi));
            }
            assert(forall|k: int| r1 <= k < rwi ==> #[trigger] ud[k] < target);
        }
        let d = self.block_cursor.doc(self.cur);
        proof {
            assert(ud.subrange(sh - bl, sh)[i as int] == ud[rwi]);
            assert(d == ud[rwi]);
            assert(d >= target);
        }
        if !self.delete_bitset.is_deleted(d) {
            proof {
                lemma_postings_window(ud, lp, r1, rwi, p0, target);
                lemma_fpos_index(ud, lp, rwi);
                lemma_seek_pos_unique(fdocs, p0, target, fpos(ud, lp, rwi));
                assert(self.spos() == sp);
                assert(fdocs[sp] == ud[rwi]);
            }
            if d == target {
                SkipResult::Reached
            } else {
                SkipResult::OverStep
            }
        } else {
            proof {
                lemma_fpos_step(ud, lp, rwi);
                lemma_postings_window(ud, lp, r1, rwi, p0, target);
            }
            let ghost p1 = fpos(ud, lp, rwi) - 1;
            if self.advance_loop(Ghost(p1)) {
                proof {
                    self.lemma_wf();
                    lemma_fpos_index(ud, lp, self.raw());
                    assert(fdocs[p1 + 1] == ud[self.raw()]);
                    assert(ud[rwi] < ud[self.raw()]);
                    lemma_seek_pos_unique(fdocs, p0, target, p1 + 1);
                }
                SkipResult::OverStep
            } else {
                proof {
                    lemma_seek_pos_unique(fdocs, p0, target, p1 + 1);
                }
                SkipResult::End
            }
        }
    }

    fn doc(&self) -> (d: u32) {
        proof {
            let ud = self.rdocs();
            let lp = self.lpred();
            let sh = self.block_cursor.sshown();
            let bl = self.bl();
            lemma_fpos_index(ud, lp, self.raw());
            assert(ud.subrange(sh - bl, sh)[self.cur as int] == ud[self.raw()]);
        }
        self.block_cursor.doc(self.cur)
    }

    fn size_hint(&self) -> (h: usize) {
        proof {
            self.rdocs().lemma_filter_len(self.lpred());
        }
        self.block_cursor.doc_freq()
    }
}

} // verus!
// (continued: serialising a posting list)

verus! {

/// Copies `v[from..to]` into a fresh vector.
fn collect_range(v: &Vec<u32>, from: usize, to: usize) -> (r: Vec<u32>)
    requires
        from <= to <= v@.len(),
    ensures
        r@ == v@.subrange(from as int, to as int),
{
    let mut r: Vec<u32> = Vec::new();
    let mut j: usize = from;
    while j < to
        invariant
            from <= j <= to,
            to <= v@.len(),
            r@ =~= v@.subrange(from as int, j as int),
        decreases to - j,
    {
        let x = v[j];
        r.push(x);
        proof {
            assert(r@ =~= v@.subrange(from as int, j + 1));
        }
        j += 1;
    }
    proof {
        assert(r@ =~= v@.subrange(from as int, to as int));
    }
    r
}

/// One encoding step: prepending an encoded full block (documents, and
/// frequencies when carried) to a byte string extends what the suffix
/// decodes to by that block.
#[verifier::rlimit(100)]
proof fn lemma_serialize_block_step(
    sprev: Seq<u8>,
    w1: Seq<u8>,
    w2: Seq<u8>,
    docs: Seq<u32>,
    fexp: Seq<u32>,
    has_freq: bool,
    base0: u32,
    b: int,
    num_blocks: int,
    tail_len: int,
)
    requires
        0 <= b < num_blocks,
        num_blocks * 128 + tail_len == docs.len(),
        0 <= tail_len,
        fexp.len() == docs.len(),
        forall|rest: Seq<u8>|
            #[trigger] block_dec_sorted(w1 + rest, base0) == Some(
                (docs.subrange(b * 128, b * 128 + 128), w1.len() as int),
            ),
        has_freq ==> forall|rest: Seq<u8>|
            #[trigger] block_dec_unsorted(w2 + rest) == Some(
                (fexp.subrange(b * 128, b * 128 + 128), w2.len() as int),
            ),
        !has_freq ==> w2.len() == 0 && fexp.subrange(b * 128, b * 128 + 128) == ones(128),
        forall|t: Seq<u8>|
            #[trigger] postings_dec(t, base0, num_blocks - b, tail_len, has_freq)
                is Some ==> postings_dec(sprev + t, 0, num_blocks, tail_len, has_freq) == Some(
                (
                    docs.take(b * 128) + postings_dec(
                        t,
                        base0,
                        num_blocks - b,
                        tail_len,
                        has_freq,
                    )->Some_0.0,
                    fexp.take(b * 128) + postings_dec(
                        t,
                        base0,
                        num_blocks - b,
                        tail_len,
                        has_freq,
                    )->Some_0.1,
                ),
            ),
    ensures
        forall|t: Seq<u8>|
            #[trigger] postings_dec(
                t,
                docs[(b + 1) * 128 - 1],
                num_blocks - b - 1,
                tail_len,
                has_freq,
            ) is Some ==> postings_dec(
                (sprev + w1 + w2) + t,
                0,
                num_blocks,
                tail_len,
                has_freq,
            ) == Some(
                (
                    docs.take((b + 1) * 128) + postings_dec(
                        t,
                        docs[(b + 1) * 128 - 1],
                        num_blocks - b - 1,
                        tail_len,
                        has_freq,
                    )->Some_0.0,
                    fexp.take((b + 1) * 128) + postings_dec(
                        t,
                        docs[(b + 1) * 128 - 1],
                        num_blocks - b - 1,
                        tail_len,
                        has_freq,
                    )->Some_0.1,
                ),
            ),
{
    let base1 = docs[(b + 1) * 128 - 1];
    let bdocs = docs.subrange(b * 128, b * 128 + 128);
    let bfreqs = fexp.subrange(b * 128, b * 128 + 128);
    let k1 = w1.len() as int;
    let k2 = w2.len() as int;
    assert((b + 1) * 128 <= docs.len()) by (nonlinear_arith)
        requires
            b < num_blocks,
            num_blocks * 128 + tail_len == docs.len(),
            0 <= tail_len,
    ;
    assert forall|t: Seq<u8>|
        #[trigger] postings_dec(t, base1, num_blocks - b - 1, tail_len, has_freq)
            is Some implies postings_dec(
        (sprev + w1 + w2) + t,
        0,
        num_blocks,
        tail_len,
        has_freq,
    ) == Some(
        (
            docs.take((b + 1) * 128) + postings_dec(
                t,
                base1,
                num_blocks - b - 1,
                tail_len,
                has_freq,
            )->Some_0.0,
            fexp.take((b + 1) * 128) + postings_dec(
                t,
                base1,
                num_blocks - b - 1,
                tail_len,
                has_freq,
            )->Some_0.1,
        ),
    ) by {
        let d2 = postings_dec(t, base1, num_blocks - b - 1, tail_len, has_freq)->Some_0.0;
        let f2 = postings_dec(t, base1, num_blocks - b - 1, tail_len, has_freq)->Some_0.1;
        let tfull = w1 + w2 + t;
        assert(w1 + (w2 + t) =~= tfull);
        assert(block_dec_sorted(tfull, base0) == Some((bdocs, k1)));
        assert(tfull.skip(k1) =~= w2 + t);
        assert(bdocs.last() == base1);
        if has_freq {
            assert(block_dec_unsorted(w2 + t) == Some((bfreqs, k2)));
            assert((w2 + t).skip(k2) =~= t);
        } else {
            assert(tfull.skip(k1) =~= t);
        }
        assert(postings_dec(tfull, base0, num_blocks - b, tail_len, has_freq) == Some(
            (bdocs + d2, bfreqs + f2),
        ));
        assert(postings_dec(sprev + tfull, 0, num_blocks, tail_len, has_freq) == Some(
            (docs.take(b * 128) + (bdocs + d2), fexp.take(b * 128) + (bfreqs + f2)),
        ));
        assert(sprev + tfull =~= (sprev + w1 + w2) + t);
        assert(docs.take(b * 128) + (bdocs + d2) =~= docs.take((b + 1) * 128) + d2);
        assert(fexp.take(b * 128) + (bfreqs + f2) =~= fexp.take((b + 1) * 128) + f2);
    }
}

/// The closing step: appending the encoded variable-int tail after the full
/// blocks makes the whole suffix decode to the whole list, whatever follows.
#[verifier::rlimit(100)]
proof fn lemma_serialize_tail_step(
    sprev: Seq<u8>,
    w1: Seq<u8>,
    w2: Seq<u8>,
    docs: Seq<u32>,
    fexp: Seq<u32>,
    has_freq: bool,
    base3: u32,
    num_blocks: int,
    tail_len: int,
)
    requires
        0 <= num_blocks,
        0 <= tail_len,
        num_blocks * 128 + tail_len == docs.len(),
        fexp.len() == docs.len(),
        forall|rest: Seq<u8>|
            #[trigger] tail_dec_sorted(w1 + rest, base3, tail_len) == Some(
                (docs.skip(num_blocks * 128), w1.len() as int),
            ),
        has_freq ==> forall|rest: Seq<u8>|
            #[trigger] tail_dec_unsorted(w2 + rest, tail_len) == Some(
                (fexp.skip(num_blocks * 128), w2.len() as int),
            ),
        !has_freq ==> w2.len() == 0 && fexp.skip(num_blocks * 128) == ones(tail_len),
        forall|t: Seq<u8>|
            #[trigger] postings_dec(t, base3, 0, tail_len, has_freq) is Some ==> postings_dec(
                sprev + t,
                0,
                num_blocks,
                tail_len,
                has_freq,
            ) == Some(
                (
                    docs.take(num_blocks * 128) + postings_dec(
                        t,
                        base3,
                        0,
                        tail_len,
                        has_freq,
                    )->Some_0.0,
                    fexp.take(num_blocks * 128) + postings_dec(
                        t,
                        base3,
                        0,
                        tail_len,
                        has_freq,
                    )->Some_0.1,
                ),
            ),
    ensures
        forall|rest: Seq<u8>|
            #[trigger] postings_dec(
                (sprev + w1 + w2) + rest,
                0,
                num_blocks,
                tail_len,
                has_freq,
            ) == Some((docs, fexp)),
{
    let tdocs = docs.skip(num_blocks * 128);
    let tfreqs = fexp.skip(num_blocks * 128);
    let k1 = w1.len() as int;
    let k2 = w2.len() as int;
    assert forall|rest: Seq<u8>|
        #[trigger] postings_dec(
            (sprev + w1 + w2) + rest,
            0,
            num_blocks,
            tail_len,
            has_freq,
        ) == Some((docs, fexp)) by {
        let t = w1 + w2 + rest;
        assert(w1 + (w2 + rest) =~= t);
        if tail_len > 0 {
            assert(tail_dec_sorted(t, base3, tail_len) == Some((tdocs, k1)));
            assert(t.skip(k1) =~= w2 + rest);
            if has_freq {
                assert(tail_dec_unsorted(w2 + rest, tail_len) == Some((tfreqs, k2)));
            }
            assert(postings_dec(t, base3, 0, tail_len, has_freq) == Some((tdocs, tfreqs)));
        } else {
            assert(tdocs =~= Seq::<u32>::empty());
            assert(tfreqs =~= Seq::<u32>::empty());
            assert(postings_dec(t, base3, 0, 0, has_freq) == Some(
                (Seq::<u32>::empty(), Seq::<u32>::empty()),
            ));
        }
        assert(postings_dec(sprev + t, 0, num_blocks, tail_len, has_freq) == Some(
            (docs.take(num_blocks * 128) + tdocs, fexp.take(num_blocks * 128) + tfreqs),
        ));
        assert(sprev + t =~= (sprev + w1 + w2) + rest);
        assert(docs.take(num_blocks * 128) + tdocs =~= docs);
        assert(fexp.take(num_blocks * 128) + tfreqs =~= fexp);
    }
}

/// Writes a whole posting list in the on-disk layout the cursors read: full
/// blocks of 128 documents, then the variable-int tail, frequencies
/// interleaved per block when `has_freq` is set. The written bytes decode
/// back to exactly the documents and frequencies given, whatever follows
/// them, so a list written here can be opened by the reading side.
#[verifier::rlimit(100)]
pub fn serialize_postings(docs: &Vec<u32>, freqs: &Vec<u32>, has_freq: bool, out: &mut Vec<u8>)
    requires
        strictly_increasing(docs@),
        freqs@.len() == docs@.len(),
    ensures
        final(out)@.len() >= old(out)@.len(),
        final(out)@.take(old(out)@.len() as int) == old(out)@,
        forall|rest: Seq<u8>|
            #[trigger] postings_dec(
                final(out)@.skip(old(out)@.len() as int) + rest,
                0,
                docs@.len() as int / 128,
                docs@.len() as int % 128,
                has_freq,
            ) == Some(
                (
                    docs@,
                    if has_freq {
                        freqs@
                    } else {
                        ones(docs@.len() as int)
                    },
                ),
            ),
{
    let ghost n0 = out@.len() as int;
    let ghost fexp = if has_freq {
        freqs@
    } else {
        ones(docs@.len() as int)
    };
    let n = docs.len();
    let num_blocks = n / 128;
    let tail_len = n % 128;
    proof {
        assert(n as int == num_blocks * 128 + tail_len) by (nonlinear_arith)
            requires
                num_blocks == n as int / 128,
                tail_len == n as int % 128,
        ;
        assert(out@.skip(n0) =~= Seq::<u8>::empty());
        assert forall|t: Seq<u8>|
            #[trigger] postings_dec(t, 0u32, num_blocks as int, tail_len as int, has_freq)
                is Some implies postings_dec(
            out@.skip(n0) + t,
            0,
            num_blocks as int,
            tail_len as int,
            has_freq,
        ) == Some(
            (
                docs@.take(0) + postings_dec(
                    t,
                    0u32,
                    num_blocks as int,
                    tail_len as int,
                    has_freq,
                )->Some_0.0,
                fexp.take(0) + postings_dec(
                    t,
                    0u32,
                    num_blocks as int,
                    tail_len as int,
                    has_freq,
                )->Some_0.1,
            ),
        ) by {
            let d2 = postings_dec(t, 0u32, num_blocks as int, tail_len as int, has_freq)->Some_0.0;
            let f2 = postings_dec(t, 0u32, num_blocks as int, tail_len as int, has_freq)->Some_0.1;
            assert(out@.skip(n0) + t =~= t);
            assert(docs@.take(0) + d2 =~= d2);
            assert(fexp.take(0) + f2 =~= f2);
        }
    }
    let mut base: u32 = 0;
    let mut b: usize = 0;
    while b < num_blocks
        invariant
            b <= num_blocks,
            num_blocks * 128 + tail_len == docs@.len(),
            tail_len >= 0,
            n == docs@.len(),
            strictly_increasing(docs@),
            freqs@.len() == docs@.len(),
            fexp == if has_freq {
                freqs@
            } else {
                ones(docs@.len() as int)
            },
            b > 0 ==> b * 128 - 1 < docs@.len() && base == docs@[b * 128 - 1],
            b == 0 ==> base == 0,
            n0 == old(out)@.len(),
            out@.len() >= n0,
            out@.take(n0) == old(out)@,
            forall|t: Seq<u8>|
                #[trigger] postings_dec(t, base, num_blocks - b, tail_len as int, has_freq)
                    is Some ==> postings_dec(
                    out@.skip(n0) + t,
                    0,
                    num_blocks as int,
                    tail_len as int,
                    has_freq,
                ) == Some(
                    (
                        docs@.take(b * 128) + postings_dec(
                            t,
                            base,
                            num_blocks - b,
                            tail_len as int,
                            has_freq,
                        )->Some_0.0,
                        fexp.take(b * 128) + postings_dec(
                            t,
                            base,
                            num_blocks - b,
                            tail_len as int,
                            has_freq,
                        )->Some_0.1,
                    ),
                ),
        decreases num_blocks - b,
    {
        proof {
            assert(b * 128 + 128 <= num_blocks * 128) by (nonlinear_arith)
                requires b < num_blocks;
            assert(num_blocks * 128 <= docs@.len());
        }
        let block_docs = collect_range(docs, b * 128, b * 128 + 128);
        proof {
            assert(base <= block_docs@[0]) by {
                assert(block_docs@[0] == docs@[b * 128]);
                if b > 0 {
                    assert(docs@[b * 128 - 1] < docs@[b * 128]);
                }
            }
            assert(forall|i: int|
                0 < i < 128 ==> block_docs@[i - 1] < #[trigger] block_docs@[i]);
        }
        let ghost out0 = out@;
        crate::compression::compress_block_sorted(&block_docs, base, out);
        let ghost out1 = out@;
        let ghost k1 = out1.len() - out0.len();
        let ghost bfreqs = if has_freq {
            freqs@.subrange(b * 128, b * 128 + 128)
        } else {
            ones(128)
        };
        if has_freq {
            let block_freqs = collect_range(freqs, b * 128, b * 128 + 128);
            crate::compression::compress_block_unsorted(&block_freqs, out);
        }
        let ghost out2 = out@;
        let ghost base0 = base;
        base = docs[b * 128 + 127];
        proof {
            let w1 = out1.skip(out0.len() as int);
            let w2 = out2.skip(out1.len() as int);
            assert(out2.skip(n0) =~= out0.skip(n0) + w1 + w2) by {
                assert(out1.take(out0.len() as int) == out0);
                assert(out2.take(out1.len() as int) == out1);
            }
            assert(out2.take(n0) =~= old(out)@) by {
                assert(out1.take(out0.len() as int) == out0);
                assert(out2.take(out1.len() as int) == out1);
            }
            assert(block_docs@ == docs@.subrange(b * 128, b * 128 + 128));
            if has_freq {
                assert(bfreqs == fexp.subrange(b * 128, b * 128 + 128));
            } else {
                assert(w2 =~= Seq::<u8>::empty());
                assert(fexp.subrange(b * 128, b * 128 + 128) =~= ones(128));
            }
            lemma_serialize_block_step(
                out0.skip(n0),
                w1,
                w2,
                docs@,
                fexp,
                has_freq,
                base0,
                b as int,
                num_blocks as int,
                tail_len as int,
            );
            assert(docs@[(b + 1) * 128 - 1] == docs@[b * 128 + 127]);
        }
        b += 1;
    }
    proof {
        assert(num_blocks * 128 <= docs@.len());
    }
    let tail_docs = collect_range(docs, num_blocks * 128, n);
    proof {
        if tail_docs@.len() > 0 {
            assert(base <= tail_docs@[0]) by {
                assert(tail_docs@[0] == docs@[num_blocks * 128]);
                if num_blocks > 0 {
                    assert(docs@[num_blocks * 128 - 1] < docs@[num_blocks * 128]);
                }
            }
        }
        assert(forall|i: int|
            0 < i < tail_docs@.len() ==> tail_docs@[i - 1] < #[trigger] tail_docs@[i]);
    }
    let ghost out3 = out@;
    let ghost base3 = base;
    crate::compression::compress_vint_sorted(&tail_docs, base, out);
    let ghost out4 = out@;
    let ghost k1 = out4.len() - out3.len();
    let ghost tfreqs = if has_freq {
        freqs@.subrange(num_blocks * 128, n as int)
    } else {
        ones(tail_len as int)
    };
    if has_freq {
        let tail_freqs = collect_range(freqs, num_blocks * 128, n);
        crate::compression::compress_vint_unsorted(&tail_freqs, out);
    }
    proof {
        let out5 = out@;
        let w1 = out4.skip(out3.len() as int);
        let w2 = out5.skip(out4.len() as int);
        assert(out5.skip(n0) =~= out3.skip(n0) + w1 + w2) by {
            assert(out4.take(out3.len() as int) == out3);
            assert(out5.take(out4.len() as int) == out4);
        }
        assert(out5.take(n0) =~= old(out)@) by {
            assert(out4.take(out3.len() as int) == out3);
            assert(out5.take(out4.len() as int) == out4);
        }
        assert(tail_docs@ == docs@.skip(num_blocks * 128));
        if has_freq {
            assert(tfreqs == fexp.skip(num_blocks * 128));
        } else {
            assert(w2 =~= Seq::<u8>::empty());
            assert(fexp.skip(num_blocks * 128) =~= ones(tail_len as int));
        }
        assert forall|t: Seq<u8>|
            #[trigger] postings_dec(t, base3, 0, tail_len as int, has_freq)
                is Some implies postings_dec(
            out3.skip(n0) + t,
            0,
            num_blocks as int,
            tail_len as int,
            has_freq,
        ) == Some(
            (
                docs@.take(num_blocks * 128) + postings_dec(
                    t,
                    base3,
                    0,
                    tail_len as int,
                    has_freq,
                )->Some_0.0,
                fexp.take(num_blocks * 128) + postings_dec(
                    t,
                    base3,
                    0,
                    tail_len as int,
                    has_freq,
                )->Some_0.1,
            ),
        ) by {
            assert(num_blocks - b == 0);
            assert(postings_dec(t, base, num_blocks - b, tail_len as int, has_freq) is Some);
        }
        lemma_serialize_tail_step(
            out3.skip(n0),
            w1,
            w2,
            docs@,
            fexp,
            has_freq,
            base3,
            num_blocks as int,
            tail_len as int,
        );
        assert(out5.skip(n0) + Seq::<u8>::empty() =~= out5.skip(n0));
        assert forall|rest: Seq<u8>|
            #[trigger] postings_dec(
                out5.skip(n0) + rest,
                0,
                num_blocks as int,
                tail_len as int,
                has_freq,
            ) == Some((docs@, fexp)) by {
            assert((out3.skip(n0) + w1 + w2) + rest =~= out5.skip(n0) + rest);
        }
    }
}

} // verus!
