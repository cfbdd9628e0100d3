//! Bit sets over document ids: the mutable set that a range query fills, the
//! per-segment delete bitmap, and a docset iterating a bit set in order.

use vstd::prelude::*;
use crate::docset::{
    DocSet, SkipResult, seek_pos, strictly_increasing, fpos, lemma_seek_pos_props,
    lemma_seek_pos_unique, lemma_fpos_step, lemma_fpos_index, lemma_fpos_nonneg, lemma_fpos_mono,
    lemma_fpos_between, lemma_fpos_const, lemma_filter_sorted,
};

verus! {

/// Whether bit `d` is set in `words`. Bits beyond the words are clear.
pub open spec fn has_bit(words: Seq<u64>, d: u32) -> bool {
    d / 64 < words.len() && (words[d as int / 64] >> (d as u64 % 64)) & 1 == 1
}

/// The membership predicate of a word array, as a function on documents.
pub open spec fn bit_of(words: Seq<u64>) -> spec_fn(u32) -> bool {
    |d: u32| has_bit(words, d)
}

/// The documents `0, 1, ..., max_doc - 1` of a segment, in order.
pub open spec fn all_docs(max_doc: u32) -> Seq<u32> {
    Seq::new(max_doc as nat, |i: int| i as u32)
}

/// A growable-free bit set over documents below a fixed maximum value.
pub struct BitSet {
    words: Vec<u64>,
    max_value: u32,
}

impl BitSet {
    pub closed spec fn swords(&self) -> Seq<u64> {
        self.words@
    }

    /// Membership of `d`.
    pub open spec fn shas(&self, d: u32) -> bool {
        has_bit(self.swords(), d)
    }

    pub closed spec fn smax(&self) -> u32 {
        self.max_value
    }

    pub closed spec fn wf(&self) -> bool {
        self.words@.len() == (self.max_value + 63) / 64
    }

    /// The empty set over documents below `max_value`.
    pub fn with_max_value(max_value: u32) -> (r: BitSet)
        ensures
            r.wf(),
            r.smax() == max_value,
            forall|d: u32| !r.shas(d),
    {
        let n_words = (((max_value as u64) + 63) / 64) as usize;
        let mut words: Vec<u64> = Vec::new();
        let mut i: usize = 0;
        while i < n_words
            invariant
                i <= n_words,
                words@.len() == i,
                forall|k: int| 0 <= k < i ==> words@[k] == 0,
            decreases n_words - i,
        {
            words.push(0u64);
            i += 1;
        }
        proof {
            assert forall|d: u32| !has_bit(words@, d) by {
                if d / 64 < words@.len() {
                    let w = words@[d as int / 64];
                    assert(w == 0);
                    let b = d as u64 % 64;
                    assert((0u64 >> b) & 1 == 0) by (bit_vector);
                }
            }
        }
        BitSet { words, max_value }
    }

    /// The highest document value the set can hold, plus one.
    pub fn max_value(&self) -> (r: u32)
        ensures
            r == self.smax(),
    {
        self.max_value
    }

    /// Inserts `doc` into the set.
    pub fn insert(&mut self, doc: u32)
        requires
            old(self).wf(),
            doc < old(self).smax(),
        ensures
            final(self).wf(),
            final(self).smax() == old(self).smax(),
            forall|d: u32| final(self).shas(d) == (old(self).shas(d) || d == doc),
    {
        proof {
            assert(doc / 64 < (self.max_value + 63) / 64);
        }
        let wi = (doc / 64) as usize;
        let b: u64 = (doc % 64) as u64;
        let w = self.words[wi];
        self.words.set(wi, w | (1u64 << b));
        proof {
            let nws = self.words@;
            let ows = old(self).words@;
            assert forall|d: u32| has_bit(nws, d) == (has_bit(ows, d) || d == doc) by {
                if d / 64 < nws.len() {
                    let b2 = d as u64 % 64;
                    if d / 64 == doc / 64 {
                        if d == doc {
                            assert(b2 == b);
                            assert(((w | (1u64 << b)) >> b) & 1 == 1) by (bit_vector)
                                requires b < 64;
                        } else {
                            assert(b2 != b) by {
                                assert(d == 64 * (d / 64) + (d % 64)) by (nonlinear_arith);
                                assert(doc == 64 * (doc / 64) + (doc % 64)) by (nonlinear_arith);
                            }
                            assert(((w | (1u64 << b)) >> b2) & 1 == (w >> b2) & 1) by (bit_vector)
                                requires b < 64, b2 < 64, b != b2;
                        }
                    } else {
                        assert(nws[d as int / 64] == ows[d as int / 64]);
                        assert(d != doc);
                    }
                } else {
                    assert(d != doc);
                }
            }
        }
    }

    /// Whether `doc` is in the set.
    pub fn contains(&self, doc: u32) -> (r: bool)
        ensures
            r == self.shas(doc),
    {
        let wi = doc / 64;
        if (wi as usize) < self.words.len() {
            let b: u64 = (doc % 64) as u64;
            (self.words[wi as usize] >> b) & 1 == 1
        } else {
            false
        }
    }

    /// First member at or after `lo`, if any.
    fn scan_from(&self, lo: u32) -> (r: Option<u32>)
        requires
            self.wf(),
        ensures
            match r {
                Some(d) => lo <= d < self.smax() && self.shas(d) && forall|k: u32|
                    lo <= k < d ==> !self.shas(k),
                None => forall|k: u32| lo <= k < self.smax() ==> !self.shas(k),
            },
    {
        let mut i: u32 = lo;
        let max = self.max_value;
        while i < max
            invariant
                lo <= i,
                max == self.smax(),
                self.wf(),
                forall|k: u32| lo <= k < i ==> !self.shas(k),
            decreases max - i,
        {
            if self.contains(i) {
                return Some(i);
            }
            i = i + 1;
        }
        None
    }
}

enum Cursor {
    Fresh,
    At(u32),
    Done,
}

/// A docset iterating, in ascending order, the documents of a bit set; the
/// materialised result of a range query.
pub struct BitSetDocSet {
    docs: BitSet,
    cursor: Cursor,
}

impl BitSetDocSet {
    /// Wraps a bit set as a docset positioned before its first document.
    pub fn from(docs: BitSet) -> (r: BitSetDocSet)
        requires
            docs.wf(),
        ensures
            r.wf(),
            r.spos() == -1,
            r.sdocs() == all_docs(docs.smax()).filter(bit_of(docs.swords())),
            r.shint() == docs.smax(),
    {
        BitSetDocSet { docs, cursor: Cursor::Fresh }
    }

    spec fn base(&self) -> Seq<u32> {
        all_docs(self.docs.smax())
    }

    spec fn pred(&self) -> spec_fn(u32) -> bool {
        bit_of(self.docs.swords())
    }

    proof fn lemma_base_sorted(&self)
        ensures
            strictly_increasing(self.base()),
            self.base().len() == self.docs.smax(),
            forall|k: int| 0 <= k < self.base().len() ==> #[trigger] self.base()[k] == k as u32,
    {
    }

    /// Common step: from a scan started at `lo`, conclude where the cursor
    /// landed in the filtered sequence.
    proof fn lemma_scan_landing(&self, lo: int, nd: int, from: int)
        requires
            self.docs.wf(),
            0 <= lo <= nd <= self.base().len(),
            forall|k: u32| lo <= k < nd ==> !#[trigger] self.docs.shas(k),
            from + 1 == lo,
            -1 <= from,
            from >= 0 ==> from < self.base().len() && self.pred()(self.base()[from]),
        ensures
            fpos(self.base(), self.pred(), nd) == (if from >= 0 {
                fpos(self.base(), self.pred(), from)
            } else {
                -1
            }) + 1,
    {
        let base = self.base();
        let pred = self.pred();
        self.lemma_base_sorted();
        assert forall|k: int| lo <= k < nd implies !pred(#[trigger] base[k]) by {
            assert(base[k] == k as u32);
            assert(!self.docs.shas(k as u32));
        }
        lemma_fpos_const(base, pred, lo, nd);
        if from >= 0 {
            lemma_fpos_step(base, pred, from);
        } else {
            assert(base.take(0) =~= Seq::<u32>::empty());
            reveal(Seq::filter);
        }
    }
}

impl DocSet for BitSetDocSet {
    closed spec fn sdocs(&self) -> Seq<u32> {
        self.base().filter(self.pred())
    }

    closed spec fn spos(&self) -> int {
        match self.cursor {
            Cursor::Fresh => -1,
            Cursor::At(d) => fpos(self.base(), self.pred(), d as int),
            Cursor::Done => self.sdocs().len() as int,
        }
    }

    closed spec fn wf(&self) -> bool {
        self.docs.wf() && match self.cursor {
            Cursor::Fresh => true,
            Cursor::At(d) => d < self.docs.smax() && self.docs.shas(d),
            Cursor::Done => true,
        }
    }

    closed spec fn shint(&self) -> int {
        self.docs.smax() as int
    }

    proof fn lemma_wf(&self) {
        self.lemma_base_sorted();
        lemma_filter_sorted(self.base(), self.pred());
        lemma_fpos_nonneg(self.base(), self.pred(), self.base().len() as int);
        self.base().lemma_filter_len(self.pred());
        if let Cursor::At(d) = self.cursor {
            assert(self.base()[d as int] == d);
            lemma_fpos_index(self.base(), self.pred(), d as int);
        }
    }

    fn advance(&mut self) -> (r: bool) {
        proof {
            self.lemma_wf();
        }
        let lo: u32 = match self.cursor {
            Cursor::Fresh => 0,
            Cursor::At(d) => d + 1,
            Cursor::Done => {
                return false;
            },
        };
        let ghost from: int = match self.cursor {
            Cursor::Fresh => -1,
            Cursor::At(d) => d as int,
            Cursor::Done => 0,
        };
        match self.docs.scan_from(lo) {
            Some(nd) => {
                proof {
                    self.lemma_base_sorted();
                    assert(self.base()[nd as int] == nd);
                    self.lemma_scan_landing(lo as int, nd as int, from);
                    lemma_fpos_index(self.base(), self.pred(), nd as int);
                }
                self.cursor = Cursor::At(nd);
                true
            },
            None => {
                proof {
                    self.lemma_scan_landing(lo as int, self.base().len() as int, from);
                    lemma_fpos_nonneg(self.base(), self.pred(), self.base().len() as int);
                }
                self.cursor = Cursor::Done;
                false
            },
        }
    }

    fn skip_next(&mut self, target: u32) -> (r: SkipResult) {
        proof {
            self.lemma_wf();
            lemma_seek_pos_props(self.sdocs(), self.spos(), target);
        }
        let ghost fdocs = self.sdocs();
        let ghost p0 = self.spos();
        let ghost sp = seek_pos(fdocs, p0, target);
        let lo: u32 = match self.cursor {
            Cursor::Fresh => target,
            Cursor::At(d) => {
                if d < target {
                    target
                } else {
                    d + 1
                }
            },
            Cursor::Done => {
                return SkipResult::End;
            },
        };
        let ghost from: int = match self.cursor {
            Cursor::Fresh => -1,
            Cursor::At(d) => d as int,
            Cursor::Done => 0,
        };
        let scanned = self.docs.scan_from(lo);
        proof {
            let base = self.base();
            let pred = self.pred();
            self.lemma_base_sorted();
            let hi = match scanned {
                Some(nd) => nd as int,
                None => base.len() as int,
            };
            // every member the seek crosses is below the target
            assert forall|k: int| from < k < hi && pred(#[trigger] base[k]) implies base[k]
                < target by {
                assert(base[k] == k as u32);
                if k >= lo {
                    match scanned {
                        Some(nd) => {
                            assert(!self.docs.shas(k as u32));
                        },
                        None => {
                            assert(!self.docs.shas(k as u32));
                        },
                    }
                } else {
                    assert(k < target || k < from + 1);
                }
            }
            lemma_fpos_mono(base, pred, from + 1, hi);
            if from >= 0 {
                lemma_fpos_step(base, pred, from);
                lemma_fpos_index(base, pred, from);
            } else {
                assert(base.take(0) =~= Seq::<u32>::empty());
                reveal(Seq::filter);
            }
            assert forall|j: int| p0 < j < fpos(base, pred, hi) implies #[trigger] fdocs[j]
                < target by {
                lemma_fpos_between(base, pred, from + 1, hi, j);
                let k = choose|k: int|
                    from + 1 <= k < hi && pred(#[trigger] base[k]) && fpos(base, pred, k) == j
                        && base.filter(pred)[j] == base[k];
                assert(base[k] < target);
            }
        }
        match scanned {
            Some(nd) => {
                proof {
                    let base = self.base();
                    let pred = self.pred();
                    assert(base[nd as int] == nd);
                    lemma_fpos_index(base, pred, nd as int);
                    lemma_seek_pos_unique(fdocs, p0, target, fpos(base, pred, nd as int));
                }
                self.cursor = Cursor::At(nd);
                if nd == target {
                    SkipResult::Reached
                } else {
                    SkipResult::OverStep
                }
            },
            None => {
                proof {
                    let base = self.base();
                    let pred = self.pred();
                    lemma_fpos_nonneg(base, pred, base.len() as int);
                    lemma_seek_pos_unique(fdocs, p0, target, fdocs.len() as int);
                }
                self.cursor = Cursor::Done;
                SkipResult::End
            },
        }
    }

    fn doc(&self) -> (d: u32) {
        proof {
            self.lemma_base_sorted();
        }
        match self.cursor {
            Cursor::At(d) => {
                proof {
                    assert(self.base()[d as int] == d);
                    lemma_fpos_index(self.base(), self.pred(), d as int);
                }
                d
            },
            Cursor::Fresh => 0,
            Cursor::Done => 0,
        }
    }

    fn size_hint(&self) -> (h: usize) {
        proof {
            self.base().lemma_filter_len(self.pred());
        }
        self.docs.max_value() as usize
    }
}

/// The per-segment bitmap of tombstoned documents. An empty value marks no
/// document deleted.
pub struct DeleteBitSet {
    words: Vec<u64>,
}

impl DeleteBitSet {
    /// Whether `doc` is tombstoned.
    pub open spec fn sdeleted(&self, doc: u32) -> bool {
        has_bit(self.swords(), doc)
    }

    pub closed spec fn swords(&self) -> Seq<u64> {
        self.words@
    }

    /// A delete bitmap with no deletions.
    pub fn empty() -> (r: DeleteBitSet)
        ensures
            forall|d: u32| !r.sdeleted(d),
    {
        let words: Vec<u64> = Vec::new();
        DeleteBitSet { words }
    }

    /// Builds the bitmap tombstoning exactly the documents of `deleted`,
    /// which must lie below `max_doc`.
    pub fn for_deleted_docs(deleted: &Vec<u32>, max_doc: u32) -> (r: DeleteBitSet)
        requires
            forall|i: int| 0 <= i < deleted@.len() ==> #[trigger] deleted@[i] < max_doc,
        ensures
            forall|d: u32| r.sdeleted(d) == deleted@.contains(d),
    {
        let mut bits = BitSet::with_max_value(max_doc);
        let mut i: usize = 0;
        while i < deleted.len()
            invariant
                i <= deleted@.len(),
                bits.wf(),
                bits.smax() == max_doc,
                forall|j: int| 0 <= j < deleted@.len() ==> #[trigger] deleted@[j] < max_doc,
                forall|d: u32| bits.shas(d) == deleted@.take(i as int).contains(d),
            decreases deleted@.len() - i,
        {
            let ghost prev = bits;
            bits.insert(deleted[i]);
            proof {
                assert forall|d: u32| bits.shas(d) == deleted@.take(i + 1).contains(d) by {
                    assert(deleted@.take(i + 1) =~= deleted@.take(i as int).push(
                        deleted@[i as int],
                    ));
                    if bits.shas(d) {
                        if d == deleted@[i as int] {
                            assert(deleted@.take(i + 1)[i as int] == d);
                        } else {
                            let k = choose|k: int|
                                0 <= k < i && #[trigger] deleted@.take(i as int)[k] == d;
                            assert(deleted@.take(i + 1)[k] == d);
                        }
                    } else {
                        if deleted@.take(i + 1).contains(d) {
                            let k = choose|k: int|
                                0 <= k < i + 1 && #[trigger] deleted@.take(i + 1)[k] == d;
                            if k < i {
                                assert(deleted@.take(i as int)[k] == d);
                            }
                        }
                    }
                }
            }
            i += 1;
        }
        let ghost gb = bits;
        proof {
            assert(deleted@.take(deleted@.len() as int) =~= deleted@);
        }
        let words = bits.into_words();
        let r = DeleteBitSet { words };
        proof {
            assert forall|d: u32| r.sdeleted(d) == deleted@.contains(d) by {
                assert(gb.shas(d) == deleted@.take(deleted@.len() as int).contains(d));
            }
        }
        r
    }

    /// A copy of the word array.
    pub fn clone_words(&self) -> (r: Vec<u64>)
        ensures
            r@ == self.swords(),
    {
        self.words.clone()
    }

    /// Wraps a word array as a delete bitmap.
    pub fn from_words(words: Vec<u64>) -> (r: DeleteBitSet)
        ensures
            r.swords() == words@,
    {
        DeleteBitSet { words }
    }

    /// Whether `doc` is tombstoned.
    pub fn is_deleted(&self, doc: u32) -> (r: bool)
        ensures
            r == self.sdeleted(doc),
    {
        let wi = doc / 64;
        if (wi as usize) < self.words.len() {
            let b: u64 = (doc % 64) as u64;
            (self.words[wi as usize] >> b) & 1 == 1
        } else {
            false
        }
    }
}

impl BitSet {
    /// Hands the word array over, for wrapping in another bit-holding type.
    pub fn into_words(self) -> (r: Vec<u64>)
        ensures
            r@ == self.swords(),
    {
        self.words
    }
}

} // verus!
