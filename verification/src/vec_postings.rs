//! A docset over an in-memory, sorted vector of document ids.
//!
//! The simplest implementation of the ordered-seek contract; used as the
//! reference docset in tests of the combinators.

use vstd::prelude::*;
use crate::docset::{DocSet, SkipResult, seek_pos, strictly_increasing, lemma_seek_pos_props};

verus! {

/// A posting list held as a plain sorted vector.
pub struct VecPostings {
    doc_ids: Vec<u32>,
    /// One past the cursor: `0` before the first advance, `len + 1` at the end.
    cursor: usize,
}

impl VecPostings {
    /// Wraps a sorted vector of document ids as a docset.
    pub fn from(doc_ids: Vec<u32>) -> (r: VecPostings)
        requires
            strictly_increasing(doc_ids@),
            doc_ids@.len() < usize::MAX,
        ensures
            r.wf(),
            r.sdocs() == doc_ids@,
            r.spos() == -1,
            r.shint() == doc_ids@.len(),
    {
        VecPostings { doc_ids, cursor: 0 }
    }
}

impl DocSet for VecPostings {
    closed spec fn sdocs(&self) -> Seq<u32> {
        self.doc_ids@
    }

    closed spec fn spos(&self) -> int {
        self.cursor - 1
    }

    closed spec fn wf(&self) -> bool {
        strictly_increasing(self.doc_ids@) && self.doc_ids@.len() < usize::MAX && self.cursor
            <= self.doc_ids@.len() + 1
    }

    closed spec fn shint(&self) -> int {
        self.doc_ids@.len() as int
    }

    proof fn lemma_wf(&self) {
    }

    fn advance(&mut self) -> (r: bool) {
        if self.cursor <= self.doc_ids.len() {
            self.cursor = self.cursor + 1;
        }
        self.cursor <= self.doc_ids.len()
    }

    fn skip_next(&mut self, target: u32) -> (r: SkipResult) {
        let ghost docs = self.sdocs();
        let ghost od = self.spos();
        let ghost sp = seek_pos(docs, od, target);
        proof {
            lemma_seek_pos_props(docs, od, target);
        }
        if !self.advance() {
            return SkipResult::End;
        }
        loop
            invariant
                self.wf(),
                docs == old(self).sdocs(),
                od == old(self).spos(),
                -1 <= od,
                self.sdocs() == docs,
                od < self.spos() <= sp,
                self.spos() < docs.len(),
                sp == seek_pos(docs, od, target),
                sp <= docs.len(),
                sp < docs.len() ==> docs[sp] >= target,
                forall|k: int| od < k < sp ==> #[trigger] docs[k] < target,
            decreases sp - self.spos(),
        {
            let d = self.doc();
            if d >= target {
                proof {
                    assert(self.spos() == sp);
                }
                if d == target {
                    return SkipResult::Reached;
                } else {
                    return SkipResult::OverStep;
                }
            }
            proof {
                assert(self.spos() < sp);
            }
            if !self.advance() {
                proof {
                    assert(self.spos() == docs.len());
                    assert(sp == docs.len());
                }
                return SkipResult::End;
            }
        }
    }

    fn doc(&self) -> (d: u32) {
        self.doc_ids[self.cursor - 1]
    }

    fn size_hint(&self) -> (h: usize) {
        self.doc_ids.len()
    }
}

} // verus!
