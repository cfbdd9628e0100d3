//! Exclusion combinator: the documents of an underlying docset minus those of
//! an excluding docset.
//!
//! The excluding docset is advanced lazily, one seek per candidate document,
//! and its current document is cached in a small state so that most
//! candidates are accepted or rejected without touching it.

use vstd::prelude::*;
use crate::docset::{
    DocSet, SkipResult, seek_pos, strictly_increasing, fpos, lemma_seek_pos_props,
    lemma_seek_pos_unique, lemma_fpos_step, lemma_fpos_index, lemma_fpos_nonneg, lemma_fpos_mono,
    lemma_fpos_between, lemma_filter_sorted,
};

verus! {

/// The predicate selecting documents absent from `ed`.
pub open spec fn not_in(ed: Seq<u32>) -> spec_fn(u32) -> bool {
    |d: u32| !ed.contains(d)
}

#[derive(Clone, Copy)]
enum State {
    ExcludeOne(u32),
    Finished,
}

/// A docset (and, at a scoring layer above, a scorer) producing the documents
/// of `underlying_docset` that do not occur in `excluding_docset`.
pub struct ExcludeScorer<TDocSet, TDocSetExclude> {
    underlying_docset: TDocSet,
    excluding_docset: TDocSetExclude,
    excluding_state: State,
}

/// State of the excluding docset relative to a bound `b`: every candidate
/// still to be tested is strictly greater than `b`. Excluded documents at or
/// below `b` have been passed; the cached document, when the state holds one,
/// is at most the excluding docset's current document, and is equal to it
/// unless that current document has itself been passed (is at most `b`).
spec fn excl_inv<TE: DocSet>(exc: &TE, st: State, b: int) -> bool {
    exc.wf() && match st {
        State::Finished => forall|k: int|
            0 <= k < exc.sdocs().len() ==> #[trigger] exc.sdocs()[k] <= b,
        State::ExcludeOne(e) => {
            let ed = exc.sdocs();
            0 <= exc.spos() < ed.len() && e <= ed[exc.spos()] && (e == ed[exc.spos()]
                || ed[exc.spos()] <= b) && forall|k: int|
                0 <= k < exc.spos() ==> #[trigger] ed[k] <= b
        },
    }
}

impl<TDocSet: DocSet, TDocSetExclude: DocSet> ExcludeScorer<TDocSet, TDocSetExclude> {
    /// Bound below every candidate document still to be tested.
    spec fn bound(&self) -> int {
        if self.underlying_docset.spos() < 0 {
            -1
        } else {
            self.underlying_docset.sdocs()[self.underlying_docset.spos()] as int
        }
    }

    /// Builds the combinator over two fresh docsets, pre-advancing the
    /// excluding one to seed the cached state.
    pub fn new(underlying_docset: TDocSet, mut excluding_docset: TDocSetExclude) -> (r: Self)
        requires
            underlying_docset.wf(),
            excluding_docset.wf(),
            underlying_docset.spos() == -1,
            excluding_docset.spos() == -1,
        ensures
            r.wf(),
            r.spos() == -1,
            r.sdocs() == underlying_docset.sdocs().filter(
                not_in(excluding_docset.sdocs()),
            ),
            r.shint() == underlying_docset.shint(),
    {
        proof {
            excluding_docset.lemma_wf();
        }
        let state = if excluding_docset.advance() {
            State::ExcludeOne(excluding_docset.doc())
        } else {
            State::Finished
        };
        ExcludeScorer { underlying_docset, excluding_docset, excluding_state: state }
    }

    /// Tests the underlying docset's current document against the excluding
    /// docset, updating the cached state. `true` iff the document is not
    /// excluded. Candidates must be presented in increasing order.
    fn accept(&mut self, Ghost(b): Ghost<int>) -> (r: bool)
        requires
            old(self).underlying_docset.wf(),
            0 <= old(self).underlying_docset.spos() < old(self).underlying_docset.sdocs().len(),
            excl_inv(&old(self).excluding_docset, old(self).excluding_state, b),
            b < old(self).underlying_docset.sdocs()[old(self).underlying_docset.spos()],
        ensures
            final(self).underlying_docset == old(self).underlying_docset,
            final(self).excluding_docset.sdocs() == old(self).excluding_docset.sdocs(),
            ({
                let d = old(self).underlying_docset.sdocs()[old(self).underlying_docset.spos()];
                r == !old(self).excluding_docset.sdocs().contains(d) && excl_inv(
                    &final(self).excluding_docset,
                    final(self).excluding_state,
                    d as int,
                )
            }),
    {
        let ghost ed = self.excluding_docset.sdocs();
        let doc = self.underlying_docset.doc();
        match self.excluding_state {
            State::Finished => {
                proof {
                    assert(!ed.contains(doc)) by {
                        assert(forall|k: int| 0 <= k < ed.len() ==> #[trigger] ed[k] <= b);
                    }
                }
                true
            },
            State::ExcludeOne(excluded_doc) => {
                proof {
                    self.excluding_docset.lemma_wf();
                }
                let ghost ep = self.excluding_docset.spos();
                if doc == excluded_doc {
                    proof {
                        assert(excluded_doc == ed[ep]);
                        assert(ed.contains(doc)) by {
                            assert(ed[ep] == doc);
                        }
                    }
                    false
                } else if excluded_doc > doc {
                    proof {
                        assert(excluded_doc == ed[ep]);
                        assert(!ed.contains(doc)) by {
                            assert forall|k: int| 0 <= k < ed.len() implies #[trigger] ed[k]
                                != doc by {
                                if k > ep {
                                    assert(ed[ep] < ed[k]);
                                }
                            }
                        }
                    }
                    true
                } else {
                    proof {
                        assert(ed[ep] < doc);
                        lemma_seek_pos_props(ed, ep, doc);
                    }
                    let ghost np = seek_pos(ed, ep, doc);
                    match self.excluding_docset.skip_next(doc) {
                        SkipResult::OverStep => {
                            let nd = self.excluding_docset.doc();
                            self.excluding_state = State::ExcludeOne(nd);
                            proof {
                                assert(!ed.contains(doc)) by {
                                    assert forall|k: int| 0 <= k < ed.len() implies #[trigger]
                                        ed[k] != doc by {
                                        if k > np {
                                            assert(ed[np] < ed[k]);
                                        }
                                    }
                                }
                            }
                            true
                        },
                        SkipResult::End => {
                            self.excluding_state = State::Finished;
                            proof {
                                assert(!ed.contains(doc)) by {
                                    assert forall|k: int| 0 <= k < ed.len() implies #[trigger]
                                        ed[k] != doc by {}
                                }
                                assert(forall|k: int|
                                    0 <= k < ed.len() ==> #[trigger] ed[k] <= doc);
                            }
                            true
                        },
                        SkipResult::Reached => {
                            proof {
                                assert(ed.contains(doc)) by {
                                    assert(ed[np] == doc);
                                }
                            }
                            false
                        },
                    }
                }
            },
        }
    }

    /// Advances the underlying docset past rejected documents until one is
    /// accepted or it is exhausted. `p1 + 1` is the filtered position of the
    /// next accepted document.
    fn advance_inner(&mut self, Ghost(p1): Ghost<int>) -> (r: bool)
        requires
            old(self).underlying_docset.wf(),
            old(self).excluding_docset.wf(),
            -1 <= old(self).underlying_docset.spos() <= old(self).underlying_docset.sdocs().len(),
            old(self).underlying_docset.spos() < old(self).underlying_docset.sdocs().len()
                ==> excl_inv(
                &old(self).excluding_docset,
                old(self).excluding_state,
                old(self).bound(),
            ) && fpos(
                old(self).underlying_docset.sdocs(),
                not_in(old(self).excluding_docset.sdocs()),
                old(self).underlying_docset.spos() + 1,
            ) == p1 + 1,
        ensures
            final(self).underlying_docset.sdocs() == old(self).underlying_docset.sdocs(),
            final(self).excluding_docset.sdocs() == old(self).excluding_docset.sdocs(),
            final(self).wf(),
            final(self).shint() == old(self).shint(),
            r == (final(self).spos() < final(self).sdocs().len()),
            r ==> final(self).spos() == p1 + 1 && old(self).underlying_docset.spos() < final(self).underlying_docset.spos(),
            !r ==> final(self).spos() == final(self).sdocs().len() && (old(self).underlying_docset.spos() < old(self).underlying_docset.sdocs().len() ==> final(self).sdocs().len() == p1 + 1),
    {
        let ghost ud = self.underlying_docset.sdocs();
        let ghost ed = self.excluding_docset.sdocs();
        let ghost pred = not_in(ed);
        let ghost u0 = self.underlying_docset.spos();
        proof {
            self.underlying_docset.lemma_wf();
        }
        loop
            invariant
                self.underlying_docset.wf(),
                self.excluding_docset.wf(),
                self.shint() == old(self).shint(),
                ud == self.underlying_docset.sdocs(),
                ed == self.excluding_docset.sdocs(),
                pred == not_in(ed),
                ud == old(self).underlying_docset.sdocs(),
                ed == old(self).excluding_docset.sdocs(),
                u0 == old(self).underlying_docset.spos(),
                -1 <= u0 <= self.underlying_docset.spos() <= ud.len(),
                strictly_increasing(ud),
                self.underlying_docset.spos() < ud.len() ==> excl_inv(
                    &self.excluding_docset,
                    self.excluding_state,
                    self.bound(),
                ) && fpos(ud, pred, self.underlying_docset.spos() + 1) == p1 + 1,
                u0 < ud.len() ==> self.underlying_docset.spos() < ud.len(),
            decreases ud.len() - self.underlying_docset.spos(),
        {
            let ghost ucur = self.underlying_docset.spos();
            let ghost ob = self.bound();
            if !self.underlying_docset.advance() {
                proof {
                    assert(self.underlying_docset.spos() == ud.len());
                    assert(self.spos() == self.sdocs().len());
                    if ucur < ud.len() {
                        lemma_fpos_nonneg(ud, pred, ud.len() as int);
                        assert(fpos(ud, pred, ucur + 1) == p1 + 1);
                        lemma_fpos_const_rejected(ud, pred, ucur + 1, ud.len() as int, ed);
                        assert(self.sdocs().len() == p1 + 1);
                    }
                }
                return false;
            }
            proof {
                assert(ucur < ud.len());
                assert(self.underlying_docset.spos() == ucur + 1);
                assert(ob < ud[ucur + 1]) by {
                    if ucur >= 0 {
                        assert(ud[ucur] < ud[ucur + 1]);
                    }
                }
            }
            if self.accept(Ghost(ob)) {
                proof {
                    let q = self.underlying_docset.spos();
                    assert(q == ucur + 1);
                    assert(pred(ud[q]));
                    assert(self.spos() == fpos(ud, pred, q));
                    assert(fpos(ud, pred, q) == p1 + 1);
                    lemma_fpos_index(ud, pred, q);
                }
                return true;
            }
            proof {
                let q = self.underlying_docset.spos();
                assert(!pred(ud[q]));
                lemma_fpos_step(ud, pred, q);
                assert(fpos(ud, pred, q + 1) == fpos(ud, pred, q));
            }
        }
    }
}

/// Across a window of rejected documents the filtered prefix does not grow.
proof fn lemma_fpos_const_rejected(
    s: Seq<u32>,
    pred: spec_fn(u32) -> bool,
    lo: int,
    hi: int,
    ed: Seq<u32>,
)
    requires
        0 <= lo <= hi <= s.len(),
        pred == not_in(ed),
        forall|k: int| lo <= k < hi ==> !pred(#[trigger] s[k]),
    ensures
        fpos(s, pred, hi) == fpos(s, pred, lo),
    decreases hi - lo,
{
    if lo < hi {
        lemma_fpos_step(s, pred, hi - 1);
        lemma_fpos_const_rejected(s, pred, lo, hi - 1, ed);
    }
}

impl<TDocSet: DocSet, TDocSetExclude: DocSet> DocSet for ExcludeScorer<
    TDocSet,
    TDocSetExclude,
> {
    closed spec fn sdocs(&self) -> Seq<u32> {
        self.underlying_docset.sdocs().filter(not_in(self.excluding_docset.sdocs()))
    }

    closed spec fn spos(&self) -> int {
        if self.underlying_docset.spos() < 0 {
            -1
        } else if self.underlying_docset.spos() == self.underlying_docset.sdocs().len() {
            self.sdocs().len() as int
        } else {
            fpos(
                self.underlying_docset.sdocs(),
                not_in(self.excluding_docset.sdocs()),
                self.underlying_docset.spos(),
            )
        }
    }

    closed spec fn wf(&self) -> bool {
        let u = &self.underlying_docset;
        let e = &self.excluding_docset;
        u.wf() && e.wf() && (u.spos() < 0 ==> excl_inv(e, self.excluding_state, -1)) && (0
            <= u.spos() < u.sdocs().len() ==> not_in(e.sdocs())(u.sdocs()[u.spos()]) && excl_inv(
            e,
            self.excluding_state,
            u.sdocs()[u.spos()] as int,
        ))
    }

    closed spec fn shint(&self) -> int {
        self.underlying_docset.shint()
    }

    proof fn lemma_wf(&self) {
        let u = &self.underlying_docset;
        let pred = not_in(self.excluding_docset.sdocs());
        u.lemma_wf();
        lemma_filter_sorted(u.sdocs(), pred);
        u.sdocs().lemma_filter_len(pred);
        if 0 <= u.spos() < u.sdocs().len() {
            lemma_fpos_index(u.sdocs(), pred, u.spos());
        }
        lemma_fpos_nonneg(u.sdocs(), pred, u.sdocs().len() as int);
    }

    fn advance(&mut self) -> (r: bool) {
        let ghost p1 = self.spos();
        proof {
            self.underlying_docset.lemma_wf();
            let ud = self.underlying_docset.sdocs();
            let pred = not_in(self.excluding_docset.sdocs());
            let u = self.underlying_docset.spos();
            if u == -1 {
                assert(ud.take(0) =~= Seq::<u32>::empty());
                assert(fpos(ud, pred, 0) == 0) by {
                    reveal(Seq::filter);
                }
            } else if u < ud.len() {
                lemma_fpos_step(ud, pred, u);
            }
        }
        self.advance_inner(Ghost(p1))
    }

    fn skip_next(&mut self, target: u32) -> (r: SkipResult) {
        let ghost ud = self.underlying_docset.sdocs();
        let ghost ed = self.excluding_docset.sdocs();
        let ghost pred = not_in(ed);
        let ghost fdocs = self.sdocs();
        let ghost p0 = self.spos();
        let ghost u0 = self.underlying_docset.spos();
        let ghost sp = seek_pos(fdocs, p0, target);
        let ghost ob = self.bound();
        proof {
            self.underlying_docset.lemma_wf();
            self.lemma_wf();
            lemma_seek_pos_props(ud, u0, target);
            lemma_seek_pos_props(fdocs, p0, target);
        }
        let ghost uq = seek_pos(ud, u0, target);
        let underlying_skip_result = self.underlying_docset.skip_next(target);
        if underlying_skip_result == SkipResult::End {
            proof {
                assert(self.underlying_docset.spos() == ud.len());
                assert(uq == ud.len());
                lemma_fpos_nonneg(ud, pred, ud.len() as int);
                if u0 < ud.len() {
                    lemma_exclude_window(ud, pred, ed, u0, ud.len() as int, p0, target);
                    lemma_seek_pos_unique(fdocs, p0, target, fdocs.len() as int);
                } else {
                    assert(p0 == fdocs.len());
                }
                assert(self.spos() == self.sdocs().len());
            }
            return SkipResult::End;
        }
        proof {
            assert(u0 < uq < ud.len());
            assert(ud[uq] >= target);
            assert(ob < ud[uq]) by {
                if u0 >= 0 {
                    assert(ud[u0] < ud[uq]);
                    assert(p0 >= 0);
                }
            }
        }
        if self.accept(Ghost(ob)) {
            proof {
                assert(pred(ud[uq]));
                lemma_exclude_window(ud, pred, ed, u0, uq, p0, target);
                lemma_fpos_index(ud, pred, uq);
                lemma_seek_pos_unique(fdocs, p0, target, fpos(ud, pred, uq));
                assert(self.spos() == sp);
                assert(fdocs[sp] == ud[uq]);
            }
            underlying_skip_result
        } else {
            proof {
                assert(!pred(ud[uq]));
                lemma_exclude_window(ud, pred, ed, u0, uq, p0, target);
                lemma_fpos_step(ud, pred, uq);
            }
            let ghost p1 = fpos(ud, pred, uq) - 1;
            if self.advance_inner(Ghost(p1)) {
                proof {
                    assert(self.spos() == p1 + 1);
                    self.lemma_wf();
                    self.underlying_docset.lemma_wf();
                    let q2 = self.underlying_docset.spos();
                    assert(q2 >= 0) by {
                        assert(self.spos() >= 0);
                    }
                    assert(q2 < ud.len()) by {
                        if q2 == ud.len() {
                            assert(self.spos() == self.sdocs().len());
                        }
                    }
                    assert(pred(ud[q2]));
                    assert(self.spos() == fpos(ud, pred, q2));
                    lemma_fpos_index(ud, pred, q2);
                    assert(fdocs[self.spos()] == ud[q2]);
                    assert(ud[uq] < ud[q2]);
                    lemma_seek_pos_unique(fdocs, p0, target, p1 + 1);
                }
                SkipResult::OverStep
            } else {
                proof {
                    assert(self.spos() == self.sdocs().len());
                    assert(self.sdocs().len() == p1 + 1);
                    lemma_seek_pos_unique(fdocs, p0, target, p1 + 1);
                }
                SkipResult::End
            }
        }
    }

    fn doc(&self) -> (d: u32) {
        proof {
            self.underlying_docset.lemma_wf();
            let ud = self.underlying_docset.sdocs();
            let pred = not_in(self.excluding_docset.sdocs());
            lemma_fpos_index(ud, pred, self.underlying_docset.spos());
        }
        self.underlying_docset.doc()
    }

    fn size_hint(&self) -> (h: usize) {
        proof {
            let ud = self.underlying_docset.sdocs();
            let pred = not_in(self.excluding_docset.sdocs());
            ud.lemma_filter_len(pred);
        }
        self.underlying_docset.size_hint()
    }
}

/// In the window that a seek to `target` crosses, every already-filtered
/// document stays below `target`; so the filtered seek lands exactly where
/// the first accepted document at or after `target` sits.
proof fn lemma_exclude_window(
    ud: Seq<u32>,
    pred: spec_fn(u32) -> bool,
    ed: Seq<u32>,
    u0: int,
    uq: int,
    p0: int,
    target: u32,
)
    requires
        pred == not_in(ed),
        strictly_increasing(ud),
        -1 <= u0 < uq <= ud.len(),
        forall|k: int| u0 < k < uq ==> #[trigger] ud[k] < target,
        u0 == -1 ==> p0 == -1,
        u0 >= 0 ==> u0 < ud.len() && pred(ud[u0]) && p0 == fpos(ud, pred, u0),
    ensures
        fpos(ud, pred, uq) == p0 + 1 || (fpos(ud, pred, uq) > p0 + 1 && forall|j: int|
            p0 < j < fpos(ud, pred, uq) ==> #[trigger] ud.filter(pred)[j] < target),
        p0 < fpos(ud, pred, uq),
        forall|j: int|
            p0 < j < fpos(ud, pred, uq) ==> #[trigger] ud.filter(pred)[j] < target,
{
    let a = u0 + 1;
    assert(fpos(ud, pred, a) == p0 + 1) by {
        if u0 == -1 {
            assert(ud.take(0) =~= Seq::<u32>::empty());
            reveal(Seq::filter);
        } else {
            lemma_fpos_step(ud, pred, u0);
        }
    }
    lemma_fpos_mono(ud, pred, a, uq);
    assert forall|j: int| p0 < j < fpos(ud, pred, uq) implies #[trigger] ud.filter(pred)[j]
        < target by {
        lemma_fpos_between(ud, pred, a, uq, j);
        let k = choose|k: int|
            a <= k < uq && pred(#[trigger] ud[k]) && fpos(ud, pred, k) == j && ud.filter(pred)[j]
                == ud[k];
        assert(ud[k] < target);
    }
}

/// Exclusion law: the combinator's documents are exactly the underlying
/// documents that the excluding docset does not contain, as an ordered set:
/// membership is the set difference and the order is preserved.
pub proof fn lemma_exclude_difference(u: Seq<u32>, e: Seq<u32>)
    requires
        strictly_increasing(u),
    ensures
        strictly_increasing(u.filter(not_in(e))),
        forall|d: u32|
            #[trigger] u.filter(not_in(e)).contains(d) <==> (u.contains(d) && !e.contains(d)),
{
    let pred = not_in(e);
    lemma_filter_sorted(u, pred);
    assert forall|d: u32| #[trigger] u.filter(pred).contains(d) implies (u.contains(d)
        && !e.contains(d)) by {
        u.lemma_filter_contains_rev(pred, d);
        let j = choose|j: int| 0 <= j < u.filter(pred).len() && u.filter(pred)[j] == d;
        u.lemma_filter_pred(pred, j);
    }
    assert forall|d: u32| u.contains(d) && !e.contains(d) implies #[trigger] u.filter(
        pred,
    ).contains(d) by {
        let i = choose|i: int| 0 <= i < u.len() && u[i] == d;
        assert(pred(u[i]));
        u.lemma_filter_contains(pred, i);
    }
}

} // verus!
