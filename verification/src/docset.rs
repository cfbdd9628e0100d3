//! The ordered-seek contract shared by every set of documents.
//!
//! A docset walks a fixed, strictly increasing sequence of document ids. Its
//! abstract state is that sequence (`sdocs`) together with a cursor position
//! (`spos`): `-1` before the first `advance`, the index of the current
//! document while one is current, and the length of the sequence once the
//! docset is exhausted.

use vstd::prelude::*;

verus! {

/// Outcome of [`DocSet::skip_next`].
#[derive(Clone, Copy, Debug, PartialEq, Eq, Structural)]
pub enum SkipResult {
    /// A document equal to the target is now current.
    Reached,
    /// A document strictly greater than the target is now current.
    OverStep,
    /// No document at or after the target exists; the docset is exhausted.
    End,
}

pub open spec fn strictly_increasing(s: Seq<u32>) -> bool {
    forall|i: int, j: int| 0 <= i < j < s.len() ==> #[trigger] s[i] < #[trigger] s[j]
}

/// The cursor position that a seek to `target` reaches from `from`: the least
/// index past `from` whose document is at or after `target`, or the length of
/// the sequence when there is none. A seek always moves at least one step.
pub open spec fn seek_pos(docs: Seq<u32>, from: int, target: u32) -> int
    decreases docs.len() - from,
{
    if from + 1 >= docs.len() {
        docs.len() as int
    } else if docs[from + 1] >= target {
        from + 1
    } else {
        seek_pos(docs, from + 1, target)
    }
}

/// What `seek_pos` guarantees: it lands past `from`, on the first document at
/// or after `target`, and every document it passed over is before `target`.
///
/// Together with the [`DocSet::skip_next`] contract this is the seek law: a
/// `Reached` outcome has `doc()` equal to the target, an `OverStep` outcome
/// has `doc()` strictly greater, and after `End` the cursor is exhausted, so
/// every later `advance` returns `false`.
pub proof fn lemma_seek_pos_props(docs: Seq<u32>, from: int, target: u32)
    requires
        -1 <= from <= docs.len(),
    ensures
        from <= seek_pos(docs, from, target) <= docs.len(),
        from < docs.len() ==> from < seek_pos(docs, from, target),
        seek_pos(docs, from, target) < docs.len() ==> docs[seek_pos(docs, from, target)]
            >= target,
        forall|k: int|
            from < k < seek_pos(docs, from, target) ==> #[trigger] docs[k] < target,
    decreases docs.len() - from,
{
    if from + 1 >= docs.len() {
    } else if docs[from + 1] >= target {
    } else {
        lemma_seek_pos_props(docs, from + 1, target);
    }
}

/// An ordered, seekable iterator of document ids.
///
/// `wf` is the implementation's invariant; `lemma_wf` extracts from it the
/// facts every caller may rely on: the document sequence is strictly
/// increasing and the cursor is within range. Every operation leaves the
/// document sequence unchanged and moves only the cursor, so repeated
/// `advance` calls deliver `sdocs` in order: strictly increasing documents.
pub trait DocSet: Sized {
    /// The full sequence of documents this docset walks.
    spec fn sdocs(&self) -> Seq<u32>;

    /// Cursor position: `-1` initially, index of the current document, or
    /// `sdocs().len()` when exhausted.
    spec fn spos(&self) -> int;

    /// Implementation invariant.
    spec fn wf(&self) -> bool;

    /// The size bound the docset advertises, fixed at construction: the
    /// stored document frequency for a posting list, the maximum document
    /// value for a bit set, the underlying hint for a combinator.
    spec fn shint(&self) -> int;

    proof fn lemma_wf(&self)
        requires
            self.wf(),
        ensures
            strictly_increasing(self.sdocs()),
            -1 <= self.spos() <= self.sdocs().len(),
            self.sdocs().len() <= self.shint(),
    ;

    /// Moves to the next document; `false` once the sequence is exhausted.
    fn advance(&mut self) -> (r: bool)
        requires
            old(self).wf(),
        ensures
            final(self).wf(),
            final(self).sdocs() == old(self).sdocs(),
            final(self).spos() == if old(self).spos() < old(self).sdocs().len() {
                old(self).spos() + 1
            } else {
                old(self).spos()
            },
            final(self).shint() == old(self).shint(),
            r == (final(self).spos() < final(self).sdocs().len()),
    ;

    /// Advances to the first document at or after `target` that lies past the
    /// current cursor.
    fn skip_next(&mut self, target: u32) -> (r: SkipResult)
        requires
            old(self).wf(),
        ensures
            final(self).wf(),
            final(self).sdocs() == old(self).sdocs(),
            final(self).spos() == seek_pos(old(self).sdocs(), old(self).spos(), target),
            final(self).shint() == old(self).shint(),
            r == (if final(self).spos() == final(self).sdocs().len() {
                SkipResult::End
            } else if final(self).sdocs()[final(self).spos()] == target {
                SkipResult::Reached
            } else {
                SkipResult::OverStep
            }),
    ;

    /// The current document.
    fn doc(&self) -> (d: u32)
        requires
            self.wf(),
            0 <= self.spos() < self.sdocs().len(),
        ensures
            d == self.sdocs()[self.spos()],
    ;

    /// The advertised upper bound on the number of documents in the docset:
    /// exactly `shint()`, which never discounts deletions or exclusions.
    fn size_hint(&self) -> (h: usize)
        requires
            self.wf(),
        ensures
            h == self.shint(),
            self.sdocs().len() <= h,
    ;
}

/// Ordering law of every docset: since a docset's document sequence is fixed
/// and strictly increasing and the cursor only moves forward, the documents
/// seen at two successive cursor positions strictly increase.
pub proof fn lemma_docset_ordered(docs: Seq<u32>, i: int, j: int)
    requires
        strictly_increasing(docs),
        0 <= i < j < docs.len(),
    ensures
        docs[i] < docs[j],
{
}

/// Number of documents among the first `upto` of `s` that satisfy `pred`:
/// the position within the filtered sequence of the document at `upto`.
pub open spec fn fpos(s: Seq<u32>, pred: spec_fn(u32) -> bool, upto: int) -> int {
    s.take(upto).filter(pred).len() as int
}

/// One step of `fpos`: taking one more document grows the filtered prefix by
/// that document exactly when it satisfies the predicate.
pub proof fn lemma_fpos_step(s: Seq<u32>, pred: spec_fn(u32) -> bool, i: int)
    requires
        0 <= i < s.len(),
    ensures
        pred(s[i]) ==> s.take(i + 1).filter(pred) == s.take(i).filter(pred).push(s[i]),
        !pred(s[i]) ==> s.take(i + 1).filter(pred) == s.take(i).filter(pred),
        pred(s[i]) ==> fpos(s, pred, i + 1) == fpos(s, pred, i) + 1,
        !pred(s[i]) ==> fpos(s, pred, i + 1) == fpos(s, pred, i),
{
    assert(s.take(i + 1) =~= s.take(i) + seq![s[i]]);
    Seq::<u32>::filter_distributes_over_add(s.take(i), seq![s[i]], pred);
    reveal_with_fuel(Seq::filter, 3);
    if pred(s[i]) {
        assert(seq![s[i]].filter(pred) =~= seq![s[i]]);
        assert(s.take(i).filter(pred) + seq![s[i]] =~= s.take(i).filter(pred).push(s[i]));
    } else {
        assert(seq![s[i]].filter(pred) =~= Seq::<u32>::empty());
        assert(s.take(i).filter(pred) + Seq::<u32>::empty() =~= s.take(i).filter(pred));
    }
}

/// A document that satisfies the predicate appears in the filtered sequence
/// at its filtered position.
pub proof fn lemma_fpos_index(s: Seq<u32>, pred: spec_fn(u32) -> bool, i: int)
    requires
        0 <= i < s.len(),
        pred(s[i]),
    ensures
        0 <= fpos(s, pred, i) < s.filter(pred).len(),
        s.filter(pred)[fpos(s, pred, i)] == s[i],
{
    lemma_fpos_step(s, pred, i);
    assert(s =~= s.take(i + 1) + s.skip(i + 1));
    Seq::<u32>::filter_distributes_over_add(s.take(i + 1), s.skip(i + 1), pred);
    let a = s.take(i + 1).filter(pred);
    let b = s.skip(i + 1).filter(pred);
    assert(s.filter(pred) == a + b);
    assert(a[a.len() - 1] == s[i]);
    assert((a + b)[a.len() - 1] == a[a.len() - 1]);
    lemma_fpos_nonneg(s, pred, i);
}

pub proof fn lemma_fpos_nonneg(s: Seq<u32>, pred: spec_fn(u32) -> bool, i: int)
    requires
        0 <= i <= s.len(),
    ensures
        0 <= fpos(s, pred, i) <= i,
        fpos(s, pred, s.len() as int) == s.filter(pred).len(),
    decreases i,
{
    if i > 0 {
        lemma_fpos_step(s, pred, i - 1);
        lemma_fpos_nonneg(s, pred, i - 1);
    } else {
        assert(s.take(0) =~= Seq::<u32>::empty());
        reveal(Seq::filter);
    }
    assert(s.take(s.len() as int) =~= s);
}

/// If no document in the window `[lo, hi)` satisfies the predicate, the
/// filtered position does not move across it.
pub proof fn lemma_fpos_const(s: Seq<u32>, pred: spec_fn(u32) -> bool, lo: int, hi: int)
    requires
        0 <= lo <= hi <= s.len(),
        forall|k: int| lo <= k < hi ==> !pred(#[trigger] s[k]),
    ensures
        fpos(s, pred, hi) == fpos(s, pred, lo),
    decreases hi - lo,
{
    if lo < hi {
        lemma_fpos_step(s, pred, hi - 1);
        lemma_fpos_const(s, pred, lo, hi - 1);
    }
}

/// The filtered sequence of a strictly increasing sequence is strictly
/// increasing.
pub proof fn lemma_filter_sorted(s: Seq<u32>, pred: spec_fn(u32) -> bool)
    requires
        strictly_increasing(s),
    ensures
        strictly_increasing(s.filter(pred)),
    decreases s.len(),
{
    reveal(Seq::filter);
    if s.len() > 0 {
        let head = s.drop_last();
        lemma_filter_sorted(head, pred);
        assert(head.filter(pred).len() <= head.len()) by {
            head.lemma_filter_len(pred);
        }
        if pred(s.last()) {
            let f = s.filter(pred);
            assert(f == head.filter(pred).push(s.last()));
            assert forall|i: int, j: int| 0 <= i < j < f.len() implies #[trigger] f[i]
                < #[trigger] f[j] by {
                if j < f.len() - 1 {
                    assert(head.filter(pred)[i] < head.filter(pred)[j]);
                } else {
                    lemma_filter_member_last(head, pred, i);
                }
            }
        }
    }
}

proof fn lemma_filter_member_last(s: Seq<u32>, pred: spec_fn(u32) -> bool, i: int)
    requires
        strictly_increasing(s),
        0 <= i < s.filter(pred).len(),
        s.len() > 0,
    ensures
        s.filter(pred)[i] <= s.last(),
    decreases s.len(),
{
    reveal(Seq::filter);
    let head = s.drop_last();
    if s.len() >= 1 {
        if pred(s.last()) && i == s.filter(pred).len() - 1 {
            assert(s.filter(pred).last() == s.last());
        } else {
            assert(head.filter(pred)[i] == s.filter(pred)[i]) by {
                if pred(s.last()) {
                    assert(s.filter(pred) == head.filter(pred).push(s.last()));
                } else {
                    assert(s.filter(pred) == head.filter(pred));
                }
            }
            if head.len() > 0 {
                lemma_filter_member_last(head, pred, i);
                assert(head.last() < s.last());
            } else {
                assert(head.filter(pred).len() == 0);
            }
        }
    }
}

/// A wholly excluded sequence filters to nothing.
pub proof fn lemma_filter_empty(s: Seq<u32>, pred: spec_fn(u32) -> bool)
    requires
        forall|k: int| 0 <= k < s.len() ==> !pred(#[trigger] s[k]),
    ensures
        s.filter(pred).len() == 0,
{
    lemma_fpos_const(s, pred, 0, s.len() as int);
    lemma_fpos_nonneg(s, pred, 0);
    assert(s.take(0) =~= Seq::<u32>::empty());
    reveal(Seq::filter);
}

/// A position past `from` whose document is at or after `target`, with only
/// smaller documents in between, is exactly where a seek lands.
pub proof fn lemma_seek_pos_unique(docs: Seq<u32>, from: int, target: u32, p: int)
    requires
        -1 <= from < p <= docs.len(),
        forall|k: int| from < k < p ==> #[trigger] docs[k] < target,
        p < docs.len() ==> docs[p] >= target,
    ensures
        seek_pos(docs, from, target) == p,
    decreases docs.len() - from,
{
    if from + 1 >= docs.len() {
    } else if docs[from + 1] >= target {
        assert(p == from + 1);
    } else {
        lemma_seek_pos_unique(docs, from + 1, target, p);
    }
}

/// The filtered position never decreases along the base sequence.
pub proof fn lemma_fpos_mono(s: Seq<u32>, pred: spec_fn(u32) -> bool, a: int, b: int)
    requires
        0 <= a <= b <= s.len(),
    ensures
        fpos(s, pred, a) <= fpos(s, pred, b),
    decreases b - a,
{
    if a < b {
        lemma_fpos_step(s, pred, b - 1);
        lemma_fpos_mono(s, pred, a, b - 1);
    }
}

/// Every filtered index in the window `[fpos(a), fpos(b))` is the filtered
/// position of some matching document in `[a, b)`.
pub proof fn lemma_fpos_between(s: Seq<u32>, pred: spec_fn(u32) -> bool, a: int, b: int, j: int)
    requires
        0 <= a <= b <= s.len(),
        fpos(s, pred, a) <= j < fpos(s, pred, b),
    ensures
        exists|k: int|
            a <= k < b && pred(#[trigger] s[k]) && fpos(s, pred, k) == j && s.filter(pred)[j]
                == s[k],
    decreases b - a,
{
    lemma_fpos_step(s, pred, b - 1);
    if pred(s[b - 1]) && j == fpos(s, pred, b - 1) {
        lemma_fpos_index(s, pred, b - 1);
        assert(a <= b - 1 < b && pred(s[b - 1]) && fpos(s, pred, b - 1) == j && s.filter(pred)[j]
            == s[b - 1]);
    } else {
        lemma_fpos_between(s, pred, a, b - 1, j);
        let k0 = choose|k: int|
            a <= k < b - 1 && pred(#[trigger] s[k]) && fpos(s, pred, k) == j && s.filter(pred)[j]
                == s[k];
        assert(a <= k0 < b && pred(s[k0]) && fpos(s, pred, k0) == j && s.filter(pred)[j]
            == s[k0]);
    }
}

/// Chained-seek law: on a fresh docset, seeking `t1` and then a larger `t2`
/// ends in the same state as a single seek to `t2` over the docset with every
/// document before `t2` removed — provided the first seek did not already
/// land at or past `t2` (a seek always moves, so a first seek that lands in
/// `[t2, ...)` is passed over by the second and the states differ).
pub proof fn lemma_chained_seek(docs: Seq<u32>, t1: u32, t2: u32)
    requires
        strictly_increasing(docs),
        t1 < t2,
        seek_pos(docs, -1, t1) < docs.len() ==> docs[seek_pos(docs, -1, t1)] < t2,
    ensures
        ({
            let p2 = seek_pos(docs, seek_pos(docs, -1, t1), t2);
            let fresh = docs.filter(|d: u32| d >= t2);
            (p2 == docs.len() <==> fresh.len() == 0) && (p2 < docs.len() ==> fresh.len() > 0
                && seek_pos(fresh, -1, t2) == 0 && docs[p2] == fresh[0])
        }),
{
    let p1 = seek_pos(docs, -1, t1);
    let p2 = seek_pos(docs, p1, t2);
    let pred = |d: u32| d >= t2;
    let fresh = docs.filter(pred);
    lemma_seek_pos_props(docs, -1, t1);
    lemma_seek_pos_props(docs, p1, t2);
    assert(forall|k: int| 0 <= k < p2 ==> #[trigger] docs[k] < t2) by {
        assert(forall|k: int| 0 <= k < p1 ==> #[trigger] docs[k] < t1);
    }
    if p2 == docs.len() {
        lemma_filter_empty(docs, pred);
    } else {
        lemma_fpos_index(docs, pred, p2);
        lemma_fpos_const(docs, pred, 0, p2);
        lemma_fpos_nonneg(docs, pred, 0);
        assert(docs.take(0) =~= Seq::<u32>::empty());
        assert(fpos(docs, pred, 0) == 0) by {
            reveal(Seq::filter);
        }
        assert(fresh[0] == docs[p2]);
        assert(fresh[0] >= t2);
        assert(seek_pos(fresh, -1, t2) == 0);
    }
}

} // verus!
// (continued)

verus! {

/// Filtering by pointwise-equal predicates gives the same sequence.
pub proof fn lemma_filter_congruence(s: Seq<u32>, p1: spec_fn(u32) -> bool, p2: spec_fn(u32) -> bool)
    requires
        forall|i: int| 0 <= i < s.len() ==> (p1(#[trigger] s[i]) == p2(s[i])),
    ensures
        s.filter(p1) == s.filter(p2),
    decreases s.len(),
{
    reveal(Seq::filter);
    if s.len() > 0 {
        assert(forall|i: int|
            0 <= i < s.drop_last().len() ==> (p1(#[trigger] s.drop_last()[i]) == p2(
                s.drop_last()[i],
            )));
        lemma_filter_congruence(s.drop_last(), p1, p2);
        assert(p1(s.last()) == p2(s.last()));
    }
}

} // verus!
