use querycore::bitset::{BitSet, BitSetDocSet};
use querycore::docset::{DocSet, SkipResult};
use querycore::vec_postings::VecPostings;

#[test]
fn test_advance_strictly_increasing() {
    let mut ds = VecPostings::from(vec![2, 3, 5, 7, 11, 13]);
    let mut prev: Option<u32> = None;
    while ds.advance() {
        let d = ds.doc();
        if let Some(p) = prev {
            assert!(p < d);
        }
        prev = Some(d);
    }
    assert!(!ds.advance());
}

#[test]
fn test_skip_next_outcomes() {
    // Reached lands exactly on the target
    let mut ds = VecPostings::from(vec![2, 3, 5, 7, 11, 13]);
    assert_eq!(ds.skip_next(5), SkipResult::Reached);
    assert_eq!(ds.doc(), 5);
    // OverStep lands strictly past it
    assert_eq!(ds.skip_next(8), SkipResult::OverStep);
    assert_eq!(ds.doc(), 11);
    // End leaves the docset exhausted
    assert_eq!(ds.skip_next(14), SkipResult::End);
    assert!(!ds.advance());
}

#[test]
fn test_chained_skip_matches_fresh() {
    // chaining t1 then t2 equals one seek over the docs below t2 removed,
    // whenever the first seek stays below t2
    let docs: Vec<u32> = vec![2, 3, 5, 7, 11, 13, 17, 19];
    let t1: u32 = 4;
    let t2: u32 = 12;
    let mut chained = VecPostings::from(docs.clone());
    let _r1 = chained.skip_next(t1);
    assert!(chained.doc() < t2);
    let r2 = chained.skip_next(t2);
    let trimmed: Vec<u32> = docs.iter().cloned().filter(|&d| d >= t2).collect();
    let mut fresh = VecPostings::from(trimmed);
    let r2f = fresh.skip_next(t2);
    assert_eq!(r2, r2f);
    assert_eq!(chained.doc(), fresh.doc());
}

#[test]
fn test_bitset_docset() {
    let mut bits = BitSet::with_max_value(100);
    for d in [3u32, 9, 17, 38, 39, 52, 99] {
        bits.insert(d);
    }
    let mut ds = BitSetDocSet::from(bits);
    assert_eq!(ds.skip_next(9), SkipResult::Reached);
    assert_eq!(ds.skip_next(40), SkipResult::OverStep);
    assert_eq!(ds.doc(), 52);
    assert!(ds.advance());
    assert_eq!(ds.doc(), 99);
    assert!(!ds.advance());
}

#[test]
fn test_bitset_insert_contains() {
    let mut bits = BitSet::with_max_value(200);
    assert!(!bits.contains(64));
    bits.insert(64);
    bits.insert(0);
    bits.insert(199);
    assert!(bits.contains(64) && bits.contains(0) && bits.contains(199));
    assert!(!bits.contains(63) && !bits.contains(65));
}
