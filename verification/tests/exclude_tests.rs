use querycore::docset::{DocSet, SkipResult};
use querycore::exclude::ExcludeScorer;
use querycore::vec_postings::VecPostings;

#[test]
fn test_exclude() {
    let mut exclude_scorer = ExcludeScorer::new(
        VecPostings::from(vec![1, 2, 5, 8, 10, 15, 24]),
        VecPostings::from(vec![1, 2, 3, 10, 16, 24]),
    );
    let mut els = vec![];
    while exclude_scorer.advance() {
        els.push(exclude_scorer.doc());
    }
    assert_eq!(els, vec![5, 8, 15]);
}

/// Remaining documents of the exclusion, computed directly.
fn reference_docs(kept_docs: &[u32], exclude: &[u32]) -> Vec<u32> {
    kept_docs
        .iter()
        .cloned()
        .filter(|d| !exclude.contains(d))
        .collect()
}

/// Seeks with `skip_next` must end in the same state as an advance-only walk.
fn test_skip_against_unoptimized(kept_docs: Vec<u32>, exclude: Vec<u32>, targets: Vec<u32>) {
    let expected = reference_docs(&kept_docs, &exclude);
    for &target in targets.iter() {
        let mut scorer = ExcludeScorer::new(
            VecPostings::from(kept_docs.clone()),
            VecPostings::from(exclude.clone()),
        );
        let result = scorer.skip_next(target);
        let reference = expected.iter().cloned().find(|&d| d >= target);
        match reference {
            Some(d) if d == target => {
                assert_eq!(result, SkipResult::Reached);
                assert_eq!(scorer.doc(), d);
            }
            Some(d) => {
                assert_eq!(result, SkipResult::OverStep);
                assert_eq!(scorer.doc(), d);
            }
            None => {
                assert_eq!(result, SkipResult::End);
                assert!(!scorer.advance());
            }
        }
    }
}

#[test]
fn test_exclude_skip() {
    test_skip_against_unoptimized(
        vec![1, 2, 5, 8, 10, 15, 24],
        vec![1, 2, 3, 10, 16, 24],
        vec![1, 2, 5, 8, 10, 15, 24],
    );
}

/// A small deterministic congruential generator for reproducible samples.
struct Rng(u64);

impl Rng {
    fn next(&mut self) -> u64 {
        self.0 = self
            .0
            .wrapping_mul(6364136223846793005)
            .wrapping_add(1442695040888963407);
        self.0 >> 33
    }
}

fn sample_with_seed(upper: u32, permille: u64, seed: u64) -> Vec<u32> {
    let mut rng = Rng(seed.wrapping_add(99991));
    (0..upper).filter(|_| rng.next() % 1000 < permille).collect()
}

#[test]
fn test_exclude_skip_random() {
    let sample_kept_docs = sample_with_seed(10_000, 100, 1);
    let sample_exclude = sample_with_seed(10_000, 50, 2);
    let sample_skip = sample_with_seed(10_000, 5, 3);
    test_skip_against_unoptimized(sample_kept_docs, sample_exclude, sample_skip);
}

#[test]
fn test_exclude_advance_monotone() {
    // documents surface strictly increasing, deletes and exclusions respected
    let mut scorer = ExcludeScorer::new(
        VecPostings::from((0u32..200).map(|i| i * 2).collect()),
        VecPostings::from((0u32..100).map(|i| i * 4).collect()),
    );
    let mut prev: Option<u32> = None;
    while scorer.advance() {
        let d = scorer.doc();
        if let Some(p) = prev {
            assert!(p < d);
        }
        assert!(d % 2 == 0 && d % 4 != 0);
        prev = Some(d);
    }
}
