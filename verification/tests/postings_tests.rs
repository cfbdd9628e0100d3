use querycore::bitset::DeleteBitSet;
use querycore::docset::{DocSet, SkipResult};
use querycore::compression::compress_vint_unsorted;
use querycore::segment::{InvertedIndex, SegmentPostingsOption};
use querycore::segment_postings::{serialize_postings, BlockSegmentPostings, SegmentPostings};
use querycore::streamer::{TermDictionaryBuilder, TermInfo};

#[test]
fn test_empty_segment_postings() {
    let mut postings = SegmentPostings::empty();
    assert!(!postings.advance());
    assert!(!postings.advance());
    assert_eq!(postings.len(), 0);
}

#[test]
fn test_empty_block_segment_postings() {
    let mut postings = BlockSegmentPostings::empty();
    assert!(!postings.advance());
    assert_eq!(postings.doc_freq(), 0);
}

#[test]
fn test_block_segment_postings() {
    // a posting list of exactly 100_000 consecutive documents
    let docs: Vec<u32> = (0u32..100_000u32).collect();
    let freqs: Vec<u32> = vec![1u32; 100_000];
    let mut data: Vec<u8> = Vec::new();
    serialize_postings(&docs, &freqs, false, &mut data);
    let mut block_segments = BlockSegmentPostings::from_data(100_000, data, false);
    let mut offset: u32 = 0u32;
    // the block before the first advance is empty
    assert!(block_segments.docs().is_empty());
    assert_eq!(block_segments.doc_freq(), 100_000);
    loop {
        let block: Vec<u32> = match block_segments.next() {
            Some(block) => block.clone(),
            None => break,
        };
        for (i, doc) in block.iter().cloned().enumerate() {
            assert_eq!(offset + (i as u32), doc);
        }
        offset += block.len() as u32;
    }
    assert_eq!(offset, 100_000);
}

#[test]
fn test_reset_block_segment_postings() {
    // two posting lists: even document ids, then odd ones
    let even: Vec<u32> = vec![0, 2, 4];
    let odd: Vec<u32> = vec![1, 3, 5];
    let ones: Vec<u32> = vec![1u32; 3];
    let mut even_data: Vec<u8> = Vec::new();
    serialize_postings(&even, &ones, false, &mut even_data);
    let mut odd_data: Vec<u8> = Vec::new();
    serialize_postings(&odd, &ones, false, &mut odd_data);

    let mut block_segments = BlockSegmentPostings::from_data(3, even_data, false);
    assert!(block_segments.advance());
    assert!(block_segments.docs() == &[0, 2, 4]);
    block_segments.reset(3, odd_data);
    assert!(block_segments.advance());
    assert!(block_segments.docs() == &[1, 3, 5]);
}

fn postings_from(docs: Vec<u32>, freqs: Vec<u32>, deltas: Vec<u32>) -> SegmentPostings {
    let n = docs.len();
    let mut data: Vec<u8> = Vec::new();
    serialize_postings(&docs, &freqs, true, &mut data);
    let mut pos_data: Vec<u8> = Vec::new();
    compress_vint_unsorted(&deltas, &mut pos_data);
    let mut builder = TermDictionaryBuilder::new();
    let key: Vec<u8> = vec![1u8];
    builder.insert(
        &key,
        &TermInfo { doc_freq: n as u32, postings_offset: 0, positions_offset: 0 },
    );
    let dict = builder.finish();
    let max_doc = docs.iter().cloned().max().map(|d| d + 1).unwrap_or(0);
    let ii = InvertedIndex::new(dict, data, pos_data, true, true, max_doc);
    ii.read_postings(
        &key,
        SegmentPostingsOption::FreqAndPositions,
        DeleteBitSet::empty(),
    )
    .expect("term present")
}

#[test]
fn test_position_skip() {
    // three documents with term frequencies (2, 3, 1) and the deltas below
    let sp = postings_from(vec![0, 1, 2], vec![2, 3, 1], vec![1, 4, 2, 1, 5, 7]);
    let mut sp = sp;
    assert!(sp.advance());
    assert!(sp.advance());
    // reading only on the second document
    assert_eq!(sp.positions().clone(), vec![2u32, 3, 8]);
    assert!(sp.advance());
    assert_eq!(sp.positions().clone(), vec![7u32]);
}

#[test]
fn test_position_skip_unread() {
    // same list; skip straight past the second document without reading it
    let sp = postings_from(vec![0, 1, 2], vec![2, 3, 1], vec![1, 4, 2, 1, 5, 7]);
    let mut sp = sp;
    assert!(sp.advance());
    assert!(sp.advance());
    assert!(sp.advance());
    assert_eq!(sp.positions().clone(), vec![7u32]);
    assert_eq!(sp.delta_positions().clone(), vec![7u32]);
}

#[test]
fn test_segment_postings_skip_with_deletes() {
    let docs: Vec<u32> = vec![1, 2, 5, 8, 10, 15, 24];
    let freqs: Vec<u32> = vec![1u32; 7];
    let mut data: Vec<u8> = Vec::new();
    serialize_postings(&docs, &freqs, false, &mut data);
    let block = BlockSegmentPostings::from_data(7, data, false);
    let deletes = DeleteBitSet::for_deleted_docs(&vec![5u32, 24u32], 25);
    let mut sp = SegmentPostings::from_block_postings(block, deletes, None);
    assert_eq!(sp.skip_next(5), SkipResult::OverStep);
    assert_eq!(sp.doc(), 8);
    assert_eq!(sp.skip_next(10), SkipResult::Reached);
    assert_eq!(sp.skip_next(24), SkipResult::End);
}

#[test]
fn test_block_boundary_skip() {
    // a list crossing several blocks; seeks land exactly per the seek law
    let docs: Vec<u32> = (0u32..1000u32).map(|i| i * 3).collect();
    let freqs: Vec<u32> = vec![1u32; 1000];
    let mut data: Vec<u8> = Vec::new();
    serialize_postings(&docs, &freqs, false, &mut data);
    let block = BlockSegmentPostings::from_data(1000, data, false);
    let mut sp = SegmentPostings::from_block_postings(block, DeleteBitSet::empty(), None);
    assert_eq!(sp.skip_next(900), SkipResult::Reached);
    assert_eq!(sp.doc(), 900);
    assert_eq!(sp.skip_next(901), SkipResult::OverStep);
    assert_eq!(sp.doc(), 903);
    assert_eq!(sp.skip_next(2997), SkipResult::Reached);
    assert_eq!(sp.skip_next(2998), SkipResult::End);
}
