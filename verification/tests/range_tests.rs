use querycore::bitset::DeleteBitSet;
use querycore::range_query::{Bound, RangeQuery};
use querycore::schema::{Field, Term};
use querycore::segment::{InvertedIndex, SegmentReader};
use querycore::segment_postings::serialize_postings;
use querycore::streamer::{TermDictionaryBuilder, TermInfo};
use querycore::weight::Weight;

/// Builds the segment of the range scenario: documents `d1..d99`, `di` tagged
/// with every `j` in `[1, 99]` dividing `i`; doc ids are `i - 1`.
fn tag_segment(field: Field) -> SegmentReader {
    let mut builder = TermDictionaryBuilder::new();
    let mut postings_data: Vec<u8> = Vec::new();
    for j in 1i64..100 {
        let docs: Vec<u32> = (1u32..100).filter(|i| i % (j as u32) == 0).map(|i| i - 1).collect();
        let freqs: Vec<u32> = vec![1u32; docs.len()];
        let offset = postings_data.len() as u32;
        let doc_freq = docs.len() as u32;
        serialize_postings(&docs, &freqs, false, &mut postings_data);
        let term = Term::from_field_i64(field, j);
        builder.insert(
            term.value_bytes(),
            &TermInfo { doc_freq, postings_offset: offset, positions_offset: 0 },
        );
    }
    let dict = builder.finish();
    let ii = InvertedIndex::new(dict, postings_data, Vec::new(), false, false, 99);
    SegmentReader::new(99, DeleteBitSet::empty(), vec![(field.0, ii)], vec![])
}

#[test]
fn test_range_query() {
    let int_field = Field(0);
    let searcher = tag_segment(int_field);
    let count_multiples = |range_query: RangeQuery| -> u32 {
        range_query.weight().count(&searcher).unwrap()
    };

    assert_eq!(
        count_multiples(RangeQuery::new_i64(
            int_field,
            Bound::Included(10),
            Bound::Excluded(11)
        )),
        9
    );
    assert_eq!(
        count_multiples(RangeQuery::new_i64(
            int_field,
            Bound::Included(10),
            Bound::Included(11)
        )),
        18
    );
    assert_eq!(
        count_multiples(RangeQuery::new_i64(
            int_field,
            Bound::Excluded(9),
            Bound::Included(10)
        )),
        9
    );
    assert_eq!(
        count_multiples(RangeQuery::new_i64(int_field, Bound::Included(9), Bound::Unbounded)),
        91
    );
}

#[test]
fn test_range_query_determinism() {
    // the result is a function of (field, bounds) over the frozen segment
    let int_field = Field(0);
    let searcher = tag_segment(int_field);
    let q = || RangeQuery::new_i64(int_field, Bound::Included(7), Bound::Excluded(21));
    let a = q().weight().count(&searcher).unwrap();
    let b = q().weight().count(&searcher).unwrap();
    assert_eq!(a, b);
    assert_eq!(a, (1u32..100).filter(|i| (7..21).any(|j| i % j == 0)).count() as u32);
}

#[test]
fn test_range_query_missing_field() {
    let int_field = Field(0);
    let searcher = tag_segment(int_field);
    let q = RangeQuery::new_i64(Field(7), Bound::Included(1), Bound::Excluded(2));
    assert!(q.weight().count(&searcher).is_err());
}

#[test]
fn test_range_query_u64_and_str() {
    // the other two key encodings build and order correctly
    let f = Field(3);
    let q1 = RangeQuery::new_u64(f, Bound::Included(10), Bound::Excluded(20));
    let q2 = RangeQuery::new_str(f, Bound::Included("alpha"), Bound::Excluded("beta"));
    let _ = q1.weight();
    let _ = q2.weight();
}
