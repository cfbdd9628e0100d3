use querycore::bitset::DeleteBitSet;
use querycore::docset::DocSet;
use querycore::schema::{Field, Term};
use querycore::segment::{InvertedIndex, SegmentPostingsOption, SegmentReader};
use querycore::segment_postings::serialize_postings;
use querycore::streamer::{TermDictionaryBuilder, TermInfo};
use querycore::term_weight::TermWeight;

/// Field `body` over documents `d0..d5`; only `d1, d3, d4` hold `alpha`.
fn body_segment(field: Field) -> SegmentReader {
    let mut builder = TermDictionaryBuilder::new();
    let mut postings_data: Vec<u8> = Vec::new();
    let mut add_term = |text: &str, docs: Vec<u32>, postings_data: &mut Vec<u8>, builder: &mut TermDictionaryBuilder| {
        let freqs: Vec<u32> = vec![1u32; docs.len()];
        let offset = postings_data.len() as u32;
        let doc_freq = docs.len() as u32;
        serialize_postings(&docs, &freqs, true, postings_data);
        let term = Term::from_field_text(field, text);
        builder.insert(
            term.value_bytes(),
            &TermInfo { doc_freq, postings_offset: offset, positions_offset: 0 },
        );
    };
    add_term("alpha", vec![1, 3, 4], &mut postings_data, &mut builder);
    add_term("beta", vec![0, 2, 5], &mut postings_data, &mut builder);
    let dict = builder.finish();
    let ii = InvertedIndex::new(dict, postings_data, Vec::new(), true, false, 6);
    SegmentReader::new(6, DeleteBitSet::empty(), vec![(field.0, ii)], vec![])
}

#[test]
fn test_term_query_basic() {
    let body = Field(0);
    let reader = body_segment(body);
    let weight = TermWeight {
        num_docs: 6,
        doc_freq: 3,
        term: Term::from_field_text(body, "alpha"),
        segment_postings_options: SegmentPostingsOption::Freq,
    };
    let mut scorer = weight.specialized_scorer(&reader).unwrap();
    let mut docs: Vec<u32> = Vec::new();
    let mut freqs: Vec<u32> = Vec::new();
    while scorer.postings.advance() {
        docs.push(scorer.postings.doc());
        freqs.push(scorer.postings.term_freq());
    }
    assert_eq!(docs, vec![1, 3, 4]);
    assert_eq!(freqs, vec![1, 1, 1]);
}

#[test]
fn test_term_query_missing_term() {
    // a missing term is not an error: the scorer is empty
    let body = Field(0);
    let reader = body_segment(body);
    let weight = TermWeight {
        num_docs: 6,
        doc_freq: 0,
        term: Term::from_field_text(body, "gamma"),
        segment_postings_options: SegmentPostingsOption::Freq,
    };
    let mut scorer = weight.specialized_scorer(&reader).unwrap();
    assert!(!scorer.postings.advance());
}

#[test]
fn test_term_query_respects_deletes() {
    let body = Field(0);
    let mut builder = TermDictionaryBuilder::new();
    let mut postings_data: Vec<u8> = Vec::new();
    let docs: Vec<u32> = vec![1, 3, 4];
    let freqs: Vec<u32> = vec![1, 1, 1];
    serialize_postings(&docs, &freqs, true, &mut postings_data);
    let term = Term::from_field_text(body, "alpha");
    builder.insert(
        term.value_bytes(),
        &TermInfo { doc_freq: 3, postings_offset: 0, positions_offset: 0 },
    );
    let ii = InvertedIndex::new(builder.finish(), postings_data, Vec::new(), true, false, 6);
    let deletes = DeleteBitSet::for_deleted_docs(&vec![3u32], 6);
    let reader = SegmentReader::new(6, deletes, vec![(body.0, ii)], vec![]);
    let weight = TermWeight {
        num_docs: 6,
        doc_freq: 3,
        term,
        segment_postings_options: SegmentPostingsOption::Freq,
    };
    let mut scorer = weight.specialized_scorer(&reader).unwrap();
    let mut seen: Vec<u32> = Vec::new();
    while scorer.postings.advance() {
        seen.push(scorer.postings.doc());
    }
    assert_eq!(seen, vec![1, 4]);
}
