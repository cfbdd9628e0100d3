use querycore::segment_postings::{serialize_postings, BlockSegmentPostings};
use querycore::vint::{deserialize_vint, serialize_vint};

#[test]
fn test_vint_round_trip() {
    // decode(encode(n)) == n across the whole width, including the edges
    let samples: Vec<u64> = vec![
        0,
        1,
        127,
        128,
        129,
        16383,
        16384,
        1 << 21,
        u32::MAX as u64,
        (1u64 << 35) + 7,
        u64::MAX - 1,
        u64::MAX,
    ];
    for &n in samples.iter() {
        let mut out: Vec<u8> = Vec::new();
        serialize_vint(n, &mut out);
        let (value, end) = deserialize_vint(&out, 0).expect("well-formed");
        assert_eq!(value, n);
        assert_eq!(end, out.len());
    }
}

#[test]
fn test_vint_sequence_round_trip() {
    let mut out: Vec<u8> = Vec::new();
    let values: Vec<u64> = (0..1000).map(|i| (i * i * 31) as u64).collect();
    for &v in values.iter() {
        serialize_vint(v, &mut out);
    }
    let mut offset = 0usize;
    for &v in values.iter() {
        let (value, end) = deserialize_vint(&out, offset).expect("well-formed");
        assert_eq!(value, v);
        offset = end;
    }
    assert_eq!(offset, out.len());
}

#[test]
fn test_vint_rejects_truncated() {
    let mut out: Vec<u8> = Vec::new();
    serialize_vint(300, &mut out);
    out.pop();
    assert!(deserialize_vint(&out, 0).is_none());
}

#[test]
fn test_postings_round_trip_with_freqs() {
    let docs: Vec<u32> = (0u32..300).map(|i| i * 7 + 3).collect();
    let freqs: Vec<u32> = (0u32..300).map(|i| (i % 5) + 1).collect();
    let mut data: Vec<u8> = Vec::new();
    serialize_postings(&docs, &freqs, true, &mut data);
    let mut cursor = BlockSegmentPostings::from_data(300, data, true);
    let mut seen_docs: Vec<u32> = Vec::new();
    let mut seen_freqs: Vec<u32> = Vec::new();
    while cursor.advance() {
        let n = cursor.block_len();
        for i in 0..n {
            seen_docs.push(cursor.doc(i));
            seen_freqs.push(cursor.freq(i));
        }
    }
    assert_eq!(seen_docs, docs);
    assert_eq!(seen_freqs, freqs);
}
