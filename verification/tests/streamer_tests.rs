use querycore::streamer::{TermDictionaryBuilder, TermInfo, TermStreamerBuilderImpl};

fn dict_of(keys: Vec<&str>) -> querycore::streamer::TermDictionaryImpl {
    let mut builder = TermDictionaryBuilder::new();
    for (i, k) in keys.iter().enumerate() {
        let key: Vec<u8> = k.as_bytes().to_vec();
        builder.insert(
            &key,
            &TermInfo { doc_freq: (i + 1) as u32, postings_offset: 0, positions_offset: 0 },
        );
    }
    builder.finish()
}

fn keys_of(mut streamer: querycore::streamer::TermStreamerImpl) -> Vec<String> {
    let mut out = Vec::new();
    while streamer.advance() {
        out.push(String::from_utf8(streamer.key().clone()).unwrap());
    }
    out
}

#[test]
fn test_streamer_walks_in_order() {
    let dict = dict_of(vec!["abra", "abracadabra", "cab", "cabbage", "zoo"]);
    let streamer = TermStreamerBuilderImpl::new(&dict).into_stream();
    assert_eq!(
        keys_of(streamer),
        vec!["abra", "abracadabra", "cab", "cabbage", "zoo"]
    );
}

#[test]
fn test_streamer_bounds() {
    let dict = dict_of(vec!["abra", "abracadabra", "cab", "cabbage", "zoo"]);
    let lo: Vec<u8> = b"abracadabra".to_vec();
    let hi: Vec<u8> = b"cabbage".to_vec();
    let streamer = TermStreamerBuilderImpl::new(&dict).ge(&lo).lt(&hi).into_stream();
    assert_eq!(keys_of(streamer), vec!["abracadabra", "cab"]);
    let streamer = TermStreamerBuilderImpl::new(&dict).gt(&lo).le(&hi).into_stream();
    assert_eq!(keys_of(streamer), vec!["cab", "cabbage"]);
}

#[test]
fn test_streamer_empty_range() {
    let dict = dict_of(vec!["abra", "cab"]);
    let lo: Vec<u8> = b"x".to_vec();
    let hi: Vec<u8> = b"b".to_vec();
    let streamer = TermStreamerBuilderImpl::new(&dict).ge(&lo).lt(&hi).into_stream();
    assert_eq!(keys_of(streamer), Vec::<String>::new());
}

#[test]
fn test_dictionary_lookup() {
    let dict = dict_of(vec!["abra", "cab", "zoo"]);
    let key: Vec<u8> = b"cab".to_vec();
    let ti = dict.term_info(&key).unwrap();
    assert_eq!(ti.doc_freq, 2);
    let missing: Vec<u8> = b"dog".to_vec();
    assert!(dict.term_info(&missing).is_none());
}

#[test]
fn test_streamer_values() {
    let dict = dict_of(vec!["a", "b"]);
    let mut streamer = TermStreamerBuilderImpl::new(&dict).into_stream();
    assert!(streamer.advance());
    assert_eq!(streamer.value().doc_freq, 1);
    assert!(streamer.advance());
    assert_eq!(streamer.extract_value().doc_freq, 2);
}
