use sheltie::decode;
use sheltie::encode;
use sheltie::CodecError;
use sheltie::Index;

#[test]
fn codec_round_trip() {
    let mut index = Index::new();
    index.add(&String::from("two one two"));
    index.add(&String::from("one two three two three three"));

    let bytes = encode(&index);
    let back = decode(&bytes).unwrap();

    // term set, per-term postings and max_doc_id all survive
    assert_eq!(back.max_doc_id(), index.max_doc_id());
    assert_eq!(back.num_terms(), index.num_terms());
    for term in ["one", "two", "three"] {
        let a = index.get_postings_list(&term.to_string()).unwrap();
        let b = back.get_postings_list(&term.to_string()).unwrap();
        assert_eq!(a.len(), b.len());
        for i in 0..a.len() {
            assert_eq!(a.get_doc_id(i), b.get_doc_id(i));
            assert_eq!(a.get_freq(i), b.get_freq(i));
        }
    }
    assert!(back.get_postings_list(&"missing".to_string()).is_none());

    // re-encoding the decoded index reproduces the same bytes
    assert_eq!(encode(&back), bytes);
}

#[test]
fn codec_round_trip_empty_and_unicode() {
    let empty = Index::new();
    let bytes = encode(&empty);
    let back = decode(&bytes).unwrap();
    assert_eq!(back.max_doc_id(), 0);
    assert_eq!(back.num_terms(), 0);

    // terms are arbitrary UTF-8, not normalized
    let mut index = Index::new();
    index.add(&String::from("caf\u{e9} na\u{ef}ve caf\u{e9}"));
    let bytes = encode(&index);
    let back = decode(&bytes).unwrap();
    let pl = back
        .get_postings_list(&"caf\u{e9}".to_string())
        .unwrap();
    assert_eq!(pl.get_doc_id(0), Some(1));
    assert_eq!(pl.get_freq(0), Some(2));
    assert_eq!(encode(&back), bytes);
}

#[test]
fn codec_rejects_malformed_bytes() {
    // truncated header
    assert_eq!(decode(&vec![1, 2, 3]).err(), Some(CodecError::Malformed));
    // empty input
    assert_eq!(decode(&Vec::new()).err(), Some(CodecError::Malformed));

    // trailing garbage after a valid segment
    let mut index = Index::new();
    index.add(&String::from("abc"));
    let mut bytes = encode(&index);
    bytes.push(0);
    assert_eq!(decode(&bytes).err(), Some(CodecError::Malformed));

    // a length prefix overrunning the data
    let good = encode(&index);
    let mut bad = good.clone();
    bad[0] = 0xff; // claim far more terms than present
    assert!(decode(&bad).is_err());
}
