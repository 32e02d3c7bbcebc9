use sheltie::Index;

#[test]
fn index_test_index() {
    let index = {
        let mut index = Index::new();
        assert_eq!(index.max_doc_id(), 0);
        index.add(&String::from("two one two"));
        assert_eq!(index.max_doc_id(), 1);
        index.add(&String::from("one two three two three three"));
        assert_eq!(index.max_doc_id(), 2);
        index
    };

    let posting_list_one = index.get_postings_list(&"one".to_string()).unwrap();
    assert_eq!(posting_list_one.len(), 2);

    let posting_list_of_two = index.get_postings_list(&"two".to_string()).unwrap();
    assert_eq!(posting_list_of_two.len(), 2);

    let posting_list_of_three = index.get_postings_list(&"three".to_string()).unwrap();
    assert_eq!(posting_list_of_three.len(), 1);
}

#[test]
fn lib_test_index() {
    let index = {
        let mut index = Index::new();
        assert_eq!(index.max_doc_id(), 0);
        index.add(&String::from("two one two"));
        assert_eq!(index.max_doc_id(), 1);
        index.add(&String::from("one two three two three three"));
        assert_eq!(index.max_doc_id(), 2);
        index
    };

    let posting_list_one = index.get_postings_list(&"one".to_string()).unwrap();
    assert_eq!(posting_list_one.len(), 2);

    let posting_list_of_two = index.get_postings_list(&"two".to_string()).unwrap();
    assert_eq!(posting_list_of_two.len(), 2);

    let posting_list_of_three = index.get_postings_list(&"three".to_string()).unwrap();
    assert_eq!(posting_list_of_three.len(), 1);
}

#[test]
fn index_doc_ids_and_frequencies() {
    let mut index = Index::new();
    index.add(&String::from("two one two"));
    index.add(&String::from("one two three two three three"));

    // document ids are assigned 1, 2, ... and appear strictly increasing
    let two = index.get_postings_list(&"two".to_string()).unwrap();
    assert_eq!(two.get_doc_id(0), Some(1));
    assert_eq!(two.get_doc_id(1), Some(2));
    assert_eq!(two.get_doc_id(2), None);
    assert!(two.get_doc_id(0).unwrap() < two.get_doc_id(1).unwrap());

    // a term occurring k times in a document gets frequency k
    assert_eq!(two.get_freq(0), Some(2));
    assert_eq!(two.get_freq(1), Some(2));
    let three = index.get_postings_list(&"three".to_string()).unwrap();
    assert_eq!(three.get_doc_id(0), Some(2));
    assert_eq!(three.get_freq(0), Some(3));
    let one = index.get_postings_list(&"one".to_string()).unwrap();
    assert_eq!(one.get_freq(0), Some(1));
    assert_eq!(one.get_freq(1), Some(1));

    // a lookup miss is not an error
    assert!(index.get_postings_list(&"missing".to_string()).is_none());
}

#[test]
fn index_empty_text_still_counts_a_document() {
    let mut index = Index::new();
    index.add(&String::from(""));
    assert_eq!(index.max_doc_id(), 1);
    assert_eq!(index.num_terms(), 0);
}
