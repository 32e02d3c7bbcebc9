use sheltie::Index;
use sheltie::Searcher;

fn two_doc_index() -> Index {
    let mut index = Index::new();
    index.add(&String::from("two one two"));
    index.add(&String::from("one two three two three three"));
    index
}

#[test]
fn test_search() {
    let index = two_doc_index();
    let searcher = Searcher::new(&index);

    let results = searcher.search(&"one".to_string(), 10);
    assert_eq!(results.len(), 2);
    let results = searcher.search(&"two".to_string(), 10);
    assert_eq!(results.len(), 2);
    let results = searcher.search(&"one two".to_string(), 10);
    assert_eq!(results.len(), 2);
    let results = searcher.search(&"three".to_string(), 10);
    assert_eq!(results.len(), 1);
}

#[test]
fn test_index_search() {
    let index = two_doc_index();

    let results = index.search(&"one".to_string(), 10);
    assert_eq!(results.len(), 2);
    let results = index.search(&"two".to_string(), 10);
    assert_eq!(results.len(), 2);
    let results = index.search(&"one two".to_string(), 10);
    assert_eq!(results.len(), 2);
    let results = index.search(&"three".to_string(), 10);
    assert_eq!(results.len(), 1);
}

#[test]
fn search_scores_and_order() {
    let index = two_doc_index();
    let searcher = Searcher::new(&index);

    // single term: both documents score 1; ties order by doc id ascending
    let results = searcher.search(&"one".to_string(), 10);
    let pairs: Vec<(usize, u64)> = results.iter().map(|r| (r.doc_id, r.score)).collect();
    assert_eq!(pairs, vec![(1, 1), (2, 1)]);

    // two terms: each matching cursor contributes one point
    let results = searcher.search(&"one two".to_string(), 10);
    let pairs: Vec<(usize, u64)> = results.iter().map(|r| (r.doc_id, r.score)).collect();
    assert_eq!(pairs, vec![(1, 2), (2, 2)]);

    // a repeated term inserts one cursor per occurrence
    let results = searcher.search(&"one one".to_string(), 10);
    let pairs: Vec<(usize, u64)> = results.iter().map(|r| (r.doc_id, r.score)).collect();
    assert_eq!(pairs, vec![(1, 2), (2, 2)]);

    // a term in one document only
    let results = searcher.search(&"three".to_string(), 10);
    let pairs: Vec<(usize, u64)> = results.iter().map(|r| (r.doc_id, r.score)).collect();
    assert_eq!(pairs, vec![(2, 1)]);

    // unknown terms and k = 0 give empty results
    assert_eq!(searcher.search(&"missing".to_string(), 10).len(), 0);
    assert_eq!(searcher.search(&"one".to_string(), 0).len(), 0);
}

#[test]
fn search_top_k_keeps_best_scores() {
    let mut index = Index::new();
    index.add(&String::from("alpha"));
    index.add(&String::from("alpha beta"));
    index.add(&String::from("alpha beta gamma"));
    let searcher = Searcher::new(&index);

    // doc 3 matches three cursors, doc 2 two, doc 1 one
    let results = searcher.search(&"alpha beta gamma".to_string(), 2);
    let pairs: Vec<(usize, u64)> = results.iter().map(|r| (r.doc_id, r.score)).collect();
    assert_eq!(pairs, vec![(3, 3), (2, 2)]);

    // k larger than the number of matches returns them all
    let results = searcher.search(&"gamma".to_string(), 10);
    let pairs: Vec<(usize, u64)> = results.iter().map(|r| (r.doc_id, r.score)).collect();
    assert_eq!(pairs, vec![(3, 1)]);
}
