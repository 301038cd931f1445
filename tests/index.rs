use perlin::chunked::CHUNK_SIZE;
use perlin::index::{index_documents, Index};
use perlin::query::Query;
use perlin::storage::StorageError;

fn terms(range: std::ops::Range<u64>) -> Vec<u64> {
    range.collect()
}

fn docs_of(postings: Vec<(u64, Vec<u32>)>) -> Vec<u64> {
    postings.into_iter().map(|p| p.0).collect()
}

#[test]
fn basic_indexing() {
    let mut index = Index::new(CHUNK_SIZE);

    assert_eq!(index.index_document(&terms(0..2000)), 0);
    assert_eq!(index.index_document(&terms(2000..4000)), 1);
    assert_eq!(index.index_document(&terms(500..600)), 2);
    index.commit();

    assert_eq!(docs_of(index.query_atom(0)), vec![0]);
}

#[test]
fn extended_indexing() {
    let mut index = Index::new(CHUNK_SIZE);
    for i in 0..200 {
        assert_eq!(index.index_document(&terms(i..i + 200)), i);
    }
    index.commit();

    assert_eq!(docs_of(index.query_atom(0)), vec![0]);
    assert_eq!(docs_of(index.query_atom(99)), (0..100).collect::<Vec<_>>());
}

#[test]
fn collection_indexing() {
    let mut index = Index::new(CHUNK_SIZE);
    let collection: Vec<Vec<u64>> = (0..200).map(|i| terms(i..i + 200)).collect();
    assert_eq!(index.index_collection(&collection), Vec::<u64>::new());

    assert_eq!(docs_of(index.query_atom(0)), vec![0]);
    assert_eq!(docs_of(index.query_atom(99)), (0..100).collect::<Vec<_>>());
}

#[test]
fn mutable_index() {
    let mut index = Index::new(CHUNK_SIZE);
    for i in 0..200 {
        assert_eq!(index.index_document(&terms(i..i + 200)), i);
    }
    index.commit();

    assert_eq!(docs_of(index.query_atom(0)), vec![0]);
    assert_eq!(docs_of(index.query_atom(99)), (0..100).collect::<Vec<_>>());
    assert_eq!(index.index_document(&terms(0..400)), 200);
    index.commit();
    assert_eq!(docs_of(index.query_atom(0)), vec![0, 200]);
}

#[test]
fn atom_query_over_ranges() {
    let mut index = Index::new(CHUNK_SIZE);
    let collection = vec![terms(0..10), terms(0..15), terms(10..34)];
    index.index_collection(&collection);
    assert_eq!(index.execute_query(&Query::Atom(4)), vec![0, 1]);
    assert_eq!(index.execute_query(&Query::Atom(12)), vec![1, 2]);
    assert_eq!(index.execute_query(&Query::Atom(1000)), Vec::<u64>::new());
}

// "a b c", "a c", "b c a" with a = 0, b = 1, c = 2
fn letters() -> Index {
    let mut index = Index::new(CHUNK_SIZE);
    index.index_document(&vec![0, 1, 2]);
    index.index_document(&vec![0, 2]);
    index.index_document(&vec![1, 2, 0]);
    index
}

#[test]
fn boolean_and_phrase_queries() {
    let index = letters();
    assert_eq!(index.execute_query(&Query::And(vec![Query::Atom(0), Query::Atom(1)])), vec![0, 2]);
    assert_eq!(index.execute_query(&Query::Or(vec![Query::Atom(0), Query::Atom(1)])), vec![0, 1, 2]);
    assert_eq!(index.execute_query(&Query::InOrder(vec![0, 1])), vec![0]);
}

#[test]
fn phrase_queries_follow_term_order() {
    let index = letters();
    assert_eq!(index.execute_query(&Query::InOrder(vec![1, 2])), vec![0, 2]);
    assert_eq!(index.execute_query(&Query::InOrder(vec![2, 0])), vec![2]);
    assert_eq!(index.execute_query(&Query::InOrder(vec![1, 2, 0])), vec![2]);
    assert_eq!(index.execute_query(&Query::InOrder(vec![0, 2])), vec![1]);
    assert_eq!(index.execute_query(&Query::InOrder(vec![2, 1])), Vec::<u64>::new());
}

#[test]
fn nested_queries() {
    let index = letters();
    // (a OR b) AND c: every document
    let a_or_b = Query::Or(vec![Query::Atom(0), Query::Atom(1)]);
    assert_eq!(index.execute_query(&Query::And(vec![a_or_b, Query::Atom(2)])), vec![0, 1, 2]);
    // "a b" OR "c a": documents 0 and 2
    let phrases = Query::Or(vec![Query::InOrder(vec![0, 1]), Query::InOrder(vec![2, 0])]);
    assert_eq!(index.execute_query(&phrases), vec![0, 2]);
    // b AND (a OR nothing known)
    let nested = Query::And(vec![Query::Atom(1), Query::Or(vec![Query::Atom(0), Query::Atom(9)])]);
    assert_eq!(index.execute_query(&nested), vec![0, 2]);
    // a AND (b AND c) AND a
    let deep = Query::And(vec![Query::Atom(0), Query::And(vec![Query::Atom(1), Query::Atom(2)]), Query::Atom(0)]);
    assert_eq!(index.execute_query(&deep), vec![0, 2]);
}

#[test]
fn queries_on_unknown_or_no_terms_are_empty() {
    let index = letters();
    assert_eq!(index.execute_query(&Query::And(vec![Query::Atom(0), Query::Atom(9)])), Vec::<u64>::new());
    assert_eq!(index.execute_query(&Query::Or(vec![Query::Atom(9), Query::Atom(1)])), vec![0, 2]);
    assert_eq!(index.execute_query(&Query::And(vec![])), Vec::<u64>::new());
    assert_eq!(index.execute_query(&Query::Or(vec![])), Vec::<u64>::new());
    assert_eq!(index.execute_query(&Query::InOrder(vec![])), Vec::<u64>::new());
    assert!(index.query_atom(9).is_empty());
}

#[test]
fn atom_query_keeps_positions() {
    let mut index = Index::new(CHUNK_SIZE);
    index.index_document(&vec![7, 3, 7, 7]);
    index.index_document(&vec![3]);
    assert_eq!(index.query_atom(7), vec![(0, vec![0, 2, 3])]);
    assert_eq!(index.query_atom(3), vec![(0, vec![1]), (1, vec![0])]);
    assert_eq!(index.doc_count(), 2);
    assert_eq!(index.term_count(), 2);
}

#[test]
fn sequential_and_chunked_indexing_agree() {
    let collection: Vec<Vec<u64>> = (0..600).map(|i| terms(i % 97..i % 97 + 20 + i % 5)).collect();
    let (n, storage, vocab) = index_documents(&collection, 64).unwrap();
    let mut one_by_one = Index::new(64);
    for doc in collection.iter() {
        one_by_one.index_document(doc);
    }
    assert_eq!(n, 600);
    for key in 0..130u64 {
        let expected = one_by_one.query_atom(key);
        match vocab.get(key) {
            Some(t) => {
                assert_eq!(storage.read_listing(t).unwrap(), expected);
                assert_eq!(storage.stream_bytes(t).unwrap().len() > 0, true);
            },
            None => assert!(expected.is_empty()),
        }
    }
}

#[test]
fn small_chunks_hold_long_listings() {
    let collection: Vec<Vec<u64>> = (0..300).map(|i| vec![1, i, 1, 2]).collect();
    let (_, storage, vocab) = index_documents(&collection, 3).unwrap();
    let t = vocab.get(1).unwrap();
    let listing = storage.read_listing(t).unwrap();
    assert_eq!(listing.len(), 300);
    assert_eq!(listing[0], (0, vec![0, 2]));
    assert_eq!(listing[1], (1, vec![0, 1, 2]));
    assert_eq!(listing[299], (299, vec![0, 2]));
}

#[test]
fn batching_leaves_chunks_byte_identical() {
    let collection: Vec<Vec<u64>> = (0..700).map(|i| vec![i % 7, i % 11, 3, i % 7]).collect();
    let (_, batched, batched_vocab) = index_documents(&collection, 16).unwrap();
    let mut single = Index::new(16);
    for doc in collection.iter() {
        single.index_document(doc);
    }
    let mut multi_page_terms = 0;
    for key in 0..11u64 {
        let a = batched.term_pages(batched_vocab.get(key).unwrap()).unwrap();
        let b = single.storage().term_pages(single.vocabulary().get(key).unwrap()).unwrap();
        assert_eq!(a, b);
        assert!(a.iter().all(|page| page.len() <= 16));
        if a.len() > 1 {
            multi_page_terms += 1;
        }
    }
    assert!(multi_page_terms > 0);
}

#[test]
fn a_record_longer_than_a_chunk_spans_linked_chunks() {
    let mut storage = perlin::chunked::ChunkedStorage::new(8);
    storage.new_chunk(0).unwrap();
    storage.append_listing(0, &vec![(0, vec![1]), (1, (0..20).collect())]).unwrap();
    let pages = storage.term_pages(0).unwrap();
    // [0, 1, 1] then the 22-byte record starts a new chunk and fills three more
    assert_eq!(pages.iter().map(|p| p.len()).collect::<Vec<_>>(), vec![3, 8, 8, 6]);
    assert_eq!(storage.read_listing(0).unwrap(), vec![(0, vec![1]), (1, (0..20).collect())]);
}

#[test]
fn chunked_storage_errors() {
    let mut storage = perlin::chunked::ChunkedStorage::new(8);
    assert_eq!(storage.new_chunk(1), Err(StorageError::WriteError));
    assert_eq!(storage.new_chunk(0), Ok(()));
    assert_eq!(storage.new_chunk(0), Err(StorageError::WriteError));
    assert_eq!(storage.append_listing(3, &vec![(0, vec![0])]), Err(StorageError::KeyNotFound));
    assert_eq!(storage.append_listing(0, &vec![(4, vec![2, 1])]), Err(StorageError::WriteError));
    assert_eq!(storage.append_listing(0, &vec![(4, vec![1, 2])]), Ok(()));
    assert_eq!(storage.append_listing(0, &vec![(4, vec![3])]), Err(StorageError::WriteError));
    assert_eq!(storage.get_last_doc_id(0), Ok(4));
    assert_eq!(storage.get_last_doc_id(1), Err(StorageError::KeyNotFound));
    assert_eq!(storage.read_listing(1), Err(StorageError::KeyNotFound));
    assert_eq!(storage.stream_bytes(0).unwrap(), vec![0x84, 0x82, 0x81, 0x81]);
}
