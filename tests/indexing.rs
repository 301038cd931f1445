use perlin::chunked::ChunkedStorage;
use perlin::handoff::HandOff;
use perlin::indexing::{invert_chunk, sort_and_group_chunk, IndexingError};
use perlin::posting::{decode_listing, write_listing};
use perlin::storage::StorageError;
use perlin::vbyte::vbyte_decode;

fn decode_from_storage(storage: &ChunkedStorage, term_id: u64) -> Vec<(u64, Vec<u32>)> {
    storage.read_listing(term_id).unwrap()
}

fn diagonal(range: std::ops::Range<u64>) -> Vec<(u64, u64, u32)> {
    range.map(|k| (k, k, k as u32)).collect()
}

fn diagonal_grouped(range: std::ops::Range<u64>) -> Vec<(u64, Vec<(u64, Vec<u32>)>)> {
    range.map(|i| (i, vec![(i, vec![i as u32])])).collect()
}

#[test]
fn basic_sorting() {
    // (term_id, doc_id, position)
    // Document 0: "0, 0, 1"
    // Document 1: "0"
    let chunk = vec![(0, 0, 1), (0, 0, 2), (1, 0, 3), (0, 1, 0)];
    assert_eq!(sort_and_group_chunk(&chunk),
               vec![(0, vec![(0, vec![1, 2]), (1, vec![0])]), (1, vec![(0, vec![3])])]);
}

#[test]
fn extended_sorting() {
    let sorted = sort_and_group_chunk(&diagonal(0..100));
    assert_eq!(sorted, diagonal_grouped(0..100));

    let sorted = sort_and_group_chunk(&diagonal(0..100));
    assert_eq!(sorted, diagonal_grouped(0..100));

    let sorted = sort_and_group_chunk(&diagonal(200..300));
    assert_eq!(sorted, diagonal_grouped(200..300));
}

/// Chunks sorted in any order reach the merger in sequence order.
fn hand_off_in_order(chunks: Vec<(u64, Vec<(u64, u64, u32)>)>) -> Vec<Vec<(u64, Vec<(u64, Vec<u32>)>)>> {
    let mut finished: Vec<(u64, Vec<(u64, Vec<(u64, Vec<u32>)>)>)> =
        chunks.into_iter().map(|(id, chunk)| (id, sort_and_group_chunk(&chunk))).collect();
    let mut handoff = HandOff::new();
    let mut merged = Vec::new();
    while !finished.is_empty() {
        let mut i = 0;
        while i < finished.len() {
            if handoff.try_hand_off(finished[i].0) {
                merged.push(finished.remove(i).1);
            } else {
                i += 1;
            }
        }
    }
    merged
}

#[test]
fn multi_sorting() {
    let merged = hand_off_in_order((0..2).map(|i| (i, diagonal(i..100))).collect());
    assert_eq!(merged[0], diagonal_grouped(0..100));
    assert_eq!(merged[1], diagonal_grouped(1..100));
}

#[test]
fn multi_sorting_asymetric() {
    let merged = hand_off_in_order(vec![(0, diagonal(0..10000)), (1, diagonal(1..10))]);
    assert_eq!(merged[0], diagonal_grouped(0..10000));
    assert_eq!(merged[1], diagonal_grouped(1..10));
}

#[test]
fn multi_sorting_messedup() {
    let merged = hand_off_in_order((0..2).map(|i| (1 - i, diagonal(i..100))).collect());
    assert_eq!(merged[0], diagonal_grouped(1..100));
    assert_eq!(merged[1], diagonal_grouped(0..100));
}

#[test]
fn basic_inverting() {
    let mut chunked_storage = ChunkedStorage::new(4096);
    invert_chunk(&mut chunked_storage, &diagonal_grouped(0..100)).unwrap();
    assert_eq!(chunked_storage.len(), 100);
    assert_eq!(decode_from_storage(&chunked_storage, 0), vec![(0, vec![0u32])]);
    assert_eq!(decode_from_storage(&chunked_storage, 99), vec![(99, vec![99u32])]);
}

#[test]
fn chunk_overflowing_inverting() {
    let mut chunked_storage = ChunkedStorage::new(64);
    let grouped: Vec<(u64, Vec<(u64, Vec<u32>)>)> = (0..10)
        .map(|i| (i, (i..i + 100).map(|k| (k, (0..10).collect::<Vec<_>>())).collect::<Vec<_>>()))
        .collect();
    invert_chunk(&mut chunked_storage, &grouped).unwrap();
    assert_eq!(chunked_storage.len(), 10);
    assert_eq!(decode_from_storage(&chunked_storage, 0),
               (0..100).map(|k| (k, (0..10).collect::<Vec<_>>())).collect::<Vec<_>>());
}

#[test]
fn overflowing_posting() {
    let mut chunked_storage = ChunkedStorage::new(4096);
    let grouped: Vec<(u64, Vec<(u64, Vec<u32>)>)> = (0..1)
        .map(|i| (i, (i..i + 1).map(|k| (k, (0..10000).collect::<Vec<_>>())).collect::<Vec<_>>()))
        .collect();
    invert_chunk(&mut chunked_storage, &grouped).unwrap();
    assert_eq!(chunked_storage.len(), 1);
    assert_eq!(decode_from_storage(&chunked_storage, 0),
               (0..1).map(|k| (k, (0..10000).collect::<Vec<_>>())).collect::<Vec<_>>());
}

#[test]
fn write_listing_basic() {
    let listing = vec![(0, vec![0, 1, 2]), (1, vec![1, 2, 3])];
    let mut bytes = Vec::new();
    write_listing(listing, 0, &mut bytes).unwrap();
    let data = vbyte_decode(bytes.as_slice()).unwrap();
    assert_eq!(data, vec![0, 3, 0, 1, 1, 1, 3, 1, 1, 1]);
}

#[test]
fn write_listing_real_data() {
    let listing = vec![(0, vec![16]),
                       (1, vec![12, 25]),
                       (2, vec![14, 21, 44]),
                       (3, vec![18]),
                       (4, vec![28, 38]),
                       (6, vec![11]),
                       (7, vec![19, 45]),
                       (8, vec![23]),
                       (9, vec![32]),
                       (10, vec![2, 4]),
                       (11, vec![18, 27]),
                       (12, vec![19]),
                       (13, vec![12, 29]),
                       (14, vec![33]),
                       (16, vec![3]),
                       (20, vec![32]),
                       (22, vec![2, 22, 29]),
                       (23, vec![32]),
                       (24, vec![4, 25]),
                       (25, vec![11]),
                       (27, vec![42]),
                       (28, vec![8, 14, 46]),
                       (29, vec![48]),
                       (30, vec![23]),
                       (31, vec![36]),
                       (33, vec![1]),
                       (36, vec![9]),
                       (37, vec![30]),
                       (39, vec![21]),
                       (43, vec![7, 9, 18]),
                       (44, vec![34]),
                       (45, vec![23]),
                       (46, vec![17, 35]),
                       (47, vec![33]),
                       (48, vec![19]),
                       (49, vec![1])];
    let mut bytes = Vec::new();
    write_listing(listing, 0, &mut bytes).unwrap();
    let data = vbyte_decode(bytes.as_slice()).unwrap();
    assert_eq!(data[..12].to_vec(), vec![0, 1, 16, 1, 2, 12, 13, 1, 3, 14, 7, 23]);
}

#[test]
fn write_listing_returns_last_doc_and_continues_from_base() {
    let mut bytes = Vec::new();
    assert_eq!(write_listing(vec![(5, vec![2]), (9, vec![0, 7])], 3, &mut bytes), Ok(9));
    assert_eq!(vbyte_decode(bytes.as_slice()).unwrap(), vec![2, 1, 2, 4, 2, 0, 7]);
    let mut empty = Vec::new();
    assert_eq!(write_listing(vec![], 42, &mut empty), Ok(42));
    assert!(empty.is_empty());
}

#[test]
fn listing_round_trip_through_numbers() {
    let listing = vec![(2, vec![1, 5, 9]), (7, vec![0]), (1000, vec![3, 300])];
    let mut bytes = Vec::new();
    write_listing(listing.clone(), 2, &mut bytes).unwrap();
    let values = vbyte_decode(bytes.as_slice()).unwrap();
    assert_eq!(decode_listing(&values, 2), Ok(listing));
}

#[test]
fn decode_listing_rejects_truncated_and_oversized() {
    // a posting that announces three positions but holds one
    assert_eq!(decode_listing(&[0, 3, 1], 0), Err(StorageError::ReadError));
    // a lone document delta
    assert_eq!(decode_listing(&[4], 0), Err(StorageError::ReadError));
    // a position beyond u32
    assert_eq!(decode_listing(&[0, 1, 1 << 33], 0), Err(StorageError::ReadError));
    // a document id beyond u64
    assert_eq!(decode_listing(&[u64::MAX, 0], 1), Err(StorageError::ReadError));
    assert_eq!(decode_listing(&[], 0), Ok(vec![]));
}

#[test]
fn invert_rejects_out_of_order_terms_and_documents() {
    let mut storage = ChunkedStorage::new(16);
    // term 1 before term 0 exists
    assert_eq!(invert_chunk(&mut storage, &vec![(1, vec![(0, vec![0])])]), Err(IndexingError::InvariantViolation));
    let mut storage = ChunkedStorage::new(16);
    invert_chunk(&mut storage, &vec![(0, vec![(5, vec![0])])]).unwrap();
    // document 5 again for term 0
    assert_eq!(invert_chunk(&mut storage, &vec![(0, vec![(5, vec![1])])]), Err(IndexingError::InvariantViolation));
    assert_eq!(storage.read_listing(0).unwrap(), vec![(5, vec![0])]);
}

#[test]
fn merging_chunks_in_turn_appends_listings() {
    let mut storage = ChunkedStorage::new(8);
    invert_chunk(&mut storage, &vec![(0, vec![(0, vec![0, 4])]), (1, vec![(0, vec![1])])]).unwrap();
    invert_chunk(&mut storage, &vec![(0, vec![(3, vec![2])]), (2, vec![(3, vec![0])])]).unwrap();
    assert_eq!(storage.len(), 3);
    assert_eq!(storage.get_last_doc_id(0), Ok(3));
    assert_eq!(storage.read_listing(0).unwrap(), vec![(0, vec![0, 4]), (3, vec![2])]);
    assert_eq!(storage.read_listing(1).unwrap(), vec![(0, vec![1])]);
    assert_eq!(storage.read_listing(2).unwrap(), vec![(3, vec![0])]);
}
