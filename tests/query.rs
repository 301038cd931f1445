use perlin::nary::{positional_intersect, BooleanOperator, NAryQueryIterator, PositionalOperator, QueryResultIterator};

fn cursor(docs: &[(u64, &[u32])], rel: u32) -> QueryResultIterator {
    QueryResultIterator::new(docs.iter().map(|(d, ps)| (*d, ps.to_vec())).collect(), rel)
}

#[test]
fn positional_intersect_walk() {
    let pairs = positional_intersect(&[1, 3, 4, 8], &[0, 4, 5, 7], (-1, 1));
    assert_eq!(pairs, vec![(1, 0), (3, 4), (4, 4), (4, 5), (8, 7)]);
}

#[test]
fn positional_intersect_single_offset() {
    assert_eq!(positional_intersect(&[0, 2, 5, 9], &[1, 3, 6, 7], (-1, -1)), vec![(0, 1), (2, 3), (5, 6)]);
    assert_eq!(positional_intersect(&[0, 2], &[], (0, 5)), vec![]);
    assert_eq!(positional_intersect(&[0, 1, 2], &[0, 1, 2], (-2, 2)).len(), 9);
    assert_eq!(positional_intersect(&[4], &[1], (2, 1)), vec![]);
}

#[test]
fn and_iterator_yields_common_documents() {
    let a = cursor(&[(1, &[0]), (3, &[1]), (5, &[2]), (9, &[0])], 0);
    let b = cursor(&[(3, &[4]), (4, &[0]), (9, &[7])], 0);
    let mut it = NAryQueryIterator::new(BooleanOperator::And, vec![a, b]);
    // the rarest operand
    assert_eq!(it.estimate_length(), 3);
    assert_eq!(it.peek(), Some(3));
    // the one computed ahead, and two ahead in the rarest operand
    assert_eq!(it.estimate_length(), 3);
    assert_eq!(it.next().map(|p| p.0), Some(3));
    assert_eq!(it.next().map(|p| p.0), Some(9));
    assert_eq!(it.next(), None);
}

#[test]
fn or_iterator_yields_all_documents_once() {
    let a = cursor(&[(1, &[0]), (3, &[1])], 0);
    let b = cursor(&[(0, &[2]), (3, &[4]), (8, &[0])], 0);
    let mut it = NAryQueryIterator::new(BooleanOperator::Or, vec![a, b]);
    // an upper bound of the union: all postings ahead in either operand
    assert_eq!(it.estimate_length(), 5);
    assert_eq!(it.peek(), Some(0));
    assert_eq!(it.estimate_length(), 5);
    assert_eq!(it.collect_docs(), vec![0, 1, 3, 8]);
}

#[test]
fn in_order_iterator_checks_offsets() {
    // "x y" at 4,5 in document 2 only; document 1 has them reversed
    let x = cursor(&[(1, &[3]), (2, &[0, 4])], 0);
    let y = cursor(&[(1, &[2]), (2, &[5]), (6, &[1])], 1);
    let mut it = NAryQueryIterator::new_positional(PositionalOperator::InOrder, vec![y, x]);
    assert_eq!(it.next().map(|p| p.0), Some(2));
    assert_eq!(it.next(), None);
}

#[test]
fn leaf_cursor_seeks() {
    let mut c = cursor(&[(1, &[0]), (4, &[1, 2]), (7, &[3])], 0);
    assert_eq!(c.estimate_length(), 3);
    assert_eq!(c.next_seek(3), Some((4, vec![1, 2])));
    assert_eq!(c.peek(), Some(7));
    assert_eq!(c.next_seek(8), None);
    assert_eq!(c.next(), None);
}

#[test]
fn seeking_skips_lower_documents() {
    let a = cursor(&[(1, &[0]), (3, &[1]), (5, &[2]), (9, &[0])], 0);
    let b = cursor(&[(1, &[1]), (3, &[4]), (5, &[0]), (9, &[7])], 0);
    let mut it = NAryQueryIterator::new(BooleanOperator::And, vec![a, b]);
    assert_eq!(it.peek_seek(2), Some(3));
    assert_eq!(it.peek(), Some(3));
    assert_eq!(it.next_seek(4).map(|p| p.0), Some(5));
    assert_eq!(it.next_seek(0).map(|p| p.0), Some(9));
    assert_eq!(it.peek_seek(0), None);
    assert_eq!(it.next(), None);
}
