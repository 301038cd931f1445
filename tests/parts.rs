use perlin::handoff::HandOff;
use perlin::hierarchy::Hierarchy;
use perlin::language::{parse_u64, CanApply, NumberFilter, ToUsize};
use perlin::storage::{RamStorage, Storage, StorageError};
use perlin::vocabulary::Vocabulary;
use std::cell::RefCell;
use std::rc::Rc;

#[test]
fn hierarchy_keeps_children_in_order() {
    let mut h = Hierarchy::new();
    h.add_element(1, None);
    h.add_element(2, Some(1));
    h.add_element(3, Some(1));
    h.add_element(4, None);
    h.add_element(5, Some(3));
    assert_eq!(h.get_root_terms(), &[1, 4]);
    assert_eq!(h.get_child_terms(1), Some(&[2, 3][..]));
    assert_eq!(h.get_child_terms(3), Some(&[5][..]));
    assert_eq!(h.get_child_terms(2), Some(&[][..]));
    assert_eq!(h.get_child_terms(9), None);
}

#[test]
fn hand_off_passes_in_sequence() {
    let mut h = HandOff::new();
    assert!(!h.try_hand_off(1));
    assert!(h.try_hand_off(0));
    assert!(!h.try_hand_off(0));
    assert!(h.try_hand_off(1));
    assert_eq!(h.next_expected(), 2);
}

#[test]
fn ram_storage_stores_and_reports_missing_keys() {
    let mut s: RamStorage<Vec<u8>> = RamStorage::new();
    assert_eq!(s.get(3), Err(StorageError::KeyNotFound));
    assert_eq!(s.store(3, vec![1, 2]), Ok(()));
    assert_eq!(s.get(3), Ok(&vec![1, 2]));
    assert_eq!(s.store(3, vec![9]), Ok(()));
    assert_eq!(s.get(3), Ok(&vec![9]));
}

#[test]
fn storage_error_descriptions() {
    assert_eq!(StorageError::KeyNotFound.description(), "Key was not found in storage!");
    assert_eq!(StorageError::WriteError.description(), "An error occured while trying to write to storage!");
}

#[test]
fn vocabulary_assigns_ids_by_first_sight() {
    let mut v = Vocabulary::new();
    assert_eq!(v.get_or_add(40), 0);
    assert_eq!(v.get_or_add(7), 1);
    assert_eq!(v.get_or_add(40), 0);
    assert_eq!(v.get(7), Some(1));
    assert_eq!(v.get(8), None);
    assert_eq!(v.len(), 2);
}

#[test]
fn parse_unsigned_text() {
    assert_eq!(parse_u64("42"), Some(42));
    assert_eq!(parse_u64("+7"), Some(7));
    assert_eq!(parse_u64("007"), Some(7));
    assert_eq!(parse_u64("18446744073709551615"), Some(u64::MAX));
    assert_eq!(parse_u64("18446744073709551616"), None);
    assert_eq!(parse_u64(""), None);
    assert_eq!(parse_u64("+"), None);
    assert_eq!(parse_u64("-1"), None);
    assert_eq!(parse_u64("12a"), None);
}

struct Collect<T>(Rc<RefCell<Vec<T>>>);

impl<T> CanApply<T> for Collect<T> {
    fn apply(&mut self, input: T) {
        self.0.borrow_mut().push(input);
    }
}

impl<'a> CanApply<&'a str> for Collect<String> {
    fn apply(&mut self, input: &'a str) {
        self.0.borrow_mut().push(input.to_string());
    }
}

#[test]
fn number_filter_splits_numbers_from_words() {
    let numbers = Rc::new(RefCell::new(Vec::<u64>::new()));
    let words = Rc::new(RefCell::new(Vec::<String>::new()));
    let mut filter = NumberFilter::create(Collect(numbers.clone()), Collect(words.clone()));
    for token in ["12", "abc", "+3", "4x"] {
        filter.apply(token);
    }
    assert_eq!(*numbers.borrow(), vec![12, 3]);
    assert_eq!(*words.borrow(), vec!["abc".to_string(), "4x".to_string()]);
}

#[test]
fn to_usize_drops_words() {
    let numbers = Rc::new(RefCell::new(Vec::<usize>::new()));
    let mut to_usize = ToUsize::create(Collect(numbers.clone()));
    to_usize.apply("5");
    to_usize.apply("five");
    to_usize.apply("6");
    assert_eq!(*numbers.borrow(), vec![5, 6]);
}
