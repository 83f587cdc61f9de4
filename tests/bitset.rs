use inohashmap::bitset::{BitSet, TinySet};
use inohashmap::string_data::{OffsetInformation, StringData};

#[test]
fn tiny_set_basics() {
    let s = TinySet::empty();
    assert!(s.is_empty());
    let s = s.insert(5).insert(63).insert(0);
    assert!(!s.is_empty());
    let mut t = s;
    assert!(t.insert_mut(7));
    assert!(!t.insert_mut(7));
    assert_eq!(TinySet::singleton(3).union(TinySet::singleton(4)).0, 0b11000);
    let mut it = t.into_iter();
    assert_eq!(it.next(), Some(0));
    assert_eq!(it.next(), Some(5));
    assert_eq!(it.next(), Some(7));
    assert_eq!(it.next(), Some(63));
    assert_eq!(it.next(), None);
}

#[test]
fn pop_lowest_order() {
    let mut s = TinySet::singleton(40).insert(2);
    assert_eq!(s.pop_lowest(), Some(2));
    assert_eq!(s.pop_lowest(), Some(40));
    assert_eq!(s.pop_lowest(), None);
}

#[test]
fn bitset_insert_and_iter() {
    let mut b = BitSet::with_max_value(200);
    assert_eq!(b.len(), 0);
    b.insert(150);
    b.insert(3);
    b.insert(64);
    b.insert(3);
    assert_eq!(b.len(), 3);
    assert_eq!(b.iter(), vec![3, 64, 150]);
    let empty = BitSet::with_max_value(0);
    assert_eq!(empty.iter(), Vec::<u32>::new());
}

#[test]
fn string_data_round_trip() {
    let mut d = StringData::new();
    let a = d.insert("abcdefgh");
    let b = d.insert("12345678");
    assert_eq!(a.pos_in_bucket, 0);
    assert_eq!(b.pos_in_bucket, 1);
    assert!(!a.is_null());
    assert!(OffsetInformation::default().is_null());
    assert_eq!(d.read_string(b), b"12345678");
    assert_eq!(d.read_string(a), b"abcdefgh");
    d.shrink_to_fit();
    d.dbg();
    assert_eq!(d.read_string(a), b"abcdefgh");
}
