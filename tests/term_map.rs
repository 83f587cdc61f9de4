use inohashmap::term_map::{compute_table_size, TermHashMap};

#[test]
fn test_hash_map() {
    let mut hash_map: TermHashMap = TermHashMap::new(18);
    {
        hash_map.mutate_or_create("abc".as_bytes(), |opt_val: Option<u32>| {
            assert_eq!(opt_val, None);
            3u32
        });
    }
    {
        hash_map.mutate_or_create("abcd".as_bytes(), |opt_val: Option<u32>| {
            assert_eq!(opt_val, None);
            4u32
        });
    }
    {
        hash_map.mutate_or_create("abc".as_bytes(), |opt_val: Option<u32>| {
            assert_eq!(opt_val, Some(3u32));
            5u32
        });
    }
}

#[test]
fn mutate_or_create_sees_none_then_value() {
    let mut map = TermHashMap::new(2);
    map.mutate_or_create(b"abc", |v: Option<u32>| {
        assert_eq!(v, None);
        3
    });
    map.mutate_or_create(b"abc", |v: Option<u32>| {
        assert_eq!(v, Some(3));
        v.unwrap()
    });
    assert_eq!(map.len(), 1);
}

#[test]
fn term_map_counts_across_resizes() {
    let mut map = TermHashMap::new(0);
    for round in 0..3u32 {
        for i in 0..300u32 {
            let key = format!("term{}", i);
            map.mutate_or_create(key.as_bytes(), |v: Option<u32>| match v {
                None => {
                    assert_eq!(round, 0);
                    1
                }
                Some(c) => {
                    assert_eq!(c, round);
                    c + 1
                }
            });
        }
    }
    assert_eq!(map.len(), 300);
    assert!(map.mem_usage() >= 300 * 8);
}

#[test]
fn term_map_empty_key_and_long_key() {
    let mut map = TermHashMap::new(1);
    let long = vec![7u8; 1000];
    map.mutate_or_create(b"", |_| 1);
    map.mutate_or_create(&long, |_| 2);
    map.mutate_or_create(b"", |v| {
        assert_eq!(v, Some(1));
        10
    });
    map.mutate_or_create(&long, |v| {
        assert_eq!(v, Some(2));
        20
    });
    assert_eq!(map.len(), 2);
    assert!(map.can_insert(b"more"));
}

#[test]
fn table_size() {
    assert_eq!(compute_table_size(0), 8);
    assert_eq!(compute_table_size(10), 8192);
    assert_eq!(compute_table_size(40), 8 << 40);
    let map = TermHashMap::new(10);
    assert_eq!(map.mem_usage(), compute_table_size(10));
}
