use inohashmap::hasher::{fnv32a_yoshimitsu_hasher, fnv32a_yoshimitsu_triad};
use inohashmap::StringHashMap;

fn collect_keys(map: &StringHashMap<u32>) -> Vec<Vec<u8>> {
    let mut out = Vec::new();
    let mut it = map.keys();
    while let Some(k) = it.next() {
        out.push(k.to_vec());
    }
    out
}

#[test]
fn values() {
    let mut hashmap = StringHashMap::<u32>::new();
    hashmap.get_or_create("blub", 1);

    let val: u32 = hashmap.values().iter().sum();
    assert_eq!(val, 1);
}

#[test]
fn simple() {
    let mut hashmap = StringHashMap::<u32>::new();
    let val = hashmap.get_or_create("blub1", 0);
    assert_eq!(*val, 0);
    *val += 1;

    let val = hashmap.get_or_create("blub2", 2);
    assert_eq!(*val, 2);
}

#[test]
fn get_or_create() {
    let mut hashmap = StringHashMap::<u32>::new();
    let val = hashmap.get_or_create("blub", 0);
    assert_eq!(*val, 0);
    *val += 1;

    let val = hashmap.get_or_create("blub", 0);
    assert_eq!(*val, 1);
}

#[test]
fn test_resize() {
    let mut hashmap = StringHashMap::<u32>::with_power_of_two_size(1);
    hashmap.get_or_create("blub1", 3);
    hashmap.get_or_create("blub2", 4);

    assert_eq!(hashmap.get_or_create("blub1", 3), &3);

    let val = hashmap.get_or_create("blub3", 5);
    assert_eq!(*val, 5);

    assert_eq!(hashmap.get_or_create("blub1", 0), &3);
    assert_eq!(hashmap.get_or_create("blub2", 0), &4);
    assert_eq!(hashmap.get_or_create("blub3", 0), &5);
}

#[test]
fn test_get() {
    let mut hashmap = StringHashMap::<u32>::with_power_of_two_size(1);
    hashmap.get_or_create("blub1", 3);
    hashmap.get_or_create("blub2", 4);
    hashmap.get_or_create("blub3", 5);
    assert_eq!(hashmap.get_or_create("blub1", 0), &3);
    assert_eq!(hashmap.get_or_create("blub2", 0), &4);
    assert_eq!(hashmap.get_mut("blub3"), Some(&mut 5));
    assert_eq!(hashmap.get("blub3"), Some(&5));
    assert_eq!(hashmap.get("blub1000"), None);
    assert_eq!(hashmap.get_mut("blub1000"), None);

    hashmap.shrink_to_fit();
}

#[test]
fn test_len() {
    let mut hashmap = StringHashMap::<u32>::with_power_of_two_size(1);
    hashmap.get_or_create("blub1", 3);
    hashmap.get_or_create("blub2", 4);
    hashmap.get_or_create("blub3", 5);
    assert_eq!(hashmap.len(), 3);
}

#[test]
fn write_then_read() {
    let mut hashmap = StringHashMap::<u32>::new();
    hashmap.get_or_create("alpha", 17);
    assert_eq!(hashmap.get("alpha"), Some(&17));
}

#[test]
fn first_write_wins() {
    let mut hashmap = StringHashMap::<u32>::new();
    assert_eq!(*hashmap.get_or_create("k", 1), 1);
    assert_eq!(*hashmap.get_or_create("k", 2), 1);
    assert_eq!(hashmap.get("k"), Some(&1));
    assert_eq!(hashmap.len(), 1);
}

#[test]
fn increment_through_reference() {
    let mut hashmap = StringHashMap::<u32>::new();
    let val = hashmap.get_or_create("blub1", 0);
    assert_eq!(*val, 0);
    *val += 1;
    assert_eq!(*hashmap.get_or_create("blub1", 999), 1);
}

#[test]
fn resize_transparency() {
    let words: Vec<String> = (0..200).map(|i| format!("word{}", i % 150)).collect();
    let mut small = StringHashMap::<u32>::with_power_of_two_size(1);
    let mut large = StringHashMap::<u32>::with_power_of_two_size(12);
    for (i, w) in words.iter().enumerate() {
        small.get_or_create(w, i as u32);
        large.get_or_create(w, i as u32);
    }
    for w in words.iter() {
        assert_eq!(small.get(w), large.get(w));
    }
    assert_eq!(small.len(), 150);
    assert_eq!(large.len(), 150);
}

#[test]
fn no_duplication() {
    let mut hashmap = StringHashMap::<u32>::new();
    hashmap.get_or_create("same", 1);
    let keys_before = collect_keys(&hashmap);
    for _ in 0..10 {
        hashmap.get_or_create("same", 2);
    }
    assert_eq!(hashmap.len(), 1);
    assert_eq!(collect_keys(&hashmap), keys_before);
}

#[test]
fn key_round_trip() {
    let mut hashmap = StringHashMap::<u32>::with_power_of_two_size(1);
    let inserted = ["", "a", "héllo", "a much longer key with spaces", "blub1"];
    for (i, k) in inserted.iter().enumerate() {
        hashmap.get_or_create(k, i as u32);
    }
    let mut keys: Vec<Vec<u8>> = collect_keys(&hashmap);
    keys.sort();
    let mut expected: Vec<Vec<u8>> = inserted.iter().map(|k| k.as_bytes().to_vec()).collect();
    expected.sort();
    assert_eq!(keys, expected);
    for (k, v) in hashmap.iter() {
        let pos = inserted.iter().position(|x| x.as_bytes() == k.as_slice()).unwrap();
        assert_eq!(v, pos as u32);
    }
}

#[test]
fn missing_on_empty() {
    let mut hashmap = StringHashMap::<u32>::new();
    assert_eq!(hashmap.get("missing"), None);
    assert_eq!(hashmap.get_mut("missing"), None);
    assert_eq!(hashmap.len(), 0);
}

#[test]
fn count_after_distinct_inserts() {
    let mut hashmap = StringHashMap::<u32>::with_power_of_two_size(2);
    for i in 0..1000u32 {
        hashmap.get_or_create(&format!("key-{}", i), i);
    }
    assert_eq!(hashmap.len(), 1000);
    assert_eq!(hashmap.iter().len(), 1000);
    assert_eq!(hashmap.values().iter().map(|v| *v as u64).sum::<u64>(), 999 * 1000 / 2);
}

#[test]
fn can_insert_ordinary_key() {
    let hashmap = StringHashMap::<u32>::new();
    assert!(hashmap.can_insert("blub"));
}

#[test]
fn hash_determinism() {
    let a = fnv32a_yoshimitsu_triad(7, b"some bytes to hash, more than 24 of them");
    let b = fnv32a_yoshimitsu_triad(7, b"some bytes to hash, more than 24 of them");
    assert_eq!(a, b);
    assert_ne!(fnv32a_yoshimitsu_triad(8, b"some bytes"), fnv32a_yoshimitsu_triad(7, b"some bytes"));
}

fn reference_hash(seed: u32, bytes: &[u8]) -> u32 {
    const PRIME: u32 = 709_607;
    let rd32 = |i: usize| u32::from_le_bytes([bytes[i], bytes[i + 1], bytes[i + 2], bytes[i + 3]]);
    let rd16 = |i: usize| u16::from_le_bytes([bytes[i], bytes[i + 1]]) as u32;
    let mut len = bytes.len();
    let mut a = seed ^ 2_166_136_261u32;
    let mut b = 2_166_136_261u32.wrapping_add(len as u32);
    let mut c = 2_166_136_261u32;
    let mut p = 0;
    while len >= 24 {
        a = (a ^ (rd32(p).rotate_left(5) ^ rd32(p + 4))).wrapping_mul(PRIME);
        b = (b ^ (rd32(p + 8).rotate_left(5) ^ rd32(p + 12))).wrapping_mul(PRIME);
        c = (c ^ (rd32(p + 16).rotate_left(5) ^ rd32(p + 20))).wrapping_mul(PRIME);
        len -= 24;
        p += 24;
    }
    if p == 0 {
        a = (a ^ c.rotate_left(5)).wrapping_mul(PRIME);
    }
    if len & 16 != 0 {
        a = (a ^ (rd32(p).rotate_left(5) ^ rd32(p + 4))).wrapping_mul(PRIME);
        b = (b ^ (rd32(p + 8).rotate_left(5) ^ rd32(p + 12))).wrapping_mul(PRIME);
        p += 16;
    }
    if len & 8 != 0 {
        a = (a ^ rd32(p)).wrapping_mul(PRIME);
        b = (b ^ rd32(p + 4)).wrapping_mul(PRIME);
        p += 8;
    }
    if len & 4 != 0 {
        a = (a ^ rd16(p)).wrapping_mul(PRIME);
        b = (b ^ rd16(p + 2)).wrapping_mul(PRIME);
        p += 4;
    }
    if len & 2 != 0 {
        a = (a ^ rd16(p)).wrapping_mul(PRIME);
        p += 2;
    }
    if len & 1 != 0 {
        a = (a ^ bytes[p] as u32).wrapping_mul(PRIME);
    }
    a = (a ^ b.rotate_left(5)).wrapping_mul(PRIME);
    a ^ (a >> 16)
}

#[test]
fn hash_matches_layout_for_all_lengths() {
    let data: Vec<u8> = (0..100u32).map(|i| (i * 37 + 11) as u8).collect();
    for n in 0..data.len() {
        assert_eq!(fnv32a_yoshimitsu_triad(3, &data[..n]), reference_hash(3, &data[..n]));
    }
    assert_eq!(fnv32a_yoshimitsu_hasher(b"blub"), reference_hash(0xD8AF_FD71, b"blub"));
}

#[test]
fn hash_of_empty_input() {
    assert_eq!(fnv32a_yoshimitsu_triad(0, b""), reference_hash(0, b""));
}

#[test]
fn keys_follow_slot_order() {
    let mut hashmap = StringHashMap::<u32>::with_power_of_two_size(1);
    hashmap.get_or_create("blub1", 3);
    hashmap.get_or_create("blub2", 4);
    hashmap.get_or_create("blub3", 5);
    assert_eq!(hashmap.get_or_create("blub1", 0), &3);
    let entries = hashmap.iter();
    let keys = collect_keys(&hashmap);
    assert_eq!(keys.len(), 3);
    assert_eq!(keys, entries.iter().map(|(k, _)| k.clone()).collect::<Vec<_>>());
    assert_eq!(hashmap.values(), entries.iter().map(|(_, v)| *v).collect::<Vec<_>>());
    let mut sorted = entries.clone();
    sorted.sort();
    assert_eq!(
        sorted,
        vec![(b"blub1".to_vec(), 3), (b"blub2".to_vec(), 4), (b"blub3".to_vec(), 5)]
    );
}
