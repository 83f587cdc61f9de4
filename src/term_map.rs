//! A hash map from byte-string keys to `u32` values where each key and its
//! value are stored together in an arena.
//!
//! A record is `[key length: u16 LE][key bytes][value: u32 LE]`; a slot holds
//! the record's address and the key's hash, so most mismatches are rejected
//! without reading the arena. A bitset mirrors which slots are occupied.
//! Probing is the same linear scheme as [`crate::string_map`]; the table
//! doubles before an insert once more than half of it is in use.
use vstd::prelude::*;
use vstd::arithmetic::power2::{is_pow2, pow2, lemma2_to64, lemma_pow2_unfold, lemma_pow2_strictly_increases};
use crate::bitset::BitSet;
use crate::memory_arena::{
    Addr, MemoryArena, NULL_ADDR, le16, le32, u16_of, u32_of, lemma_le16_round_trip,
    lemma_le32_round_trip,
};
use crate::string_map::{
    count_occupied, probe_slot, probe_dist, home, lemma_home, lemma_probe_slot, lemma_probe_dist,
    lemma_count_le, lemma_empty_slot, lemma_count_update, lemma_count_empty, lemma_is_pow2_double,
    MAX_SLOTS, bytes_eq,
};

verus! {

/// The murmurhash2 of a byte string.
pub uninterp spec fn murmur2(key: Seq<u8>) -> u32;

/// Relies on murmurhash32::murmurhash2: the hash depends on the key bytes
/// alone.
#[verifier::external_body]
fn murmur_hash(key: &[u8]) -> (r: u32)
    ensures
        r == murmur2(key@),
{
    murmurhash32::murmurhash2(key)
}

/// Bytes taken by one slot: an address and a hash, four bytes each.
pub const KEY_VALUE_SIZE: usize = 8;

/// The memory, in bytes, of a table of `2^num_bits` slots; the result must
/// fit in a `usize`.
pub fn compute_table_size(num_bits: usize) -> (r: usize)
    requires
        pow2(num_bits as nat) * KEY_VALUE_SIZE <= usize::MAX,
    ensures
        r == pow2(num_bits as nat) * KEY_VALUE_SIZE,
{
    let mut slots: usize = 1;
    let mut k: usize = 0;
    proof {
        lemma2_to64();
    }
    while k < num_bits
        invariant
            k <= num_bits,
            slots == pow2(k as nat),
            pow2(num_bits as nat) * KEY_VALUE_SIZE <= usize::MAX,
        decreases num_bits - k,
    {
        proof {
            lemma_pow2_unfold((k + 1) as nat);
            if k + 1 < num_bits {
                lemma_pow2_strictly_increases((k + 1) as nat, num_bits as nat);
            }
        }
        slots = slots * 2;
        k = k + 1;
    }
    slots * KEY_VALUE_SIZE
}

/// One slot: the record's address (null when empty) and the key's hash.
#[derive(Clone, Copy)]
pub struct KeyValue {
    pub key_value_addr: Addr,
    pub hash: u32,
}

impl Default for KeyValue {
    fn default() -> (r: KeyValue)
        ensures
            r.key_value_addr.0 == NULL_ADDR,
            r.hash == 0,
    {
        KeyValue { key_value_addr: Addr::null_pointer(), hash: 0u32 }
    }
}

impl KeyValue {
    /// Whether the slot is empty.
    pub fn is_empty(self) -> (r: bool)
        ensures
            r == (self.key_value_addr.0 == NULL_ADDR),
    {
        self.key_value_addr.is_null()
    }
}

/// Whether slot `j` of `t` is occupied.
pub open spec fn kv_occ(t: Seq<KeyValue>, j: int) -> bool {
    t[j].key_value_addr.0 != NULL_ADDR
}

/// The slots of `t` as present / absent entries.
pub open spec fn opt_slots(t: Seq<KeyValue>) -> Seq<Option<KeyValue>> {
    Seq::new(t.len(), |j: int| if kv_occ(t, j) { Some(t[j]) } else { None })
}

/// `heap` holds, at `a`, the length and bytes of key `k` followed by room
/// for a value.
pub open spec fn entry_at(heap: Seq<u8>, a: int, k: Seq<u8>) -> bool {
    &&& k.len() <= u16::MAX
    &&& 0 <= a
    &&& a + 2 + k.len() + 4 <= heap.len()
    &&& heap.subrange(a, a + 2) == le16(k.len() as u16)
    &&& heap.subrange(a + 2, a + 2 + k.len()) == k
}

/// The value stored in the record of key `k` at `a`.
pub open spec fn value_of(heap: Seq<u8>, a: int, k: Seq<u8>) -> u32 {
    u32_of(heap.subrange(a + 2 + k.len(), a + 2 + k.len() + 4))
}

/// Occupied slots hold hashed, non-overlapping records of their keys, and
/// the key-to-slot map agrees with the slots.
#[verifier::opaque]
pub open spec fn tm_keys_agree(
    heap: Seq<u8>,
    t: Seq<KeyValue>,
    sk: Seq<Seq<u8>>,
    ks: Map<Seq<u8>, int>,
) -> bool {
    &&& forall|j: int|
        0 <= j < t.len() && #[trigger] kv_occ(t, j) ==> entry_at(
            heap,
            t[j].key_value_addr.0 as int,
            sk[j],
        ) && t[j].hash == murmur2(sk[j]) && ks.contains_key(sk[j]) && ks[sk[j]] == j
    &&& forall|k: Seq<u8>| #[trigger]
        ks.contains_key(k) ==> 0 <= ks[k] < t.len() && kv_occ(t, ks[k]) && sk[ks[k]] == k
    &&& forall|i: int, j: int|
        0 <= i < t.len() && 0 <= j < t.len() && i != j && #[trigger] kv_occ(t, i) && #[trigger] kv_occ(
            t,
            j,
        ) ==> t[i].key_value_addr.0 + 6 + sk[i].len() <= t[j].key_value_addr.0
            || t[j].key_value_addr.0 + 6 + sk[j].len() <= t[i].key_value_addr.0
}

/// Every slot probed before an occupied slot, for its stored hash, is
/// occupied.
#[verifier::opaque]
pub open spec fn tm_probes_full(t: Seq<KeyValue>) -> bool {
    forall|j: int, e: int|
        0 <= j < t.len() && #[trigger] kv_occ(t, j) && 0 <= e < probe_dist(t[j].hash, j, t.len() as int)
            ==> #[trigger] kv_occ(t, probe_slot(t[j].hash, e, t.len() as int))
}

/// What `m` holds for `k`, if anything.
pub open spec fn current(m: Map<Seq<u8>, u32>, k: Seq<u8>) -> Option<u32> {
    if m.contains_key(k) {
        Some(m[k])
    } else {
        None
    }
}

proof fn lemma_tm_put(
    heap: Seq<u8>,
    t: Seq<KeyValue>,
    sk: Seq<Seq<u8>>,
    ks: Map<Seq<u8>, int>,
    pos: int,
    k: Seq<u8>,
    kv: KeyValue,
)
    requires
        tm_keys_agree(heap, t, sk, ks),
        tm_probes_full(t),
        sk.len() == t.len(),
        0 <= pos < t.len(),
        !kv_occ(t, pos),
        kv.key_value_addr.0 != NULL_ADDR,
        !ks.contains_key(k),
        entry_at(heap, kv.key_value_addr.0 as int, k),
        kv.hash == murmur2(k),
        forall|j: int|
            0 <= j < t.len() && #[trigger] kv_occ(t, j) ==> t[j].key_value_addr.0 + 6 + sk[j].len()
                <= kv.key_value_addr.0 || kv.key_value_addr.0 + 6 + k.len() <= t[j].key_value_addr.0,
        forall|e: int|
            0 <= e < probe_dist(kv.hash, pos, t.len() as int) ==> #[trigger] kv_occ(
                t,
                probe_slot(kv.hash, e, t.len() as int),
            ),
    ensures
        tm_keys_agree(heap, t.update(pos, kv), sk.update(pos, k), ks.insert(k, pos)),
        tm_probes_full(t.update(pos, kv)),
        opt_slots(t.update(pos, kv)) == opt_slots(t).update(pos, Some(kv)),
{
    reveal(tm_keys_agree);
    reveal(tm_probes_full);
    let t2 = t.update(pos, kv);
    let sk2 = sk.update(pos, k);
    let ks2 = ks.insert(k, pos);
    let n = t.len() as int;
    assert(opt_slots(t2) =~= opt_slots(t).update(pos, Some(kv)));
    assert forall|j: int| 0 <= j < n implies #[trigger] kv_occ(t2, j) == (kv_occ(t, j) || j == pos) by {}
    assert forall|j: int| 0 <= j < n && #[trigger] kv_occ(t2, j) implies entry_at(
        heap,
        t2[j].key_value_addr.0 as int,
        sk2[j],
    ) && t2[j].hash == murmur2(sk2[j]) && ks2.contains_key(sk2[j]) && ks2[sk2[j]] == j by {
        if j != pos {
            assert(kv_occ(t, j));
        }
    }
    assert forall|kk: Seq<u8>| #[trigger] ks2.contains_key(kk) implies 0 <= ks2[kk] < n
        && kv_occ(t2, ks2[kk]) && sk2[ks2[kk]] == kk by {
        if kk != k {
            assert(ks.contains_key(kk));
        }
    }
    assert forall|i: int, j: int|
        0 <= i < n && 0 <= j < n && i != j && #[trigger] kv_occ(t2, i) && #[trigger] kv_occ(t2, j)
            implies t2[i].key_value_addr.0 + 6 + sk2[i].len() <= t2[j].key_value_addr.0
            || t2[j].key_value_addr.0 + 6 + sk2[j].len() <= t2[i].key_value_addr.0 by {
        if i != pos && j != pos {
            assert(kv_occ(t, i) && kv_occ(t, j));
        } else if i == pos {
            assert(kv_occ(t, j));
        } else {
            assert(kv_occ(t, i));
        }
    }
    assert forall|j: int, e: int|
        0 <= j < n && #[trigger] kv_occ(t2, j) && 0 <= e < probe_dist(t2[j].hash, j, n) implies #[trigger] kv_occ(
        t2,
        probe_slot(t2[j].hash, e, n),
    ) by {
        lemma_probe_dist(t2[j].hash, n, j);
        lemma_probe_slot(t2[j].hash, n, e);
        if j != pos {
            assert(kv_occ(t, j));
            assert(kv_occ(t, probe_slot(t[j].hash, e, n)));
        } else {
            assert(kv_occ(t, probe_slot(kv.hash, e, n)));
        }
    }
}

/// Appending to the arena keeps every record where it was.
proof fn lemma_tm_heap_append(
    heap: Seq<u8>,
    extra: Seq<u8>,
    t: Seq<KeyValue>,
    sk: Seq<Seq<u8>>,
    ks: Map<Seq<u8>, int>,
)
    requires
        tm_keys_agree(heap, t, sk, ks),
    ensures
        tm_keys_agree(heap + extra, t, sk, ks),
        forall|j: int|
            0 <= j < t.len() && #[trigger] kv_occ(t, j) ==> value_of(
                heap + extra,
                t[j].key_value_addr.0 as int,
                sk[j],
            ) == value_of(heap, t[j].key_value_addr.0 as int, sk[j]),
{
    reveal(tm_keys_agree);
    let h2 = heap + extra;
    assert forall|j: int| 0 <= j < t.len() && #[trigger] kv_occ(t, j) implies entry_at(
        h2,
        t[j].key_value_addr.0 as int,
        sk[j],
    ) && value_of(h2, t[j].key_value_addr.0 as int, sk[j]) == value_of(
        heap,
        t[j].key_value_addr.0 as int,
        sk[j],
    ) by {
        let a = t[j].key_value_addr.0 as int;
        let l = sk[j].len() as int;
        assert(h2.subrange(a, a + 2) =~= heap.subrange(a, a + 2));
        assert(h2.subrange(a + 2, a + 2 + l) =~= heap.subrange(a + 2, a + 2 + l));
        assert(h2.subrange(a + 2 + l, a + 6 + l) =~= heap.subrange(a + 2 + l, a + 6 + l));
    }
}

/// Overwriting the value of the record in slot `q` keeps every record in
/// place and every other value.
proof fn lemma_tm_heap_write(
    heap: Seq<u8>,
    t: Seq<KeyValue>,
    sk: Seq<Seq<u8>>,
    ks: Map<Seq<u8>, int>,
    q: int,
    v: u32,
)
    requires
        tm_keys_agree(heap, t, sk, ks),
        0 <= q < t.len(),
        kv_occ(t, q),
    ensures
        ({
            let va = t[q].key_value_addr.0 + 2 + sk[q].len();
            let h2 = heap.subrange(0, va) + le32(v) + heap.subrange(va + 4, heap.len() as int);
            &&& tm_keys_agree(h2, t, sk, ks)
            &&& value_of(h2, t[q].key_value_addr.0 as int, sk[q]) == v
            &&& forall|j: int|
                0 <= j < t.len() && j != q && #[trigger] kv_occ(t, j) ==> value_of(
                    h2,
                    t[j].key_value_addr.0 as int,
                    sk[j],
                ) == value_of(heap, t[j].key_value_addr.0 as int, sk[j])
        }),
{
    reveal(tm_keys_agree);
    let va = t[q].key_value_addr.0 + 2 + sk[q].len();
    let h2 = heap.subrange(0, va) + le32(v) + heap.subrange(va + 4, heap.len() as int);
    assert(h2.len() == heap.len());
    assert forall|i: int| 0 <= i < heap.len() && !(va <= i < va + 4) implies h2[i] == heap[i] by {}
    assert forall|j: int| 0 <= j < t.len() && #[trigger] kv_occ(t, j) implies entry_at(
        h2,
        t[j].key_value_addr.0 as int,
        sk[j],
    ) && (j != q ==> value_of(h2, t[j].key_value_addr.0 as int, sk[j]) == value_of(
        heap,
        t[j].key_value_addr.0 as int,
        sk[j],
    )) by {
        let a = t[j].key_value_addr.0 as int;
        let l = sk[j].len() as int;
        if j != q {
            assert(kv_occ(t, q));
        }
        assert(h2.subrange(a, a + 2) =~= heap.subrange(a, a + 2));
        assert(h2.subrange(a + 2, a + 2 + l) =~= heap.subrange(a + 2, a + 2 + l));
        if j != q {
            assert(h2.subrange(a + 2 + l, a + 6 + l) =~= heap.subrange(a + 2 + l, a + 6 + l));
        }
    }
    assert(h2.subrange(va, va + 4) =~= le32(v));
    lemma_le32_round_trip(v);
}

/// A map from byte-string keys to `u32` values, with keys and values in an
/// arena.
pub struct TermHashMap {
    table: Vec<KeyValue>,
    heap: MemoryArena,
    mask: usize,
    occupied: BitSet,
    len: usize,
    slot_keys: Ghost<Seq<Seq<u8>>>,
    key_slots: Ghost<Map<Seq<u8>, int>>,
}

impl View for TermHashMap {
    type V = Map<Seq<u8>, u32>;

    closed spec fn view(&self) -> Map<Seq<u8>, u32> {
        Map::new(
            |k: Seq<u8>| self.key_slots@.contains_key(k),
            |k: Seq<u8>| value_of(self.heap@, self.table@[self.key_slots@[k]].key_value_addr.0 as int, k),
        )
    }
}

impl TermHashMap {
    /// Number of slots.
    pub closed spec fn capacity(&self) -> nat {
        self.table@.len()
    }

    /// Number of keys stored.
    pub closed spec fn spec_len(&self) -> nat {
        self.len as nat
    }

    /// Bytes used in the arena.
    pub closed spec fn heap_len(&self) -> nat {
        self.heap@.len()
    }

    /// Well-formedness: slots, bitset, arena and ghost bookkeeping agree.
    pub closed spec fn wf(&self) -> bool {
        let n = self.table@.len() as int;
        &&& 0 < n <= MAX_SLOTS
        &&& is_pow2(n)
        &&& self.mask == n - 1
        &&& self.heap@.len() < u32::MAX
        &&& self.slot_keys@.len() == n
        &&& self.len == count_occupied(opt_slots(self.table@))
        &&& self.len == 0 || 2 * (self.len - 1) <= n
        &&& self.key_slots@.dom().finite()
        &&& self.key_slots@.dom().len() == self.len
        &&& self.occupied.wf()
        &&& self.occupied.max_value() == n
        &&& forall|j: u32|
            j < n ==> (#[trigger] self.occupied@.contains(j) == kv_occ(self.table@, j as int))
        &&& tm_keys_agree(self.heap@, self.table@, self.slot_keys@, self.key_slots@)
        &&& tm_probes_full(self.table@)
    }

    /// There is room to add `k`: its record fits below the null address, its
    /// length fits in 16 bits, and a table that must grow can still double.
    pub open spec fn has_room(&self, k: Seq<u8>) -> bool {
        &&& k.len() <= u16::MAX
        &&& self.heap_len() + k.len() + 7 < u32::MAX
        &&& self.capacity() < 2 * self.spec_len() ==> 2 * self.capacity() <= MAX_SLOTS
    }

    /// Whether `key` can be added without exceeding the map's limits.
    pub fn can_insert(&self, key: &[u8]) -> (r: bool)
        requires
            self.wf(),
        ensures
            r == self.has_room(key@),
    {
        proof {
            lemma_count_le(opt_slots(self.table@));
        }
        let klen = key.len();
        let n = self.table.len();
        let len_ok = klen <= 0xFFFF;
        let heap_ok = klen <= 0xFFFF_FFF7 && self.heap.len() < 0xFFFF_FFF8 - klen;
        let grow_ok = n as u64 >= 2 * (self.len as u64) || n <= MAX_SLOTS / 2;
        len_ok && heap_ok && grow_ok
    }

    fn with_slots(size: usize) -> (r: TermHashMap)
        requires
            0 < size <= MAX_SLOTS,
            is_pow2(size as int),
        ensures
            r.wf(),
            r@ == Map::<Seq<u8>, u32>::empty(),
            r.spec_len() == 0,
            r.heap_len() == 0,
            r.capacity() == size,
    {
        let mut table: Vec<KeyValue> = Vec::new();
        let mut i: usize = 0;
        while i < size
            invariant
                i <= size,
                table@.len() == i,
                forall|j: int| 0 <= j < i ==> (#[trigger] table@[j]).key_value_addr.0 == NULL_ADDR,
            decreases size - i,
        {
            table.push(KeyValue { key_value_addr: Addr::null_pointer(), hash: 0u32 });
            i = i + 1;
        }
        proof {
            assert forall|j: int| 0 <= j < table@.len() implies (#[trigger] opt_slots(table@)[j]).is_none() by {}
            lemma_count_empty(opt_slots(table@));
        }
        let r = TermHashMap {
            table,
            heap: MemoryArena::new(),
            mask: size - 1,
            occupied: BitSet::with_max_value(size as u32),
            len: 0,
            slot_keys: Ghost(Seq::new(size as nat, |j: int| Seq::empty())),
            key_slots: Ghost(Map::empty()),
        };
        assert(r@ =~= Map::<Seq<u8>, u32>::empty());
        proof {
            reveal(tm_keys_agree);
            reveal(tm_probes_full);
        }
        r
    }

    /// An empty map with `2^num_bucket_power_of_2` slots; the power is at
    /// most 31.
    pub fn new(num_bucket_power_of_2: usize) -> (r: TermHashMap)
        requires
            num_bucket_power_of_2 <= 31,
        ensures
            r.wf(),
            r@ == Map::<Seq<u8>, u32>::empty(),
            r.spec_len() == 0,
            r.capacity() == pow2(num_bucket_power_of_2 as nat),
    {
        let mut size: usize = 1;
        let mut k: usize = 0;
        proof {
            lemma2_to64();
            reveal(is_pow2);
        }
        while k < num_bucket_power_of_2
            invariant
                k <= num_bucket_power_of_2 <= 31,
                size == pow2(k as nat),
                is_pow2(size as int),
            decreases num_bucket_power_of_2 - k,
        {
            proof {
                lemma2_to64();
                lemma_pow2_unfold((k + 1) as nat);
                if k + 1 < 31 {
                    lemma_pow2_strictly_increases((k + 1) as nat, 31);
                }
                lemma_is_pow2_double(size as int);
            }
            size = size * 2;
            k = k + 1;
        }
        proof {
            lemma2_to64();
            if k < 31 {
                lemma_pow2_strictly_increases(k as nat, 31);
            }
        }
        Self::with_slots(size)
    }

    /// Memory, in bytes, taken by the slots.
    pub fn mem_usage(&self) -> (r: usize)
        requires
            self.wf(),
            self.capacity() * KEY_VALUE_SIZE <= usize::MAX,
        ensures
            r == self.capacity() * KEY_VALUE_SIZE,
    {
        self.table.len() * KEY_VALUE_SIZE
    }

    /// Number of keys stored.
    pub fn len(&self) -> (r: usize)
        requires
            self.wf(),
        ensures
            r == self.spec_len(),
            r == self@.len(),
    {
        assert(self@.dom() =~= self.key_slots@.dom());
        self.len
    }

    /// Whether more than half of the slots are in use.
    fn is_saturated(&self) -> (r: bool)
        requires
            self.wf(),
        ensures
            r == (self.table@.len() < 2 * self.len),
    {
        proof {
            lemma_count_le(opt_slots(self.table@));
        }
        (self.table.len() as u64) < (self.len as u64) * 2
    }

    /// The key stored at `addr` and the address of its value.
    fn get_key_value(&self, addr: Addr, Ghost(k): Ghost<Seq<u8>>) -> (r: (&[u8], Addr))
        requires
            self.wf(),
            entry_at(self.heap@, addr.0 as int, k),
        ensures
            r.0@ == k,
            r.1.0 == addr.0 + 2 + k.len(),
    {
        proof {
            lemma_le16_round_trip(k.len() as u16);
        }
        let key_bytes_len = self.heap.read_u16(addr) as usize;
        let key_bytes = self.heap.slice(addr.offset(2), key_bytes_len);
        (key_bytes, addr.offset(2u32 + key_bytes_len as u32))
    }

    /// The address of the value at `addr` if the key stored there is
    /// `target_key`.
    fn get_value_addr_if_key_match(&self, target_key: &[u8], addr: Addr, Ghost(k): Ghost<Seq<u8>>) -> (r: Option<Addr>)
        requires
            self.wf(),
            entry_at(self.heap@, addr.0 as int, k),
        ensures
            r.is_some() == (k == target_key@),
            r.is_some() ==> r.unwrap().0 == addr.0 + 2 + k.len(),
    {
        let (stored_key, value_addr) = self.get_key_value(addr, Ghost(k));
        if bytes_eq(stored_key, target_key) {
            Some(value_addr)
        } else {
            None
        }
    }

    proof fn lemma_tm_slot(&self, j: int)
        requires
            self.wf(),
            0 <= j < self.table@.len(),
            kv_occ(self.table@, j),
        ensures
            entry_at(self.heap@, self.table@[j].key_value_addr.0 as int, self.slot_keys@[j]),
            self.table@[j].hash == murmur2(self.slot_keys@[j]),
            self.key_slots@.contains_key(self.slot_keys@[j]),
            self.key_slots@[self.slot_keys@[j]] == j,
    {
        reveal(tm_keys_agree);
    }

    proof fn lemma_tm_key_slot(&self, k: Seq<u8>)
        requires
            self.wf(),
            self.key_slots@.contains_key(k),
        ensures
            0 <= self.key_slots@[k] < self.table@.len(),
            kv_occ(self.table@, self.key_slots@[k]),
            self.slot_keys@[self.key_slots@[k]] == k,
    {
        reveal(tm_keys_agree);
    }

    proof fn lemma_tm_absent(&self, key: Seq<u8>, h: u32, i: int)
        requires
            self.wf(),
            h == murmur2(key),
            0 <= i < self.table@.len(),
            !kv_occ(self.table@, probe_slot(h, i, self.table@.len() as int)),
            forall|e: int|
                0 <= e < i ==> #[trigger] self.slot_keys@[probe_slot(h, e, self.table@.len() as int)]
                    != key,
            forall|e: int| 0 <= e < i ==> #[trigger] kv_occ(self.table@, probe_slot(h, e, self.table@.len() as int)),
        ensures
            !self.key_slots@.contains_key(key),
    {
        reveal(tm_keys_agree);
        reveal(tm_probes_full);
        let ni = self.table@.len() as int;
        if self.key_slots@.contains_key(key) {
            let j = self.key_slots@[key];
            assert(kv_occ(self.table@, j));
            assert(self.table@[j].hash == h);
            let dj = probe_dist(h, j, ni);
            lemma_probe_dist(h, ni, j);
            if dj < i {
                assert(kv_occ(self.table@, probe_slot(h, dj, ni)));
            } else if dj > i {
                assert(kv_occ(self.table@, probe_slot(h, i, ni)));
            }
        }
    }

    /// Finds the slot holding `key`, or the empty slot where it would go.
    fn find_slot(&self, key: &[u8], h: u32) -> (r: (bool, usize))
        requires
            self.wf(),
            h == murmur2(key@),
            self.len < self.table@.len(),
        ensures
            r.1 < self.table@.len(),
            r.0 ==> self.key_slots@.contains_key(key@) && self.key_slots@[key@] == r.1,
            !r.0 ==> !self.key_slots@.contains_key(key@) && !kv_occ(self.table@, r.1 as int) && forall|
                e: int,
            |
                0 <= e < probe_dist(h, r.1 as int, self.table@.len() as int) ==> #[trigger] kv_occ(
                    self.table@,
                    probe_slot(h, e, self.table@.len() as int),
                ),
    {
        let n = self.table.len();
        let s0 = ((h as u64 + 1) % (n as u64)) as usize;
        let ghost ni = n as int;
        proof {
            lemma_count_le(opt_slots(self.table@));
            lemma_home(h, ni);
            reveal(home);
        }
        let ghost empty_j = lemma_empty_slot(opt_slots(self.table@));
        let ghost d = probe_dist(h, empty_j, ni);
        proof {
            lemma_probe_dist(h, ni, empty_j);
        }
        let mut i: usize = 0;
        loop
            invariant
                self.wf(),
                n == self.table@.len(),
                ni == n as int,
                s0 == home(h, ni),
                0 <= s0 < n,
                h == murmur2(key@),
                0 <= empty_j < ni,
                !kv_occ(self.table@, empty_j),
                d == probe_dist(h, empty_j, ni),
                0 <= d < ni,
                i <= d,
                forall|e: int| 0 <= e < i ==> #[trigger] kv_occ(self.table@, probe_slot(h, e, ni)),
                forall|e: int| 0 <= e < i ==> #[trigger] self.slot_keys@[probe_slot(h, e, ni)] != key@,
            decreases n - i,
        {
            proof {
                lemma_probe_slot(h, ni, i as int);
            }
            let pos = if s0 + i < n {
                s0 + i
            } else {
                s0 + i - n
            };
            assert(pos == probe_slot(h, i as int, ni));
            let kv = self.table[pos];
            if kv.is_empty() {
                proof {
                    self.lemma_tm_absent(key@, h, i as int);
                }
                return (false, pos);
            }
            proof {
                self.lemma_tm_slot(pos as int);
            }
            if kv.hash == h {
                let m = self.get_value_addr_if_key_match(key, kv.key_value_addr, Ghost(self.slot_keys@[pos as int]));
                if m.is_some() {
                    return (true, pos);
                }
            }
            proof {
                if i == d {
                    assert(probe_slot(h, d, ni) == empty_j);
                }
                assert forall|e: int| 0 <= e < i + 1 implies #[trigger] kv_occ(
                    self.table@,
                    probe_slot(h, e, ni),
                ) by {
                    if e == i {
                        assert(kv_occ(self.table@, probe_slot(h, i as int, ni)));
                    }
                }
                assert forall|e: int| 0 <= e < i + 1 implies #[trigger] self.slot_keys@[probe_slot(h, e, ni)] != key@ by {
                }
            }
            i = i + 1;
        }
    }

    /// The first empty slot on the probe path of hash `h`.
    fn empty_slot_for(&self, h: u32) -> (pos: usize)
        requires
            self.wf(),
            self.len < self.table@.len(),
        ensures
            pos < self.table@.len(),
            !kv_occ(self.table@, pos as int),
            forall|e: int|
                0 <= e < probe_dist(h, pos as int, self.table@.len() as int) ==> #[trigger] kv_occ(
                    self.table@,
                    probe_slot(h, e, self.table@.len() as int),
                ),
    {
        let n = self.table.len();
        let s0 = ((h as u64 + 1) % (n as u64)) as usize;
        let ghost ni = n as int;
        proof {
            lemma_count_le(opt_slots(self.table@));
            lemma_home(h, ni);
            reveal(home);
        }
        let ghost empty_j = lemma_empty_slot(opt_slots(self.table@));
        let ghost d = probe_dist(h, empty_j, ni);
        proof {
            lemma_probe_dist(h, ni, empty_j);
        }
        let mut i: usize = 0;
        loop
            invariant
                self.wf(),
                n == self.table@.len(),
                ni == n as int,
                s0 == home(h, ni),
                0 <= s0 < n,
                0 <= empty_j < ni,
                !kv_occ(self.table@, empty_j),
                d == probe_dist(h, empty_j, ni),
                0 <= d < ni,
                i <= d,
                forall|e: int| 0 <= e < i ==> #[trigger] kv_occ(self.table@, probe_slot(h, e, ni)),
            decreases n - i,
        {
            proof {
                lemma_probe_slot(h, ni, i as int);
            }
            let pos = if s0 + i < n {
                s0 + i
            } else {
                s0 + i - n
            };
            assert(pos == probe_slot(h, i as int, ni));
            if self.table[pos].is_empty() {
                return pos;
            }
            proof {
                if i == d {
                    assert(probe_slot(h, d, ni) == empty_j);
                }
                assert forall|e: int| 0 <= e < i + 1 implies #[trigger] kv_occ(
                    self.table@,
                    probe_slot(h, e, ni),
                ) by {
                    if e == i {
                        assert(kv_occ(self.table@, probe_slot(h, i as int, ni)));
                    }
                }
            }
            i = i + 1;
        }
    }

    /// Fills the empty slot `bucket`, found by probing for `hash`, with the
    /// record of `k` at `key_value_addr`.
    fn set_bucket(&mut self, hash: u32, key_value_addr: Addr, bucket: usize, Ghost(k): Ghost<Seq<u8>>)
        requires
            old(self).wf(),
            bucket < old(self).table@.len(),
            !kv_occ(old(self).table@, bucket as int),
            key_value_addr.0 != NULL_ADDR,
            !old(self).key_slots@.contains_key(k),
            entry_at(old(self).heap@, key_value_addr.0 as int, k),
            hash == murmur2(k),
            2 * old(self).len <= old(self).table@.len(),
            forall|j: int|
                0 <= j < old(self).table@.len() && #[trigger] kv_occ(old(self).table@, j)
                    ==> old(self).table@[j].key_value_addr.0 + 6 + old(self).slot_keys@[j].len()
                    <= key_value_addr.0 || key_value_addr.0 + 6 + k.len()
                    <= old(self).table@[j].key_value_addr.0,
            forall|e: int|
                0 <= e < probe_dist(hash, bucket as int, old(self).table@.len() as int)
                    ==> #[trigger] kv_occ(
                    old(self).table@,
                    probe_slot(hash, e, old(self).table@.len() as int),
                ),
        ensures
            final(self).wf(),
            final(self)@ == old(self)@.insert(k, value_of(old(self).heap@, key_value_addr.0 as int, k)),
            final(self).len == old(self).len + 1,
            final(self).heap@ == old(self).heap@,
            final(self).table@.len() == old(self).table@.len(),
            final(self).table@ == old(self).table@.update(bucket as int, KeyValue { key_value_addr, hash }),
            final(self).key_slots@ == old(self).key_slots@.insert(k, bucket as int),
            final(self).slot_keys@ == old(self).slot_keys@.update(bucket as int, k),
    {
        let ghost old_self = *self;
        let kv = KeyValue { key_value_addr, hash };
        proof {
            lemma_tm_put(self.heap@, self.table@, self.slot_keys@, self.key_slots@, bucket as int, k, kv);
            lemma_count_update(opt_slots(self.table@), bucket as int, kv);
            lemma_count_le(opt_slots(self.table@));
            assert(opt_slots(self.table@)[bucket as int].is_none());
        }
        self.occupied.insert(bucket as u32);
        self.len = self.len + 1;
        self.table.set(bucket, kv);
        self.slot_keys = Ghost(self.slot_keys@.update(bucket as int, k));
        self.key_slots = Ghost(self.key_slots@.insert(k, bucket as int));
        proof {
            assert(self.key_slots@.dom() =~= old_self.key_slots@.dom().insert(k));
            assert forall|j: u32| j < self.table@.len() implies (#[trigger] self.occupied@.contains(j) == kv_occ(self.table@, j as int)) by {
                if j != bucket {
                    assert(old_self.occupied@.contains(j) == kv_occ(old_self.table@, j as int));
                }
            }
            reveal(tm_keys_agree);
            assert forall|kk: Seq<u8>| #[trigger] self.key_slots@.contains_key(kk) && kk != k implies self.key_slots@[kk] != bucket by {
                assert(old_self.key_slots@.contains_key(kk));
            }
            assert(self@ =~= old_self@.insert(k, value_of(old_self.heap@, key_value_addr.0 as int, k)));
        }
    }

    /// Doubles the table and re-places every entry by its stored hash; the
    /// arena is not touched.
    fn resize(&mut self)
        requires
            old(self).wf(),
            2 * old(self).table@.len() <= MAX_SLOTS,
        ensures
            final(self).wf(),
            final(self)@ == old(self)@,
            final(self).len == old(self).len,
            final(self).heap@ == old(self).heap@,
            final(self).table@.len() == 2 * old(self).table@.len(),
    {
        let n = self.table.len();
        proof {
            lemma_is_pow2_double(n as int);
            lemma_count_le(opt_slots(self.table@));
        }
        let mut fresh = Self::with_slots(n * 2);
        std::mem::swap(&mut fresh.heap, &mut self.heap);
        let ghost heap = fresh.heap@;
        let ghost old_t = self.table@;
        let ghost old_sk = self.slot_keys@;
        let ghost old_ks = self.key_slots@;
        let ghost old_view = old(self)@;
        let ghost total = self.len;
        proof {
            reveal(tm_keys_agree);
            assert(opt_slots(old_t).subrange(0, 0) =~= Seq::<Option<KeyValue>>::empty());
        }
        assert(fresh.wf());
        let mut j: usize = 0;
        while j < n
            invariant
                fresh.wf(),
                fresh.heap@ == heap,
                fresh.table@.len() == 2 * n,
                heap.len() < u32::MAX,
                j <= n,
                self.table@ == old_t,
                old_t.len() == n,
                old_sk.len() == n,
                fresh.len == count_occupied(opt_slots(old_t).subrange(0, j as int)),
                total == count_occupied(opt_slots(old_t)),
                total <= n,
                tm_keys_agree(heap, old_t, old_sk, old_ks),
                old_view == Map::new(
                    |k: Seq<u8>| old_ks.contains_key(k),
                    |k: Seq<u8>| value_of(heap, old_t[old_ks[k]].key_value_addr.0 as int, k),
                ),
                forall|p: int|
                    0 <= p < 2 * n && #[trigger] kv_occ(fresh.table@, p) ==> old_ks.contains_key(
                        fresh.slot_keys@[p],
                    ) && old_ks[fresh.slot_keys@[p]] < j && fresh.table@[p]
                        == old_t[old_ks[fresh.slot_keys@[p]]],
                forall|jj: int|
                    0 <= jj < j && #[trigger] kv_occ(old_t, jj) ==> fresh.key_slots@.contains_key(
                        old_sk[jj],
                    ),
            decreases n - j,
        {
            assert(opt_slots(old_t).subrange(0, j + 1).drop_last() =~= opt_slots(old_t).subrange(0, j as int));
            let kv = self.table[j];
            if !kv.is_empty() {
                let ghost k = old_sk[j as int];
                proof {
                    reveal(tm_keys_agree);
                    assert(kv_occ(old_t, j as int));
                    lemma_count_le(opt_slots(old_t).subrange(0, j as int));
                    if fresh.key_slots@.contains_key(k) {
                        let p = fresh.key_slots@[k];
                        fresh.lemma_tm_key_slot(k);
                        assert(kv_occ(fresh.table@, p));
                    }
                    assert forall|p: int|
                        0 <= p < fresh.table@.len() && #[trigger] kv_occ(fresh.table@, p)
                            implies fresh.table@[p].key_value_addr.0 + 6 + fresh.slot_keys@[p].len()
                            <= kv.key_value_addr.0 || kv.key_value_addr.0 + 6 + k.len()
                            <= fresh.table@[p].key_value_addr.0 by {
                        let jp = old_ks[fresh.slot_keys@[p]];
                        assert(kv_occ(old_t, jp));
                        assert(old_sk[jp] == fresh.slot_keys@[p]);
                    }
                }
                let pos = fresh.empty_slot_for(kv.hash);
                let ghost before = fresh;
                fresh.set_bucket(kv.hash, kv.key_value_addr, pos, Ghost(k));
                proof {
                    assert forall|p: int|
                        0 <= p < 2 * n && #[trigger] kv_occ(fresh.table@, p) implies old_ks.contains_key(
                        fresh.slot_keys@[p],
                    ) && old_ks[fresh.slot_keys@[p]] < j + 1 && fresh.table@[p]
                        == old_t[old_ks[fresh.slot_keys@[p]]] by {
                        if p != pos {
                            assert(kv_occ(before.table@, p));
                        }
                    }
                    assert forall|jj: int|
                        0 <= jj < j + 1 && #[trigger] kv_occ(old_t, jj) implies fresh.key_slots@.contains_key(
                        old_sk[jj],
                    ) by {
                        if jj != j {
                            assert(before.key_slots@.contains_key(old_sk[jj]));
                        }
                    }
                }
            } else {
                proof {
                    assert(!kv_occ(old_t, j as int));
                }
            }
            j = j + 1;
        }
        proof {
            assert(opt_slots(old_t).subrange(0, n as int) =~= opt_slots(old_t));
            reveal(tm_keys_agree);
            assert forall|k: Seq<u8>| old_ks.contains_key(k) implies #[trigger] fresh.key_slots@.contains_key(k) by {
                assert(kv_occ(old_t, old_ks[k]));
            }
            assert forall|k: Seq<u8>| #[trigger] fresh.key_slots@.contains_key(k) implies old_ks.contains_key(k) && fresh@[k] == old_view[k] by {
                fresh.lemma_tm_key_slot(k);
            }
            assert(fresh@ =~= old_view);
        }
        *self = fresh;
    }

    /// Creates or updates the value of `key`.
    ///
    /// `updater` receives the current value, or `None` for a new key, and
    /// returns the value to store. The table first doubles if more than half
    /// of it is in use.
    pub fn mutate_or_create<F: Fn(Option<u32>) -> u32>(&mut self, key: &[u8], updater: F)
        requires
            old(self).wf(),
            old(self).has_room(key@),
            forall|o: Option<u32>| #[trigger] updater.requires((o,)),
        ensures
            final(self).wf(),
            final(self)@.contains_key(key@),
            updater.ensures((current(old(self)@, key@),), final(self)@[key@]),
            final(self)@ == old(self)@.insert(key@, final(self)@[key@]),
            final(self).spec_len() == old(self).spec_len() + if old(self)@.contains_key(key@) {
                0int
            } else {
                1int
            },
            final(self).heap_len() == old(self).heap_len() + if old(self)@.contains_key(key@) {
                0int
            } else {
                key@.len() + 6int
            },
            final(self).capacity() == old(self).capacity() || final(self).capacity() == 2
                * old(self).capacity(),
    {
        proof {
            lemma_count_le(opt_slots(self.table@));
        }
        if self.is_saturated() {
            self.resize();
        }
        let hash = murmur_hash(key);
        let (found, bucket) = self.find_slot(key, hash);
        let ghost mid = *self;
        if found {
            let kv = self.table[bucket];
            proof {
                self.lemma_tm_key_slot(key@);
                self.lemma_tm_slot(bucket as int);
            }
            let val_addr = self.get_key_value(kv.key_value_addr, Ghost(key@)).1;
            let v = self.heap.read(val_addr);
            let new_v = updater(Some(v));
            proof {
                lemma_tm_heap_write(self.heap@, self.table@, self.slot_keys@, self.key_slots@, bucket as int, new_v);
            }
            self.heap.write_at(val_addr, new_v);
            proof {
                assert forall|kk: Seq<u8>| #[trigger] mid.key_slots@.contains_key(kk) && kk != key@ implies self@[kk] == mid@[kk] by {
                    mid.lemma_tm_key_slot(kk);
                    let p = mid.key_slots@[kk];
                    assert(kv_occ(mid.table@, p));
                }
                assert(self@ =~= mid@.insert(key@, new_v));
            }
        } else {
            let val = updater(None);
            proof {
                lemma_le16_round_trip(key@.len() as u16);
                lemma_le32_round_trip(val);
                lemma_tm_heap_append(self.heap@, le16(key@.len() as u16) + key@ + le32(val), self.table@, self.slot_keys@, self.key_slots@);
            }
            let addr = self.heap.push_record(key, val);
            proof {
                let h = self.heap@;
                let a = addr.0 as int;
                let l = key@.len() as int;
                assert(h =~= mid.heap@ + (le16(key@.len() as u16) + key@ + le32(val)));
                assert(h.subrange(a, a + 2) =~= le16(key@.len() as u16));
                assert(h.subrange(a + 2, a + 2 + l) =~= key@);
                assert(h.subrange(a + 2 + l, a + 6 + l) =~= le32(val));
                reveal(tm_keys_agree);
                assert forall|j: int| 0 <= j < self.table@.len() && #[trigger] kv_occ(self.table@, j) implies self.table@[j].key_value_addr.0 + 6 + self.slot_keys@[j].len() <= addr.0 || addr.0 + 6 + key@.len() <= self.table@[j].key_value_addr.0 by {
                    assert(entry_at(mid.heap@, self.table@[j].key_value_addr.0 as int, self.slot_keys@[j]));
                }
                assert(self@ =~= mid@);
            }
            self.set_bucket(hash, addr, bucket, Ghost(key@));
        }
    }
}

} // verus!
