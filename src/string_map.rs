//! A hash map from string keys to values whose key bytes live once in an
//! append-only log.
//!
//! Each key is written to the log as `[varint length][bytes]`; a slot of the
//! table holds the value and the record's offset. Lookups probe linearly:
//! the `i`-th probe (from `0`) for hash `h` in a table of `n` slots is slot
//! `(h + 1 + i) mod n`. The table doubles before an insert that would push
//! the load past two thirds.
use vstd::prelude::*;
use crate::hasher::{default_hash, fnv32a_yoshimitsu_hasher};
use vstd::string::StringSliceAdditionalSpecFns;
use vstd::arithmetic::power2::{is_pow2, pow2, lemma2_to64, lemma_pow2_unfold, lemma_pow2_strictly_increases};
use crate::varint::{decode_varint, encode_varint, lemma_varint_len, varint, varint_at};

verus! {

/// Largest number of slots a table may reach.
pub const MAX_SLOTS: usize = 0x8000_0000;

/// One occupied slot: the value and the offset of its key's record.
pub struct TableEntry<T> {
    pub value: T,
    pub pointer: u32,
}

/// First slot probed for hash `h` in a table of `n` slots.
#[verifier::opaque]
pub open spec fn home(h: u32, n: int) -> int {
    (h as int + 1) % n
}

/// The `i`-th slot probed (`0 <= i < n`).
pub open spec fn probe_slot(h: u32, i: int, n: int) -> int {
    let s0 = home(h, n);
    if s0 + i < n {
        s0 + i
    } else {
        s0 + i - n
    }
}

/// How many probes precede slot `j`.
pub open spec fn probe_dist(h: u32, j: int, n: int) -> int {
    let s0 = home(h, n);
    if j >= s0 {
        j - s0
    } else {
        j + n - s0
    }
}

pub(crate) proof fn lemma_home(h: u32, n: int)
    requires
        n > 0,
    ensures
        0 <= home(h, n) < n,
{
    reveal(home);
}

pub(crate) proof fn lemma_probe_slot(h: u32, n: int, i: int)
    requires
        n > 0,
        0 <= i < n,
    ensures
        0 <= probe_slot(h, i, n) < n,
        probe_dist(h, probe_slot(h, i, n), n) == i,
{
    lemma_home(h, n);
}

pub(crate) proof fn lemma_probe_dist(h: u32, n: int, j: int)
    requires
        n > 0,
        0 <= j < n,
    ensures
        0 <= probe_dist(h, j, n) < n,
        probe_slot(h, probe_dist(h, j, n), n) == j,
{
    lemma_home(h, n);
}

/// The record a key is stored as.
pub open spec fn record(k: Seq<u8>) -> Seq<u8> {
    varint(k.len() as u32) + k
}

/// `data` holds the record of `k` at offset `p`.
pub open spec fn record_at(data: Seq<u8>, p: int, k: Seq<u8>) -> bool {
    &&& k.len() <= u32::MAX
    &&& 0 <= p
    &&& p + record(k).len() <= data.len()
    &&& data.subrange(p, p + record(k).len()) == record(k)
}

pub(crate) proof fn lemma_is_pow2_double(n: int)
    requires
        is_pow2(n),
    ensures
        is_pow2(2 * n),
{
    reveal(is_pow2);
    assert((2 * n) / 2 == n);
}

/// The records of `ks`, back to back.
pub open spec fn concat_records(ks: Seq<Seq<u8>>) -> Seq<u8>
    decreases ks.len(),
{
    if ks.len() == 0 {
        Seq::empty()
    } else {
        concat_records(ks.drop_last()) + record(ks.last())
    }
}

/// Number of occupied slots.
pub open spec fn count_occupied<E>(s: Seq<Option<E>>) -> nat
    decreases s.len(),
{
    if s.len() == 0 {
        0
    } else {
        count_occupied(s.drop_last()) + if s.last().is_some() {
            1nat
        } else {
            0nat
        }
    }
}

pub(crate) proof fn lemma_count_le<E>(s: Seq<Option<E>>)
    ensures
        count_occupied(s) <= s.len(),
    decreases s.len(),
{
    if s.len() > 0 {
        lemma_count_le(s.drop_last());
    }
}

pub(crate) proof fn lemma_empty_slot<E>(s: Seq<Option<E>>) -> (j: int)
    requires
        count_occupied(s) < s.len(),
    ensures
        0 <= j < s.len(),
        s[j].is_none(),
    decreases s.len(),
{
    if s.last().is_none() {
        s.len() - 1
    } else {
        lemma_empty_slot(s.drop_last())
    }
}

pub(crate) proof fn lemma_count_update<E>(s: Seq<Option<E>>, j: int, x: E)
    requires
        0 <= j < s.len(),
    ensures
        s[j].is_none() ==> count_occupied(s.update(j, Some(x))) == count_occupied(s) + 1,
        s[j].is_some() ==> count_occupied(s.update(j, Some(x))) == count_occupied(s),
    decreases s.len(),
{
    let t = s.update(j, Some(x));
    if j == s.len() - 1 {
        assert(t.drop_last() =~= s.drop_last());
    } else {
        assert(t.drop_last() =~= s.drop_last().update(j, Some(x)));
        lemma_count_update(s.drop_last(), j, x);
    }
}

pub(crate) proof fn lemma_count_empty<E>(s: Seq<Option<E>>)
    requires
        forall|j: int| 0 <= j < s.len() ==> (#[trigger] s[j]).is_none(),
    ensures
        count_occupied(s) == 0,
    decreases s.len(),
{
    if s.len() > 0 {
        lemma_count_empty(s.drop_last());
    }
}

/// Whether slot `j` is occupied.
pub open spec fn occupied_at<T>(t: Seq<Option<TableEntry<T>>>, j: int) -> bool {
    t[j].is_some()
}

/// Each occupied slot of `t` holds the record of its key `sk[j]` in `data`,
/// and `ks` maps exactly those keys to their slots.
#[verifier::opaque]
pub open spec fn keys_agree<T>(
    data: Seq<u8>,
    t: Seq<Option<TableEntry<T>>>,
    sk: Seq<Seq<u8>>,
    ks: Map<Seq<u8>, int>,
) -> bool {
    &&& forall|j: int|
        0 <= j < t.len() && #[trigger] occupied_at(t, j) ==> record_at(
            data,
            t[j]->Some_0.pointer as int,
            sk[j],
        ) && ks.contains_key(sk[j]) && ks[sk[j]] == j
    &&& forall|k: Seq<u8>| #[trigger]
        ks.contains_key(k) ==> 0 <= ks[k] < t.len() && occupied_at(t, ks[k]) && sk[ks[k]] == k
}

/// For each occupied slot `j` of `t`, every slot probed before `j` for the
/// hash of `sk[j]` is occupied.
#[verifier::opaque]
pub open spec fn probe_paths_full<T>(t: Seq<Option<TableEntry<T>>>, sk: Seq<Seq<u8>>) -> bool {
    forall|j: int, e: int|
        0 <= j < t.len() && #[trigger] occupied_at(t, j) && 0 <= e < probe_dist(
            default_hash(sk[j]),
            j,
            t.len() as int,
        ) ==> #[trigger] occupied_at(t, probe_slot(default_hash(sk[j]), e, t.len() as int))
}

proof fn lemma_put_parts<T>(
    data: Seq<u8>,
    t: Seq<Option<TableEntry<T>>>,
    sk: Seq<Seq<u8>>,
    ks: Map<Seq<u8>, int>,
    pos: int,
    k: Seq<u8>,
    x: TableEntry<T>,
)
    requires
        keys_agree(data, t, sk, ks),
        probe_paths_full(t, sk),
        sk.len() == t.len(),
        0 <= pos < t.len(),
        !occupied_at(t, pos),
        !ks.contains_key(k),
        record_at(data, x.pointer as int, k),
        forall|e: int|
            0 <= e < probe_dist(default_hash(k), pos, t.len() as int) ==> #[trigger] occupied_at(
                t,
                probe_slot(default_hash(k), e, t.len() as int),
            ),
    ensures
        keys_agree(data, t.update(pos, Some(x)), sk.update(pos, k), ks.insert(k, pos)),
        probe_paths_full(t.update(pos, Some(x)), sk.update(pos, k)),
{
    reveal(keys_agree);
    reveal(probe_paths_full);
    let t2 = t.update(pos, Some(x));
    let sk2 = sk.update(pos, k);
    let ks2 = ks.insert(k, pos);
    let n = t.len() as int;
    assert forall|j: int| 0 <= j < n implies #[trigger] occupied_at(t2, j) == (occupied_at(t, j)
        || j == pos) by {}
    assert forall|j: int| 0 <= j < n && #[trigger] occupied_at(t2, j) implies record_at(
        data,
        t2[j]->Some_0.pointer as int,
        sk2[j],
    ) && ks2.contains_key(sk2[j]) && ks2[sk2[j]] == j by {
        if j != pos {
            assert(occupied_at(t, j));
        }
    }
    assert forall|kk: Seq<u8>| #[trigger] ks2.contains_key(kk) implies 0 <= ks2[kk] < n
        && occupied_at(t2, ks2[kk]) && sk2[ks2[kk]] == kk by {
        if kk != k {
            assert(ks.contains_key(kk));
        }
    }
    assert forall|j: int, e: int|
        0 <= j < n && #[trigger] occupied_at(t2, j) && 0 <= e < probe_dist(
            default_hash(sk2[j]),
            j,
            n,
        ) implies #[trigger] occupied_at(t2, probe_slot(default_hash(sk2[j]), e, n)) by {
        lemma_probe_dist(default_hash(sk2[j]), n, j);
        lemma_probe_slot(default_hash(sk2[j]), n, e);
        if j != pos {
            assert(occupied_at(t, j));
            assert(occupied_at(t, probe_slot(default_hash(sk[j]), e, n)));
        } else {
            assert(occupied_at(t, probe_slot(default_hash(k), e, n)));
        }
    }
}

proof fn lemma_same_shape<T>(
    data: Seq<u8>,
    t1: Seq<Option<TableEntry<T>>>,
    t2: Seq<Option<TableEntry<T>>>,
    sk: Seq<Seq<u8>>,
    ks: Map<Seq<u8>, int>,
)
    requires
        keys_agree(data, t1, sk, ks),
        probe_paths_full(t1, sk),
        t1.len() == t2.len(),
        forall|j: int|
            0 <= j < t1.len() ==> #[trigger] occupied_at(t2, j) == occupied_at(t1, j) && (
            occupied_at(t1, j) ==> t2[j]->Some_0.pointer == t1[j]->Some_0.pointer),
    ensures
        keys_agree(data, t2, sk, ks),
        probe_paths_full(t2, sk),
{
    reveal(keys_agree);
    reveal(probe_paths_full);
    let n = t1.len() as int;
    assert forall|j: int, e: int|
        0 <= j < n && #[trigger] occupied_at(t2, j) && 0 <= e < probe_dist(
            default_hash(sk[j]),
            j,
            n,
        ) implies #[trigger] occupied_at(t2, probe_slot(default_hash(sk[j]), e, n)) by {
        assert(occupied_at(t1, j));
        lemma_probe_dist(default_hash(sk[j]), n, j);
        let q = probe_slot(default_hash(sk[j]), e, n);
        assert(occupied_at(t1, q));
        lemma_probe_slot(default_hash(sk[j]), n, e);
        assert(occupied_at(t2, q));
    }
    assert forall|kk: Seq<u8>| #[trigger] ks.contains_key(kk) implies 0 <= ks[kk] < n
        && occupied_at(t2, ks[kk]) && sk[ks[kk]] == kk by {
        assert(occupied_at(t1, ks[kk]));
    }
}

/// The entries of slots `lo..` of `t` in ascending slot order, each as its
/// key `sk[j]` and its value.
pub open spec fn entries_from<T>(t: Seq<Option<TableEntry<T>>>, sk: Seq<Seq<u8>>, lo: int) -> Seq<(Seq<u8>, T)>
    decreases t.len() - lo,
{
    if lo < 0 || lo >= t.len() {
        Seq::empty()
    } else {
        let head = if t[lo].is_some() {
            seq![(sk[lo], t[lo]->Some_0.value)]
        } else {
            Seq::empty()
        };
        head + entries_from(t, sk, lo + 1)
    }
}

/// The key bytes and values of `s`.
pub open spec fn entry_model<T>(s: Seq<(Vec<u8>, T)>) -> Seq<(Seq<u8>, T)> {
    Seq::new(s.len(), |i: int| (s[i].0@, s[i].1))
}

/// Stores a value for each distinct string key.
pub struct StringHashMap<T> {
    string_data: Vec<u8>,
    table: Vec<Option<TableEntry<T>>>,
    occupied: usize,
    slot_keys: Ghost<Seq<Seq<u8>>>,
    key_slots: Ghost<Map<Seq<u8>, int>>,
    inserted: Ghost<Seq<Seq<u8>>>,
}

impl<T> View for StringHashMap<T> {
    type V = Map<Seq<u8>, T>;

    /// Maps the UTF-8 bytes of each stored key to its value.
    closed spec fn view(&self) -> Map<Seq<u8>, T> {
        Map::new(
            |k: Seq<u8>| self.key_slots@.contains_key(k),
            |k: Seq<u8>| self.table@[self.key_slots@[k]]->Some_0.value,
        )
    }
}

impl<T> StringHashMap<T> {
    /// Number of slots.
    pub closed spec fn capacity(&self) -> nat {
        self.table@.len()
    }

    /// Bytes written to the key log.
    pub closed spec fn data_len(&self) -> nat {
        self.string_data@.len()
    }

    /// The entries in ascending slot order: the order `iter`, `values` and
    /// `keys` report them in.
    pub closed spec fn slot_entries(&self) -> Seq<(Seq<u8>, T)> {
        entries_from(self.table@, self.slot_keys@, 0)
    }

    /// The keys in the order they were first inserted.
    pub closed spec fn insertion_order(&self) -> Seq<Seq<u8>> {
        self.inserted@
    }

    /// Number of keys stored.
    pub closed spec fn spec_len(&self) -> nat {
        self.occupied as nat
    }

    closed spec fn ptr(&self, j: int) -> int {
        self.table@[j]->Some_0.pointer as int
    }

    /// Each occupied slot holds the record of its key, and the key-to-slot
    /// map agrees with the slots.
    pub closed spec fn keys_ok(&self) -> bool {
        keys_agree(self.string_data@, self.table@, self.slot_keys@, self.key_slots@)
    }

    /// Every slot probed before an occupied slot, for that slot's key, is
    /// occupied.
    pub closed spec fn probes_ok(&self) -> bool {
        probe_paths_full(self.table@, self.slot_keys@)
    }

    /// Well-formedness: the slots, the key log, the insertion order and the
    /// ghost bookkeeping agree.
    pub closed spec fn wf(&self) -> bool {
        &&& self.wf_core()
        &&& self.order_ok()
    }

    /// The insertion order lists each stored key exactly once.
    pub closed spec fn order_ok(&self) -> bool {
        &&& self.inserted@.no_duplicates()
        &&& forall|k: Seq<u8>| #[trigger] self.key_slots@.contains_key(k) <==> self.inserted@.contains(k)
    }

    /// Well-formedness of the table, the key log and the key bookkeeping.
    pub closed spec fn wf_core(&self) -> bool {
        let n = self.table@.len() as int;
        &&& 0 < n <= MAX_SLOTS
        &&& is_pow2(n)
        &&& self.string_data@.len() <= u32::MAX
        &&& self.slot_keys@.len() == n
        &&& self.occupied == count_occupied(self.table@)
        &&& 3 * self.occupied <= 2 * n
        &&& self.key_slots@.dom().finite()
        &&& self.key_slots@.dom().len() == self.occupied
        &&& self.string_data@ == concat_records(self.inserted@)
        &&& self.keys_ok()
        &&& self.probes_ok()
    }

    /// Creates an empty map with `2^(power_of_two - 1)` slots;
    /// `power_of_two` lies within `[1, 32]`.
    pub fn with_power_of_two_size(power_of_two: usize) -> (r: Self)
        requires
            1 <= power_of_two <= 32,
        ensures
            r.wf(),
            r@ == Map::<Seq<u8>, T>::empty(),
            r.spec_len() == 0,
            r.data_len() == 0,
            r.capacity() == pow2((power_of_two - 1) as nat),
    {
        let mut size: usize = 1;
        let mut k: usize = 1;
        proof {
            lemma2_to64();
            reveal(is_pow2);
        }
        while k < power_of_two
            invariant
                1 <= k <= power_of_two <= 32,
                size == pow2((k - 1) as nat),
                is_pow2(size as int),
            decreases power_of_two - k,
        {
            proof {
                lemma2_to64();
                lemma_pow2_unfold(k as nat);
                if k < 31 {
                    lemma_pow2_strictly_increases(k as nat, 31);
                }
                lemma_is_pow2_double(size as int);
            }
            size = size * 2;
            k = k + 1;
        }
        proof {
            lemma2_to64();
            if k - 1 < 31 {
                lemma_pow2_strictly_increases((k - 1) as nat, 31);
            }
        }
        Self::with_slots(size)
    }

    fn with_slots(size: usize) -> (r: Self)
        requires
            0 < size <= MAX_SLOTS,
            is_pow2(size as int),
        ensures
            r.wf_core(),
            r@ == Map::<Seq<u8>, T>::empty(),
            r.spec_len() == 0,
            r.data_len() == 0,
            r.capacity() == size,
            r.key_slots@ == Map::<Seq<u8>, int>::empty(),
            r.inserted@ == Seq::<Seq<u8>>::empty(),
    {
        let mut table: Vec<Option<TableEntry<T>>> = Vec::new();
        let mut i: usize = 0;
        while i < size
            invariant
                i <= size,
                table@.len() == i,
                forall|j: int| 0 <= j < i ==> (#[trigger] table@[j]).is_none(),
            decreases size - i,
        {
            table.push(None);
            i = i + 1;
        }
        proof {
            lemma_count_empty(table@);
        }
        let r = StringHashMap {
            string_data: Vec::new(),
            table,
            occupied: 0,
            slot_keys: Ghost(Seq::new(size as nat, |j: int| Seq::empty())),
            inserted: Ghost(Seq::empty()),
            key_slots: Ghost(Map::empty()),
        };
        assert(r@ =~= Map::<Seq<u8>, T>::empty());
        proof {
            reveal(keys_agree);
            reveal(probe_paths_full);
        }
        r
    }

    /// Creates an empty map with 512 slots.
    pub fn new() -> (r: Self)
        ensures
            r.wf(),
            r@ == Map::<Seq<u8>, T>::empty(),
            r.spec_len() == 0,
            r.data_len() == 0,
            r.capacity() == 512,
    {
        proof {
            lemma2_to64();
        }
        Self::with_power_of_two_size(10)
    }

    /// Number of keys stored.
    pub fn len(&self) -> (r: usize)
        requires
            self.wf(),
        ensures
            r == self.spec_len(),
            r == self@.len(),
    {
        assert(self@.dom() =~= self.key_slots@.dom());
        self.occupied
    }

    proof fn lemma_slot(&self, j: int)
        requires
            self.wf_core(),
            0 <= j < self.table@.len(),
            occupied_at(self.table@, j),
        ensures
            record_at(self.string_data@, self.ptr(j), self.slot_keys@[j]),
            self.key_slots@.contains_key(self.slot_keys@[j]),
            self.key_slots@[self.slot_keys@[j]] == j,
    {
        reveal(keys_agree);
    }

    proof fn lemma_key_slot(&self, k: Seq<u8>)
        requires
            self.wf_core(),
            self.key_slots@.contains_key(k),
        ensures
            0 <= self.key_slots@[k] < self.table@.len(),
            occupied_at(self.table@, self.key_slots@[k]),
            self.slot_keys@[self.key_slots@[k]] == k,
    {
        reveal(keys_agree);
    }

    /// A key is absent when the probe reaches an empty slot first.
    proof fn lemma_absent(&self, key: Seq<u8>, i: int)
        requires
            self.wf_core(),
            0 <= i < self.table@.len(),
            !occupied_at(self.table@, probe_slot(default_hash(key), i, self.table@.len() as int)),
            forall|e: int|
                0 <= e < i ==> #[trigger] self.slot_keys@[probe_slot(default_hash(key), e, self.table@.len() as int)]
                    != key,
        ensures
            !self.key_slots@.contains_key(key),
    {
        reveal(keys_agree);
        reveal(probe_paths_full);
        let h = default_hash(key);
        let ni = self.table@.len() as int;
        if self.key_slots@.contains_key(key) {
            let j = self.key_slots@[key];
            let dj = probe_dist(h, j, ni);
            lemma_probe_dist(h, ni, j);
            if dj < i {
                assert(occupied_at(self.table@, probe_slot(h, dj, ni)));
            } else if dj > i {
                assert(occupied_at(self.table@, probe_slot(h, i, ni)));
            }
        }
    }

    /// Finds the slot holding `key`, or the empty slot where it would go.
    fn find_slot(&self, key: &[u8]) -> (r: (bool, usize))
        requires
            self.wf_core(),
        ensures
            r.1 < self.capacity(),
            r.0 ==> self.key_slots@.contains_key(key@) && self.key_slots@[key@] == r.1,
            !r.0 ==> !self.key_slots@.contains_key(key@) && !occupied_at(self.table@, r.1 as int) && forall|
                e: int,
            |
                0 <= e < probe_dist(default_hash(key@), r.1 as int, self.capacity() as int)
                    ==> #[trigger] occupied_at(self.table@, 
                    probe_slot(default_hash(key@), e, self.capacity() as int),
                ),
    {
        let h = fnv32a_yoshimitsu_hasher(key);
        let n = self.table.len();
        let s0 = ((h as u64 + 1) % (n as u64)) as usize;
        let ghost ni = n as int;
        proof {
            lemma_count_le(self.table@);
            lemma_home(h, ni);
            reveal(home);
        }
        let ghost empty_j = lemma_empty_slot(self.table@);
        let ghost d = probe_dist(h, empty_j, ni);
        proof {
            lemma_probe_dist(h, ni, empty_j);
        }
        let mut i: usize = 0;
        loop
            invariant
                self.wf_core(),
                n == self.table@.len(),
                s0 == home(h, ni),
                h == default_hash(key@),
                0 <= empty_j < ni,
                !occupied_at(self.table@, empty_j),
                d == probe_dist(h, empty_j, ni),
                0 <= d < ni,
                i <= d,
                0 <= s0 < n,
                ni == n as int,
                forall|e: int| 0 <= e < i ==> #[trigger] occupied_at(self.table@, probe_slot(h, e, ni)),
                forall|e: int| 0 <= e < i ==> #[trigger] self.slot_keys@[probe_slot(h, e, ni)] != key@,
            decreases n - i,
        {
            proof {
                lemma_probe_slot(h, ni, i as int);
            }
            let pos = if s0 + i < n {
                s0 + i
            } else {
                s0 + i - n
            };
            assert(pos == probe_slot(h, i as int, ni));
            match self.slot_pointer(pos) {
                None => {
                    proof {
                        self.lemma_absent(key@, i as int);
                    }
                    return (false, pos);
                },
                Some(ptr) => {
                    proof {
                        self.lemma_slot(pos as int);
                    }
                    let found = key_matches(&self.string_data, ptr, Ghost(self.slot_keys@[pos as int]), key);
                    if found {
                        return (true, pos);
                    }
                },
            }
            proof {
                if i == d {
                    assert(probe_slot(h, d, ni) == empty_j);
                }
                assert forall|e: int| 0 <= e < i + 1 implies #[trigger] occupied_at(
                    self.table@,
                    probe_slot(h, e, ni),
                ) by {
                    if e == i {
                        assert(occupied_at(self.table@, probe_slot(h, i as int, ni)));
                    }
                }
                assert forall|e: int| 0 <= e < i + 1 implies #[trigger] self.slot_keys@[probe_slot(h, e, ni)] != key@ by {
                }
            }
            i = i + 1;
        }
    }

    /// The key offset in slot `pos`, or `None` when the slot is empty.
    fn slot_pointer(&self, pos: usize) -> (r: Option<u32>)
        requires
            pos < self.table@.len(),
        ensures
            r.is_some() == occupied_at(self.table@, pos as int),
            r.is_some() ==> r.unwrap() == self.ptr(pos as int),
    {
        match &self.table[pos] {
            Some(entry) => Some(entry.pointer),
            None => None,
        }
    }

    /// The value stored for `el`, if any.
    pub fn get(&self, el: &str) -> (r: Option<&T>)
        requires
            self.wf(),
        ensures
            r.is_some() == self@.contains_key(el.spec_bytes()),
            r.is_some() ==> *r.unwrap() == self@[el.spec_bytes()],
    {
        let (found, pos) = self.find_slot(el.as_bytes());
        proof {
            reveal(keys_agree);
        }
        if found {
            match &self.table[pos] {
                Some(entry) => Some(&entry.value),
                None => None,
            }
        } else {
            None
        }
    }
}


impl<T> StringHashMap<T> {
    /// There is room to add `k`: its record keeps the key log within 32-bit
    /// offsets, and a table that must grow first can still double.
    pub open spec fn has_room(&self, k: Seq<u8>) -> bool {
        &&& self.data_len() + k.len() + 5 <= u32::MAX
        &&& 3 * (self.spec_len() + 1) > 2 * self.capacity() ==> 2 * self.capacity() <= MAX_SLOTS
    }

    /// Whether `el` can be added without exceeding the map's limits.
    pub fn can_insert(&self, el: &str) -> (r: bool)
        requires
            self.wf(),
        ensures
            r == self.has_room(el.spec_bytes()),
    {
        let n = self.table.len();
        let klen = el.as_bytes().len();
        let data_ok = klen <= 0xFFFF_FFFA && self.string_data.len() <= 0xFFFF_FFFA - klen;
        let grow_ok = 3 * (self.occupied as u64 + 1) <= 2 * (n as u64) || n <= MAX_SLOTS / 2;
        assert(data_ok == (self.string_data@.len() + el.spec_bytes().len() + 5 <= u32::MAX));
        assert(grow_ok == (3 * (self.occupied + 1) > 2 * self.table@.len() ==> 2 * self.table@.len() <= MAX_SLOTS));
        data_ok && grow_ok
    }

    /// Appends the record of `key` to the key log; returns its offset.
    fn append_record(&mut self, key: &[u8]) -> (p: u32)
        requires
            old(self).wf_core(),
            old(self).string_data@.len() + key@.len() + 5 <= u32::MAX,
        ensures
            final(self).wf_core(),
            p == old(self).string_data@.len(),
            final(self).string_data@ == old(self).string_data@ + record(key@),
            final(self).table@ == old(self).table@,
            final(self).occupied == old(self).occupied,
            final(self).slot_keys == old(self).slot_keys,
            final(self).key_slots == old(self).key_slots,
            final(self).inserted@ == old(self).inserted@.push(key@),
            record_at(final(self).string_data@, p as int, key@),
    {
        proof {
            lemma_varint_len(key@.len() as u32);
        }
        let p = self.string_data.len() as u32;
        let ghost old_data = self.string_data@;
        let ghost old_self = *self;
        encode_varint(&mut self.string_data, key.len() as u32);
        self.string_data.extend_from_slice(key);
        self.inserted = Ghost(self.inserted@.push(key@));
        assert(self.inserted@.drop_last() =~= old(self).inserted@);
        proof {
            let d = self.string_data@;
            assert(d =~= old_data + record(key@));
            assert(d.subrange(p as int, p + record(key@).len()) =~= record(key@));
            reveal(keys_agree);
            assert forall|j: int|
                0 <= j < self.table@.len() && #[trigger] occupied_at(self.table@, j) implies record_at(
                d,
                self.ptr(j),
                self.slot_keys@[j],
            ) by {
                assert(record_at(old_data, self.ptr(j), self.slot_keys@[j]));
                let q = self.ptr(j);
                let l = record(self.slot_keys@[j]).len();
                assert(d.subrange(q, q + l) =~= old_data.subrange(q, q + l));
            }
        }
        p
    }

    /// Fills the empty slot `pos`, found by probing for `k`, with `entry`.
    fn put_at(&mut self, pos: usize, entry: TableEntry<T>, Ghost(k): Ghost<Seq<u8>>)
        requires
            old(self).wf_core(),
            pos < old(self).table@.len(),
            !occupied_at(old(self).table@, pos as int),
            !old(self).key_slots@.contains_key(k),
            record_at(old(self).string_data@, entry.pointer as int, k),
            3 * (old(self).occupied + 1) <= 2 * old(self).table@.len(),
            forall|e: int|
                0 <= e < probe_dist(default_hash(k), pos as int, old(self).table@.len() as int)
                    ==> #[trigger] occupied_at(old(self).table@, 
                    probe_slot(default_hash(k), e, old(self).table@.len() as int),
                ),
        ensures
            final(self).wf_core(),
            final(self)@ == old(self)@.insert(k, entry.value),
            final(self).occupied == old(self).occupied + 1,
            final(self).string_data@ == old(self).string_data@,
            final(self).table@.len() == old(self).table@.len(),
            final(self).key_slots@ == old(self).key_slots@.insert(k, pos as int),
            final(self).inserted == old(self).inserted,
    {
        let ghost old_self = *self;
        let ghost value = entry.value;
        let ghost entry_g = entry;
        proof {
            lemma_count_update(self.table@, pos as int, entry);
        }
        self.table.set(pos, Some(entry));
        self.occupied = self.occupied + 1;
        self.slot_keys = Ghost(self.slot_keys@.update(pos as int, k));
        self.key_slots = Ghost(self.key_slots@.insert(k, pos as int));
        proof {
            lemma_put_parts(
                old_self.string_data@,
                old_self.table@,
                old_self.slot_keys@,
                old_self.key_slots@,
                pos as int,
                k,
                entry_g,
            );
            assert(self.table@ == old_self.table@.update(pos as int, Some(entry_g)));
            assert(self.key_slots@.dom() =~= old_self.key_slots@.dom().insert(k));
            reveal(keys_agree);
            assert forall|kk: Seq<u8>| #[trigger] self.key_slots@.contains_key(kk) && kk != k implies self.key_slots@[kk] != pos by {
                assert(old_self.key_slots@.contains_key(kk));
            }
            assert(self@ =~= old_self@.insert(k, value));
        }
    }

    /// The first empty slot on the probe path of hash `h`.
    fn empty_slot_for(&self, h: u32) -> (pos: usize)
        requires
            self.wf_core(),
        ensures
            pos < self.table@.len(),
            !occupied_at(self.table@, pos as int),
            forall|e: int|
                0 <= e < probe_dist(h, pos as int, self.table@.len() as int) ==> #[trigger] occupied_at(self.table@, 
                    probe_slot(h, e, self.table@.len() as int),
                ),
    {
        let n = self.table.len();
        let s0 = ((h as u64 + 1) % (n as u64)) as usize;
        let ghost ni = n as int;
        proof {
            lemma_count_le(self.table@);
            lemma_home(h, ni);
            reveal(home);
        }
        let ghost empty_j = lemma_empty_slot(self.table@);
        let ghost d = probe_dist(h, empty_j, ni);
        proof {
            lemma_probe_dist(h, ni, empty_j);
        }
        let mut i: usize = 0;
        loop
            invariant
                self.wf_core(),
                n == self.table@.len(),
                ni == n as int,
                s0 == home(h, ni),
                0 <= s0 < n,
                0 <= empty_j < ni,
                !occupied_at(self.table@, empty_j),
                d == probe_dist(h, empty_j, ni),
                0 <= d < ni,
                i <= d,
                forall|e: int| 0 <= e < i ==> #[trigger] occupied_at(self.table@, probe_slot(h, e, ni)),
            decreases n - i,
        {
            proof {
                lemma_probe_slot(h, ni, i as int);
            }
            let pos = if s0 + i < n {
                s0 + i
            } else {
                s0 + i - n
            };
            assert(pos == probe_slot(h, i as int, ni));
            if self.table[pos].is_none() {
                return pos;
            }
            proof {
                if i == d {
                    assert(probe_slot(h, d, ni) == empty_j);
                }
                assert forall|e: int| 0 <= e < i + 1 implies #[trigger] occupied_at(self.table@, 
                    probe_slot(h, e, ni),
                ) by {
                    if e == i {
                        assert(occupied_at(self.table@, probe_slot(h, i as int, ni)));
                    }
                }
            }
            i = i + 1;
        }
    }

    proof fn lemma_value_update(s1: Self, s2: Self, pos: int, x: TableEntry<T>)
        requires
            s1.wf_core(),
            0 <= pos < s1.table@.len(),
            occupied_at(s1.table@, pos),
            x.pointer == s1.ptr(pos),
            s2.table@ == s1.table@.update(pos, Some(x)),
            s2.string_data == s1.string_data,
            s2.occupied == s1.occupied,
            s2.slot_keys == s1.slot_keys,
            s2.key_slots == s1.key_slots,
            s2.inserted == s1.inserted,
        ensures
            s2.wf_core(),
            s2@ == s1@.insert(s1.slot_keys@[pos], x.value),
            s1@.contains_key(s1.slot_keys@[pos]),
    {
        lemma_count_update(s1.table@, pos, x);
        lemma_same_shape(s1.string_data@, s1.table@, s2.table@, s1.slot_keys@, s1.key_slots@);
        reveal(keys_agree);
        let k = s1.slot_keys@[pos];
        assert forall|kk: Seq<u8>| #[trigger] s1.key_slots@.contains_key(kk) && s1.key_slots@[kk] == pos implies kk == k by {}
        assert(s2@ =~= s1@.insert(k, x.value));
    }

    /// A mutable reference to the value in the occupied slot `pos`.
    fn value_mut(&mut self, pos: usize) -> (r: &mut T)
        requires
            old(self).wf_core(),
            pos < old(self).table@.len(),
            occupied_at(old(self).table@, pos as int),
        ensures
            *r == old(self)@[old(self).slot_keys@[pos as int]],
            old(self)@.contains_key(old(self).slot_keys@[pos as int]),
            final(self).wf_core(),
            final(self)@ == old(self)@.insert(old(self).slot_keys@[pos as int], *final(r)),
            final(self).occupied == old(self).occupied,
            final(self).string_data@ == old(self).string_data@,
            final(self).table@.len() == old(self).table@.len(),
            final(self).inserted == old(self).inserted,
            final(self).key_slots == old(self).key_slots,
    {
        proof {
            self.lemma_slot(pos as int);
        }
        let ghost old_self = *self;
        let slot = &mut self.table[pos];
        match slot {
            Some(entry) => {
                let r = &mut entry.value;
                proof {
                    let x = TableEntry { value: *final(r), pointer: old_self.table@[pos as int]->Some_0.pointer };
                    assert(after_borrow(self.table)@ == old_self.table@.update(pos as int, Some(x)));
                    Self::lemma_value_update(old_self, after_borrow(*self), pos as int, x);
                }
                r
            },
            None => vstd::pervasive::unreached(),
        }
    }
}

impl<T> StringHashMap<T> {
    /// Doubles the table and re-places every entry by its key's hash; the
    /// key log is not touched.
    fn resize(&mut self)
        requires
            old(self).wf_core(),
            2 * old(self).table@.len() <= MAX_SLOTS,
        ensures
            final(self).wf_core(),
            final(self)@ == old(self)@,
            final(self).occupied == old(self).occupied,
            final(self).string_data@ == old(self).string_data@,
            final(self).table@.len() == 2 * old(self).table@.len(),
            final(self).inserted == old(self).inserted,
            final(self).key_slots@.dom() == old(self).key_slots@.dom(),
    {
        let n = self.table.len();
        proof {
            lemma_is_pow2_double(n as int);
        }
        let mut fresh: Self = Self::with_slots(n * 2);
        std::mem::swap(&mut fresh.string_data, &mut self.string_data);
        fresh.inserted = self.inserted;
        let ghost ins = self.inserted@;
        assert(self.table@.subrange(0, n as int) =~= self.table@);
        let ghost data = fresh.string_data@;
        let ghost old_t = self.table@;
        let ghost old_sk = self.slot_keys@;
        let ghost old_ks = self.key_slots@;
        let ghost old_view = old(self)@;
        let ghost total = self.occupied;
        proof {
            reveal(keys_agree);
        }
        assert(fresh.wf_core());
        let mut j = n;
        while j > 0
            invariant
                fresh.wf_core(),
                fresh.string_data@ == data,
                fresh.inserted@ == ins,
                ins == old(self).inserted@,
                fresh.table@.len() == 2 * n,
                data.len() <= u32::MAX,
                j <= n,
                old_t.len() == n,
                old_sk.len() == n,
                self.table@ == old_t.subrange(0, j as int),
                fresh.occupied + count_occupied(old_t.subrange(0, j as int)) == total,
                3 * total <= 2 * n,
                keys_agree(data, old_t, old_sk, old_ks),
                old_view == Map::new(
                    |k: Seq<u8>| old_ks.contains_key(k),
                    |k: Seq<u8>| old_t[old_ks[k]]->Some_0.value,
                ),
                forall|k: Seq<u8>| #[trigger]
                    fresh.key_slots@.contains_key(k) ==> old_ks.contains_key(k) && old_ks[k] >= j,
                forall|k: Seq<u8>| #[trigger]
                    fresh.key_slots@.contains_key(k) ==> fresh@[k] == old_view[k],
                forall|jj: int|
                    j <= jj < n && #[trigger] occupied_at(old_t, jj) ==> fresh.key_slots@.contains_key(
                        old_sk[jj],
                    ),
            decreases j,
        {
            let ghost prefix = old_t.subrange(0, j as int);
            assert(prefix.drop_last() =~= old_t.subrange(0, j - 1));
            let slot = self.table.pop();
            j = j - 1;
            match slot {
                Some(Some(entry)) => {
                    let ghost k = old_sk[j as int];
                    proof {
                        reveal(keys_agree);
                        assert(occupied_at(old_t, j as int));
                        lemma_count_le(old_t.subrange(0, j as int));
                        if fresh.key_slots@.contains_key(k) {
                            assert(old_ks[k] == j);
                        }
                    }
                    let key = read_key(&fresh.string_data, entry.pointer, Ghost(k));
                    let h = fnv32a_yoshimitsu_hasher(key);
                    let pos = fresh.empty_slot_for(h);
                    let ghost before = fresh@;
                    fresh.put_at(pos, entry, Ghost(k));
                    proof {
                        assert forall|kk: Seq<u8>| #[trigger]
                            fresh.key_slots@.contains_key(kk) implies fresh@[kk] == old_view[kk] by {
                            if kk != k {
                                assert(before.contains_key(kk));
                            }
                        }
                        assert forall|kk: Seq<u8>| #[trigger]
                            fresh.key_slots@.contains_key(kk) implies old_ks.contains_key(kk)
                            && old_ks[kk] >= j by {
                            if kk != k {
                                assert(before.contains_key(kk));
                            }
                        }
                        assert forall|jj: int|
                            j <= jj < n && #[trigger] occupied_at(old_t, jj) implies fresh.key_slots@.contains_key(
                            old_sk[jj],
                        ) by {
                            if jj != j {
                                assert(before.contains_key(old_sk[jj]));
                            }
                        }
                    }
                },
                _ => {
                    proof {
                        assert(!occupied_at(old_t, j as int));
                    }
                },
            }
        }
        proof {
            assert(old_t.subrange(0, 0) =~= Seq::<Option<TableEntry<T>>>::empty());
            reveal(keys_agree);
            assert forall|k: Seq<u8>| old_ks.contains_key(k) implies #[trigger] fresh.key_slots@.contains_key(k) by {
                assert(occupied_at(old_t, old_ks[k]));
            }
            assert(fresh@ =~= old_view);
            assert(fresh.key_slots@.dom() =~= old(self).key_slots@.dom());
        }
        *self = fresh;
    }

    /// The value stored for `el`, created from `value` if `el` is new.
    ///
    /// On a new key the table first doubles if the insert would push its load
    /// past two thirds. An existing key keeps its value; `value` is dropped.
    pub fn get_or_create(&mut self, el: &str, value: T) -> (r: &mut T)
        requires
            old(self).wf(),
            old(self).has_room(el.spec_bytes()),
        ensures
            final(self).wf(),
            final(self)@ == old(self)@.insert(el.spec_bytes(), *final(r)),
            *final(r) == *r ==> final(self)@ == after_create(old(self)@, el.spec_bytes(), value),
            final(self).capacity() == old(self).capacity() || final(self).capacity() == 2
                * old(self).capacity(),
            old(self)@.contains_key(el.spec_bytes()) ==> *r == old(self)@[el.spec_bytes()]
                && final(self).spec_len() == old(self).spec_len() && final(self).data_len()
                == old(self).data_len(),
            !old(self)@.contains_key(el.spec_bytes()) ==> *r == value && final(self).spec_len()
                == old(self).spec_len() + 1 && final(self).data_len() == old(self).data_len()
                + record(el.spec_bytes()).len(),
            old(self)@.contains_key(el.spec_bytes()) ==> final(self).insertion_order()
                == old(self).insertion_order(),
            !old(self)@.contains_key(el.spec_bytes()) ==> final(self).insertion_order()
                == old(self).insertion_order().push(el.spec_bytes()),
    {
        let key = el.as_bytes();
        if 3 * (self.occupied as u64 + 1) > 2 * (self.table.len() as u64) {
            self.resize();
            assert(self.order_ok());
        }
        let ghost before = *self;
        let (found, pos) = self.find_slot(key);
        if !found {
            let p = self.append_record(key);
            self.put_at(pos, TableEntry { value, pointer: p }, Ghost(key@));
            proof {
                assert(!before.inserted@.contains(key@));
                assert forall|k: Seq<u8>| #[trigger] self.key_slots@.contains_key(k) <==> self.inserted@.contains(k) by {
                    if k != key@ {
                        assert(self.inserted@.contains(k) ==> before.inserted@.contains(k)) by {
                            if self.inserted@.contains(k) {
                                let i = choose|i: int| 0 <= i < self.inserted@.len() && self.inserted@[i] == k;
                                assert(before.inserted@[i] == k);
                            }
                        }
                        assert(before.inserted@.contains(k) ==> self.inserted@.contains(k)) by {
                            if before.inserted@.contains(k) {
                                let i = choose|i: int| 0 <= i < before.inserted@.len() && before.inserted@[i] == k;
                                assert(self.inserted@[i] == k);
                            }
                        }
                    } else {
                        assert(self.inserted@[self.inserted@.len() - 1] == key@);
                    }
                }
                assert(self.inserted@.no_duplicates()) by {
                    assert forall|i: int, j: int| 0 <= i < self.inserted@.len() && 0 <= j < self.inserted@.len() && i != j implies self.inserted@[i] != self.inserted@[j] by {
                        let last = self.inserted@.len() - 1;
                        if i == last {
                            assert(before.inserted@.contains(self.inserted@[j]) || j == last);
                        } else if j == last {
                            assert(before.inserted@.contains(self.inserted@[i]));
                        }
                    }
                }
            }
        }
        proof {
            self.lemma_key_slot(key@);
        }
        self.value_mut(pos)
    }

    /// A mutable reference to the value stored for `el`, if any.
    pub fn get_mut(&mut self, el: &str) -> (r: Option<&mut T>)
        requires
            old(self).wf(),
        ensures
            r.is_some() == old(self)@.contains_key(el.spec_bytes()),
            final(self).wf(),
            final(self).spec_len() == old(self).spec_len(),
            final(self).data_len() == old(self).data_len(),
            final(self).capacity() == old(self).capacity(),
            r.is_none() ==> final(self)@ == old(self)@,
            r.is_some() ==> *r.unwrap() == old(self)@[el.spec_bytes()],
            r.is_some() ==> final(self)@ == old(self)@.insert(
                el.spec_bytes(),
                *final(r.unwrap()),
            ),
    {
        let (found, pos) = self.find_slot(el.as_bytes());
        if found {
            proof {
                self.lemma_key_slot(el.spec_bytes());
            }
            Some(self.value_mut(pos))
        } else {
            None
        }
    }
}

impl<T> StringHashMap<T> {
    proof fn lemma_entries_from(&self, lo: int)
        requires
            self.wf_core(),
            0 <= lo <= self.table@.len(),
        ensures
            ({
                let e = entries_from(self.table@, self.slot_keys@, lo);
                &&& e.len() + count_occupied(self.table@.subrange(0, lo)) == self.occupied
                &&& forall|i: int|
                    0 <= i < e.len() ==> self.key_slots@.contains_key(#[trigger] e[i].0) && lo
                        <= self.key_slots@[e[i].0] && e[i].1 == self@[e[i].0]
                &&& forall|i: int, i2: int|
                    0 <= i < i2 < e.len() ==> self.key_slots@[e[i].0] < self.key_slots@[e[i2].0]
                &&& forall|k: Seq<u8>|
                    self.key_slots@.contains_key(k) && lo <= self.key_slots@[k] ==> exists|i: int|
                        0 <= i < e.len() && #[trigger] e[i].0 == k
            }),
        decreases self.table@.len() - lo,
    {
        let n = self.table@.len() as int;
        let e = entries_from(self.table@, self.slot_keys@, lo);
        if lo == n {
            assert(self.table@.subrange(0, n) =~= self.table@);
            assert forall|k: Seq<u8>| self.key_slots@.contains_key(k) && lo <= self.key_slots@[k] implies exists|i: int|
                0 <= i < e.len() && #[trigger] e[i].0 == k by {
                self.lemma_key_slot(k);
            }
        } else {
            self.lemma_entries_from(lo + 1);
            let rest = entries_from(self.table@, self.slot_keys@, lo + 1);
            assert(self.table@.subrange(0, lo + 1).drop_last() =~= self.table@.subrange(0, lo));
            if self.table@[lo].is_some() {
                self.lemma_slot(lo);
                let h = (self.slot_keys@[lo], self.table@[lo]->Some_0.value);
                assert(e == seq![h] + rest);
                assert forall|i: int| 0 < i < e.len() implies #[trigger] e[i] == rest[i - 1] by {}
                assert forall|i: int|
                    0 <= i < e.len() implies self.key_slots@.contains_key(#[trigger] e[i].0) && lo
                    <= self.key_slots@[e[i].0] && e[i].1 == self@[e[i].0] by {
                    if i > 0 {
                        assert(e[i] == rest[i - 1]);
                    }
                }
                assert forall|i: int, i2: int| 0 <= i < i2 < e.len() implies self.key_slots@[e[i].0]
                    < self.key_slots@[e[i2].0] by {
                    assert(e[i2] == rest[i2 - 1]);
                    if i > 0 {
                        assert(e[i] == rest[i - 1]);
                    }
                }
                assert forall|k: Seq<u8>| self.key_slots@.contains_key(k) && lo <= self.key_slots@[k] implies exists|i: int|
                    0 <= i < e.len() && #[trigger] e[i].0 == k by {
                    self.lemma_key_slot(k);
                    if self.key_slots@[k] == lo {
                        assert(e[0].0 == k);
                    } else {
                        let i = choose|i: int| 0 <= i < rest.len() && #[trigger] rest[i].0 == k;
                        assert(e[i + 1] == rest[i]);
                    }
                }
            } else {
                assert(e =~= rest);
                assert forall|k: Seq<u8>| self.key_slots@.contains_key(k) && lo <= self.key_slots@[k] implies exists|i: int|
                    0 <= i < e.len() && #[trigger] e[i].0 == k by {
                    self.lemma_key_slot(k);
                }
            }
        }
    }

    /// The slot order lists every entry of the map exactly once.
    pub proof fn lemma_slot_entries(&self)
        requires
            self.wf(),
        ensures
            self.slot_entries().len() == self@.len(),
            forall|i: int|
                0 <= i < self.slot_entries().len() ==> self@.contains_key(
                    #[trigger] self.slot_entries()[i].0,
                ) && self@[self.slot_entries()[i].0] == self.slot_entries()[i].1,
            forall|i: int, i2: int|
                0 <= i < i2 < self.slot_entries().len() ==> self.slot_entries()[i].0
                    != self.slot_entries()[i2].0,
            forall|k: Seq<u8>|
                self@.contains_key(k) ==> exists|i: int|
                    0 <= i < self.slot_entries().len() && #[trigger] self.slot_entries()[i].0 == k,
    {
        self.lemma_entries_from(0);
        assert(self.table@.subrange(0, 0) =~= Seq::<Option<TableEntry<T>>>::empty());
        assert(self@.dom() =~= self.key_slots@.dom());
        let e = entries_from(self.table@, self.slot_keys@, 0);
        assert forall|k: Seq<u8>| self@.contains_key(k) implies exists|i: int|
            0 <= i < e.len() && #[trigger] e[i].0 == k by {
            self.lemma_key_slot(k);
            assert(self.key_slots@.contains_key(k) && 0 <= self.key_slots@[k]);
        }
    }
}

impl<T: Copy> StringHashMap<T> {
    /// Every entry as (key bytes, value), in ascending slot order.
    pub fn iter(&self) -> (r: Vec<(Vec<u8>, T)>)
        requires
            self.wf(),
        ensures
            entry_model(r@) == self.slot_entries(),
            r@.len() == self@.len(),
            forall|i: int|
                0 <= i < r@.len() ==> self@.contains_key(#[trigger] r@[i].0@) && self@[r@[i].0@]
                    == r@[i].1,
            forall|i: int, i2: int| 0 <= i < i2 < r@.len() ==> r@[i].0@ != r@[i2].0@,
            forall|k: Seq<u8>|
                self@.contains_key(k) ==> exists|i: int| 0 <= i < r@.len() && #[trigger] r@[i].0@ == k,
    {
        let mut out: Vec<(Vec<u8>, T)> = Vec::new();
        let n = self.table.len();
        let mut j: usize = 0;
        assert(entry_model(out@) =~= Seq::<(Seq<u8>, T)>::empty());
        while j < n
            invariant
                self.wf_core(),
                n == self.table@.len(),
                j <= n,
                entry_model(out@) + entries_from(self.table@, self.slot_keys@, j as int) == self.slot_entries(),
            decreases n - j,
        {
            let ghost before = entry_model(out@);
            let ghost rest = entries_from(self.table@, self.slot_keys@, j + 1);
            match &self.table[j] {
                Some(entry) => {
                    let ghost k = self.slot_keys@[j as int];
                    proof {
                        self.lemma_slot(j as int);
                    }
                    let key = read_key(&self.string_data, entry.pointer, Ghost(k));
                    let kv = vstd::slice::slice_to_vec(key);
                    out.push((kv, entry.value));
                    proof {
                        assert(entry_model(out@) =~= before.push((k, entry.value)));
                        assert(entries_from(self.table@, self.slot_keys@, j as int) == seq![(k, entry.value)] + rest);
                        assert(before.push((k, entry.value)) + rest =~= before + (seq![(k, entry.value)] + rest));
                    }
                },
                None => {
                    proof {
                        assert(entries_from(self.table@, self.slot_keys@, j as int) =~= rest);
                    }
                },
            }
            j = j + 1;
        }
        proof {
            assert(entries_from(self.table@, self.slot_keys@, n as int) =~= Seq::<(Seq<u8>, T)>::empty());
            assert(entry_model(out@) =~= self.slot_entries());
            self.lemma_slot_entries();
            assert forall|i: int| 0 <= i < out@.len() implies #[trigger] out@[i].0@ == self.slot_entries()[i].0 && out@[i].1 == self.slot_entries()[i].1 by {
                assert(entry_model(out@)[i] == self.slot_entries()[i]);
            }
            assert forall|k: Seq<u8>| self@.contains_key(k) implies exists|i: int| 0 <= i < out@.len() && #[trigger] out@[i].0@ == k by {
                let i = choose|i: int| 0 <= i < self.slot_entries().len() && #[trigger] self.slot_entries()[i].0 == k;
                assert(out@[i].0@ == k);
            }
        }
        out
    }

    /// Every value, in ascending slot order.
    pub fn values(&self) -> (r: Vec<T>)
        requires
            self.wf(),
        ensures
            r@ == self.slot_entries().map_values(|e: (Seq<u8>, T)| e.1),
            r@.len() == self@.len(),
    {
        let all = self.iter();
        let mut out: Vec<T> = Vec::new();
        let mut i: usize = 0;
        while i < all.len()
            invariant
                i <= all@.len(),
                out@.len() == i,
                forall|m: int| 0 <= m < i ==> out@[m] == (#[trigger] all@[m]).1,
            decreases all@.len() - i,
        {
            out.push(all[i].1);
            i = i + 1;
        }
        proof {
            assert forall|m: int| 0 <= m < out@.len() implies out@[m] == self.slot_entries()[m].1 by {
                assert(entry_model(all@)[m] == self.slot_entries()[m]);
            }
            assert(out@ =~= self.slot_entries().map_values(|e: (Seq<u8>, T)| e.1));
        }
        out
    }
}

impl<T> StringHashMap<T> {
    /// Releases spare capacity of the key log and the table; the contents
    /// stay as they are.
    pub fn shrink_to_fit(&mut self)
        requires
            old(self).wf(),
        ensures
            final(self).wf(),
            final(self)@ == old(self)@,
            final(self).spec_len() == old(self).spec_len(),
            final(self).data_len() == old(self).data_len(),
            final(self).capacity() == old(self).capacity(),
            final(self).slot_entries() == old(self).slot_entries(),
    {
        let ghost old_self = *self;
        shrink_vec(&mut self.string_data);
        shrink_vec(&mut self.table);
        assert(self.string_data@ == old_self.string_data@);
        assert(self.table@ == old_self.table@);
        assert(self@ =~= old_self@);
    }
}

/// Relies on Vec::shrink_to_fit: it changes the allocation, never the
/// elements.
#[verifier::external_body]
pub(crate) fn shrink_vec<E>(v: &mut Vec<E>)
    ensures
        final(v)@ == old(v)@,
{
    v.shrink_to_fit();
}

/// A call of `get_or_create(k, v)` on a map without `k` leaves `k` mapped to
/// `v`, so a later `get(k)` returns `v`.
pub proof fn lemma_write_then_read<T>(before: Map<Seq<u8>, T>, after: Map<Seq<u8>, T>, k: Seq<u8>, v: T)
    requires
        !before.contains_key(k),
        after == before.insert(k, v),
    ensures
        after.contains_key(k),
        after[k] == v,
{
}

/// A second `get_or_create(k, v2)` on a map that already holds `k` with
/// `v1` hands back `v1` and leaves the map as it was: `v2` is discarded.
pub proof fn lemma_first_write_wins<T>(before: Map<Seq<u8>, T>, k: Seq<u8>, v1: T)
    requires
        before.contains_key(k),
        before[k] == v1,
    ensures
        before.insert(k, before[k]) == before,
        before[k] == v1,
{
    assert(before.insert(k, before[k]) =~= before);
}

/// The contents `get_or_create` leaves after one call on contents `m`, when
/// the caller does not write through the returned reference.
pub open spec fn after_create<T>(m: Map<Seq<u8>, T>, k: Seq<u8>, v: T) -> Map<Seq<u8>, T> {
    m.insert(k, if m.contains_key(k) { m[k] } else { v })
}

/// The contents after `get_or_create(ks[i], vs[i])` for each `i` in turn.
pub open spec fn after_creates<T>(m: Map<Seq<u8>, T>, ks: Seq<Seq<u8>>, vs: Seq<T>) -> Map<Seq<u8>, T>
    decreases ks.len(),
{
    if ks.len() == 0 || ks.len() != vs.len() {
        m
    } else {
        after_create(after_creates(m, ks.drop_last(), vs.drop_last()), ks.last(), vs.last())
    }
}

/// A sequence of `get_or_create` calls on an empty map, whatever its
/// capacity and however often it resizes, leaves each key mapped to the value
/// of its first call; no other key is present.
pub proof fn lemma_resize_transparency<T>(ks: Seq<Seq<u8>>, vs: Seq<T>, i: int)
    requires
        ks.len() == vs.len(),
        0 <= i < ks.len(),
        forall|j: int| 0 <= j < i ==> ks[j] != ks[i],
    ensures
        after_creates(Map::empty(), ks, vs).contains_key(ks[i]),
        after_creates(Map::empty(), ks, vs)[ks[i]] == vs[i],
        forall|k: Seq<u8>|
            after_creates(Map::<Seq<u8>, T>::empty(), ks, vs).contains_key(k) ==> ks.contains(k),
    decreases ks.len(),
{
    lemma_creates_keys(ks, vs);
    let n = ks.len() - 1;
    if i < n {
        lemma_resize_transparency(ks.drop_last(), vs.drop_last(), i);
    } else {
        assert forall|j: int| 0 <= j < n implies ks.drop_last()[j] != ks[i] by {}
        lemma_creates_keys(ks.drop_last(), vs.drop_last());
        if after_creates(Map::<Seq<u8>, T>::empty(), ks.drop_last(), vs.drop_last()).contains_key(ks[i]) {
            assert(ks.drop_last().contains(ks[i]));
            let j = choose|j: int| 0 <= j < ks.drop_last().len() && ks.drop_last()[j] == ks[i];
            assert(ks.drop_last()[j] == ks[j]);
            assert(false);
        }
    }
}

proof fn lemma_creates_keys<T>(ks: Seq<Seq<u8>>, vs: Seq<T>)
    requires
        ks.len() == vs.len(),
    ensures
        forall|k: Seq<u8>|
            after_creates(Map::<Seq<u8>, T>::empty(), ks, vs).contains_key(k) ==> ks.contains(k),
    decreases ks.len(),
{
    if ks.len() > 0 {
        lemma_creates_keys(ks.drop_last(), vs.drop_last());
        assert forall|k: Seq<u8>|
            after_creates(Map::<Seq<u8>, T>::empty(), ks, vs).contains_key(k) implies ks.contains(k) by {
            if k == ks.last() {
                assert(ks[ks.len() - 1] == k);
            } else {
                assert(ks.drop_last().contains(k));
                let j = choose|j: int| 0 <= j < ks.drop_last().len() && ks.drop_last()[j] == k;
                assert(ks.drop_last()[j] == ks[j]);
            }
        }
    }
}

impl<T> StringHashMap<T> {
    /// Walks the keys in ascending slot order, the order of `iter`.
    pub fn keys(&self) -> (r: KeyIterator<'_, T>)
        requires
            self.wf(),
        ensures
            r.wf(),
            r.remaining() == self.slot_entries().map_values(|e: (Seq<u8>, T)| e.0),
            r.remaining().len() == self@.len(),
            r.remaining().no_duplicates(),
            forall|k: Seq<u8>| self@.contains_key(k) <==> r.remaining().contains(k),
    {
        let r = KeyIterator { map: self, pos: 0 };
        proof {
            self.lemma_slot_entries();
            let e = self.slot_entries();
            let ks = e.map_values(|p: (Seq<u8>, T)| p.0);
            assert(r.remaining() =~= ks);
            assert forall|k: Seq<u8>| self@.contains_key(k) <==> ks.contains(k) by {
                if self@.contains_key(k) {
                    let i = choose|i: int| 0 <= i < e.len() && #[trigger] e[i].0 == k;
                    assert(ks[i] == k);
                }
                if ks.contains(k) {
                    let i = choose|i: int| 0 <= i < ks.len() && ks[i] == k;
                    assert(e[i].0 == k);
                }
            }
            assert forall|i: int, j: int| 0 <= i < ks.len() && 0 <= j < ks.len() && i != j implies ks[i] != ks[j] by {
                if i < j {
                    assert(e[i].0 != e[j].0);
                } else {
                    assert(e[j].0 != e[i].0);
                }
            }
        }
        r
    }
}

/// Hands out the keys of a map in ascending slot order, reading each from
/// the key log.
pub struct KeyIterator<'a, T> {
    pub map: &'a StringHashMap<T>,
    pos: usize,
}

impl<'a, T> KeyIterator<'a, T> {
    /// The cursor is a slot index within the table.
    pub closed spec fn wf(&self) -> bool {
        &&& self.map.wf()
        &&& self.pos <= self.map.table@.len()
    }

    /// The keys not handed out yet.
    pub closed spec fn remaining(&self) -> Seq<Seq<u8>> {
        entries_from(self.map.table@, self.map.slot_keys@, self.pos as int).map_values(
            |e: (Seq<u8>, T)| e.0,
        )
    }

    /// The next key, or `None` when all have been handed out.
    pub fn next(&mut self) -> (r: Option<&'a [u8]>)
        requires
            old(self).wf(),
        ensures
            final(self).wf(),
            old(self).remaining().len() == 0 ==> r.is_none() && final(self).remaining()
                == old(self).remaining(),
            old(self).remaining().len() > 0 ==> r.is_some() && r.unwrap()@ == old(self).remaining()[0]
                && final(self).remaining() == old(self).remaining().drop_first(),
    {
        let map: &'a StringHashMap<T> = self.map;
        let n = map.table.len();
        let start = self.pos;
        let mut p = self.pos;
        while p < n && map.table[p].is_none()
            invariant
                map.wf(),
                n == map.table@.len(),
                start <= p <= n,
                entries_from(map.table@, map.slot_keys@, p as int) == entries_from(
                    map.table@,
                    map.slot_keys@,
                    start as int,
                ),
            decreases n - p,
        {
            assert(entries_from(map.table@, map.slot_keys@, p as int) =~= entries_from(
                map.table@,
                map.slot_keys@,
                p + 1,
            ));
            p = p + 1;
        }
        if p == n {
            self.pos = n;
            None
        } else {
            match &map.table[p] {
                Some(entry) => {
                    let ghost k = map.slot_keys@[p as int];
                    let ghost rest = entries_from(map.table@, map.slot_keys@, p + 1);
                    proof {
                        map.lemma_slot(p as int);
                        assert(entries_from(map.table@, map.slot_keys@, p as int) == seq![(k, entry.value)] + rest);
                    }
                    let key = read_key(&map.string_data, entry.pointer, Ghost(k));
                    self.pos = p + 1;
                    proof {
                        let f = |e: (Seq<u8>, T)| e.0;
                        assert((seq![(k, entry.value)] + rest).map_values(f) =~= seq![k] + rest.map_values(f));
                        assert((seq![k] + rest.map_values(f)).drop_first() =~= rest.map_values(f));
                    }
                    Some(key)
                },
                None => vstd::pervasive::unreached(),
            }
        }
    }
}

impl<T> Default for StringHashMap<T> {
    /// An empty map with 512 slots.
    fn default() -> (r: Self)
        ensures
            r.wf(),
            r@ == Map::<Seq<u8>, T>::empty(),
            r.spec_len() == 0,
            r.capacity() == 512,
    {
        Self::new()
    }
}

/// The bytes of the key stored at offset `p`.
fn read_key<'a>(data: &'a Vec<u8>, p: u32, Ghost(k): Ghost<Seq<u8>>) -> (r: &'a [u8])
    requires
        record_at(data@, p as int, k),
        data@.len() <= u32::MAX,
    ensures
        r@ == k,
{
    let mut pos = p as usize;
    let ghost vl = varint(k.len() as u32).len();
    assert(data@.subrange(p as int, p + vl) =~= record(k).subrange(0, vl as int));
    assert(record(k).subrange(0, vl as int) =~= varint(k.len() as u32));
    assert(varint_at(data@, p as int, k.len() as u32));
    let len = decode_varint(data.as_slice(), &mut pos);
    match len {
        Some(l) => {
            assert(data@.subrange(pos as int, pos + l) =~= record(k).subrange(vl as int, record(k).len() as int));
            assert(record(k).subrange(vl as int, record(k).len() as int) =~= k);
            vstd::slice::slice_subrange(data.as_slice(), pos, pos + l as usize)
        },
        None => vstd::slice::slice_subrange(data.as_slice(), 0, 0),
    }
}

/// Whether the key stored at offset `p` equals `key`.
fn key_matches(data: &Vec<u8>, p: u32, Ghost(k): Ghost<Seq<u8>>, key: &[u8]) -> (r: bool)
    requires
        record_at(data@, p as int, k),
        data@.len() <= u32::MAX,
    ensures
        r == (k == key@),
{
    let stored = read_key(data, p, Ghost(k));
    bytes_eq(stored, key)
}

/// Byte-wise equality.
pub(crate) fn bytes_eq(a: &[u8], b: &[u8]) -> (r: bool)
    ensures
        r == (a@ == b@),
{
    if a.len() != b.len() {
        return false;
    }
    let mut i: usize = 0;
    while i < a.len()
        invariant
            a@.len() == b@.len(),
            i <= a@.len(),
            forall|j: int| 0 <= j < i ==> a@[j] == b@[j],
        decreases a@.len() - i,
    {
        if a[i] != b[i] {
            return false;
        }
        i = i + 1;
    }
    assert(a@ =~= b@);
    true
}

} // verus!
