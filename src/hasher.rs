//! The "triad" FNV-style hash over byte strings.
//!
//! Words are read little-endian from the input. The hash processes 24-byte
//! blocks in three independent lanes, then folds the tail in descending
//! power-of-two chunks, and finishes with an avalanche step.
use vstd::prelude::*;

verus! {

/// Multiplier applied after each fold.
pub const PRIME: u32 = 709_607;

/// FNV offset basis the accumulators start from.
pub const OFFSET_BASIS: u32 = 2_166_136_261;

/// Seed used by [`fnv32a_yoshimitsu_hasher`].
pub const DEFAULT_SEED: u32 = 0xD8AF_FD71;

/// Left rotation by five bits.
pub open spec fn rotl5(x: u32) -> u32 {
    (x << 5u32) | (x >> 27u32)
}

/// One fold step: xor the word in, then multiply (wrapping) by `PRIME`.
pub open spec fn mix(acc: u32, w: u32) -> u32 {
    (acc ^ w).wrapping_mul(PRIME)
}

/// The little-endian 32-bit word at `i`.
pub open spec fn u32_at(s: Seq<u8>, i: int) -> u32 {
    (s[i] as u32) | ((s[i + 1] as u32) << 8u32) | ((s[i + 2] as u32) << 16u32) | ((s[i + 3] as u32)
        << 24u32)
}

/// The little-endian 16-bit word at `i`, widened.
pub open spec fn u16_at(s: Seq<u8>, i: int) -> u32 {
    (s[i] as u32) | ((s[i + 1] as u32) << 8u32)
}

/// The value an 8-byte lane at `i` contributes.
pub open spec fn lane(s: Seq<u8>, i: int) -> u32 {
    rotl5(u32_at(s, i)) ^ u32_at(s, i + 4)
}

/// The three accumulators after the first `k` full blocks.
pub open spec fn blocks(seed: u32, s: Seq<u8>, k: nat) -> (u32, u32, u32)
    decreases k,
{
    if k == 0 {
        (seed ^ OFFSET_BASIS, OFFSET_BASIS.wrapping_add(s.len() as u32), OFFSET_BASIS)
    } else {
        let (a, b, c) = blocks(seed, s, (k - 1) as nat);
        let p = 24 * (k - 1);
        (mix(a, lane(s, p)), mix(b, lane(s, p + 8)), mix(c, lane(s, p + 16)))
    }
}

/// Tail step for bit 16 of the remaining length; the state is `(a, b, cursor)`.
pub open spec fn tail16(s: Seq<u8>, st: (u32, u32, int), rem: u32) -> (u32, u32, int) {
    if rem & 16 != 0 {
        (mix(st.0, lane(s, st.2)), mix(st.1, lane(s, st.2 + 8)), st.2 + 16)
    } else {
        st
    }
}

/// Tail step for bit 8 of the remaining length.
pub open spec fn tail8(s: Seq<u8>, st: (u32, u32, int), rem: u32) -> (u32, u32, int) {
    if rem & 8 != 0 {
        (mix(st.0, u32_at(s, st.2)), mix(st.1, u32_at(s, st.2 + 4)), st.2 + 8)
    } else {
        st
    }
}

/// Tail step for bit 4 of the remaining length.
pub open spec fn tail4(s: Seq<u8>, st: (u32, u32, int), rem: u32) -> (u32, u32, int) {
    if rem & 4 != 0 {
        (mix(st.0, u16_at(s, st.2)), mix(st.1, u16_at(s, st.2 + 2)), st.2 + 4)
    } else {
        st
    }
}

/// Tail step for bit 2 of the remaining length.
pub open spec fn tail2(s: Seq<u8>, st: (u32, u32, int), rem: u32) -> (u32, u32, int) {
    if rem & 2 != 0 {
        (mix(st.0, u16_at(s, st.2)), st.1, st.2 + 2)
    } else {
        st
    }
}

/// Tail step for bit 1 of the remaining length.
pub open spec fn tail1(s: Seq<u8>, st: (u32, u32, int), rem: u32) -> (u32, u32, int) {
    if rem & 1 != 0 {
        (mix(st.0, s[st.2] as u32), st.1, st.2 + 1)
    } else {
        st
    }
}

/// The hash of `s` under `seed`.
pub open spec fn triad_hash(seed: u32, s: Seq<u8>) -> u32 {
    let n = s.len() / 24;
    let (a0, b0, c0) = blocks(seed, s, n);
    let a1 = if n == 0 {
        mix(a0, rotl5(c0))
    } else {
        a0
    };
    let rem = (s.len() - 24 * n) as u32;
    let st = tail1(s, tail2(s, tail4(s, tail8(s, tail16(s, (a1, b0, (24 * n) as int), rem), rem), rem), rem), rem);
    let a = mix(st.0, rotl5(st.1));
    a ^ (a >> 16u32)
}

/// The hash with the default seed.
pub open spec fn default_hash(s: Seq<u8>) -> u32 {
    triad_hash(DEFAULT_SEED, s)
}

fn rotl32(x: u32) -> (r: u32)
    ensures
        r == rotl5(x),
{
    (x << 5u32) | (x >> 27u32)
}

fn read_u32(b: &[u8], i: usize) -> (r: u32)
    requires
        i + 4 <= b@.len(),
    ensures
        r == u32_at(b@, i as int),
{
    (b[i] as u32) | ((b[i + 1] as u32) << 8u32) | ((b[i + 2] as u32) << 16u32) | ((b[i + 3] as u32)
        << 24u32)
}

fn read_u16(b: &[u8], i: usize) -> (r: u32)
    requires
        i + 2 <= b@.len(),
    ensures
        r == u16_at(b@, i as int),
{
    (b[i] as u32) | ((b[i + 1] as u32) << 8u32)
}

fn read_lane(b: &[u8], i: usize) -> (r: u32)
    requires
        i + 8 <= b@.len() <= usize::MAX,
    ensures
        r == lane(b@, i as int),
{
    rotl32(read_u32(b, i)) ^ read_u32(b, i + 4)
}

/// Hashes `bytes` with the default seed.
pub fn fnv32a_yoshimitsu_hasher(bytes: &[u8]) -> (r: u32)
    ensures
        r == default_hash(bytes@),
{
    fnv32a_yoshimitsu_triad(DEFAULT_SEED, bytes)
}

/// Hashes `bytes` under `seed`. Total: any length, including zero.
pub fn fnv32a_yoshimitsu_triad(seed: u32, bytes: &[u8]) -> (r: u32)
    ensures
        r == triad_hash(seed, bytes@),
{
    let s = Ghost(bytes@);
    let len = bytes.len();
    #[verifier::truncate]
    let len32: u32 = len as u32;
    let mut a: u32 = seed ^ OFFSET_BASIS;
    let mut b: u32 = OFFSET_BASIS.wrapping_add(len32);
    let mut c: u32 = OFFSET_BASIS;
    let mut p: usize = 0;
    let mut k: usize = 0;
    while len - p >= 24
        invariant
            len == s@.len(),
            bytes@ == s@,
            len32 == s@.len() as u32,
            p == 24 * k,
            p <= len,
            (a, b, c) == blocks(seed, s@, k as nat),
        decreases len - p,
    {
        a = (a ^ read_lane(bytes, p)).wrapping_mul(PRIME);
        b = (b ^ read_lane(bytes, p + 8)).wrapping_mul(PRIME);
        c = (c ^ read_lane(bytes, p + 16)).wrapping_mul(PRIME);
        p = p + 24;
        k = k + 1;
    }
    assert(k == len / 24);
    if p == 0 {
        a = (a ^ rotl32(c)).wrapping_mul(PRIME);
    }
    let rem: u32 = (len - p) as u32;
    assert(rem < 24);
    assert((rem & 16) + (rem & 8) + (rem & 4) + (rem & 2) + (rem & 1) == rem) by (bit_vector)
        requires
            rem < 24,
    ;
    assert(rem & 16 == 0 || rem & 16 == 16) by (bit_vector);
    assert(rem & 8 == 0 || rem & 8 == 8) by (bit_vector);
    assert(rem & 4 == 0 || rem & 4 == 4) by (bit_vector);
    assert(rem & 2 == 0 || rem & 2 == 2) by (bit_vector);
    assert(rem & 1 == 0 || rem & 1 == 1) by (bit_vector);
    let ghost st0 = (a, b, p as int);
    if (rem & 16) != 0 {
        a = (a ^ read_lane(bytes, p)).wrapping_mul(PRIME);
        b = (b ^ read_lane(bytes, p + 8)).wrapping_mul(PRIME);
        p = p + 16;
    }
    assert((a, b, p as int) == tail16(s@, st0, rem));
    let ghost st1 = (a, b, p as int);
    if (rem & 8) != 0 {
        a = (a ^ read_u32(bytes, p)).wrapping_mul(PRIME);
        b = (b ^ read_u32(bytes, p + 4)).wrapping_mul(PRIME);
        p = p + 8;
    }
    assert((a, b, p as int) == tail8(s@, st1, rem));
    let ghost st2 = (a, b, p as int);
    if (rem & 4) != 0 {
        a = (a ^ read_u16(bytes, p)).wrapping_mul(PRIME);
        b = (b ^ read_u16(bytes, p + 2)).wrapping_mul(PRIME);
        p = p + 4;
    }
    assert((a, b, p as int) == tail4(s@, st2, rem));
    let ghost st3 = (a, b, p as int);
    if (rem & 2) != 0 {
        a = (a ^ read_u16(bytes, p)).wrapping_mul(PRIME);
        p = p + 2;
    }
    assert((a, b, p as int) == tail2(s@, st3, rem));
    let ghost st4 = (a, b, p as int);
    if (rem & 1) != 0 {
        a = (a ^ (bytes[p] as u32)).wrapping_mul(PRIME);
    }
    assert(a == tail1(s@, st4, rem).0);
    a = (a ^ rotl32(b)).wrapping_mul(PRIME);
    a ^ (a >> 16u32)
}

/// The hash is a function of its arguments: equal seeds and equal byte
/// sequences always give equal hashes.
pub proof fn lemma_hash_deterministic(seed: u32, s1: Seq<u8>, s2: Seq<u8>)
    requires
        s1 == s2,
    ensures
        triad_hash(seed, s1) == triad_hash(seed, s2),
{
}

} // verus!
