//! A growable byte arena: regions are appended and never move, so an offset
//! into it stays valid for the arena's life.
use vstd::prelude::*;
use byteorder::{ByteOrder, LittleEndian};

verus! {

/// Offset of the sentinel address that marks "no region".
pub const NULL_ADDR: u32 = u32::MAX;

/// The two little-endian bytes of `n`.
pub open spec fn le16(n: u16) -> Seq<u8> {
    seq![(n & 0xff) as u8, (n >> 8u16) as u8]
}

/// The four little-endian bytes of `n`.
pub open spec fn le32(n: u32) -> Seq<u8> {
    seq![(n & 0xff) as u8, ((n >> 8u32) & 0xff) as u8, ((n >> 16u32) & 0xff) as u8, (n >> 24u32) as u8]
}

/// The little-endian 16-bit number in the first two bytes of `s`.
pub open spec fn u16_of(s: Seq<u8>) -> u16 {
    (s[0] as u16) | ((s[1] as u16) << 8u16)
}

/// The little-endian 32-bit number in the first four bytes of `s`.
pub open spec fn u32_of(s: Seq<u8>) -> u32 {
    (s[0] as u32) | ((s[1] as u32) << 8u32) | ((s[2] as u32) << 16u32) | ((s[3] as u32) << 24u32)
}

/// Reading back what was written gives the number.
pub proof fn lemma_le16_round_trip(n: u16)
    ensures
        u16_of(le16(n)) == n,
{
    assert(((n & 0xff) as u8) as u16 == n & 0xff) by (bit_vector);
    assert(((n >> 8u16) as u8) as u16 == n >> 8u16) by (bit_vector);
    assert(((n & 0xff) | ((n >> 8u16) << 8u16)) == n) by (bit_vector);
}

/// Reading back what was written gives the number.
pub proof fn lemma_le32_round_trip(n: u32)
    ensures
        u32_of(le32(n)) == n,
{
    assert(((n & 0xff) as u8) as u32 == n & 0xff) by (bit_vector);
    assert((((n >> 8u32) & 0xff) as u8) as u32 == (n >> 8u32) & 0xff) by (bit_vector);
    assert((((n >> 16u32) & 0xff) as u8) as u32 == (n >> 16u32) & 0xff) by (bit_vector);
    assert(((n >> 24u32) as u8) as u32 == n >> 24u32) by (bit_vector);
    assert(((n & 0xff) | (((n >> 8u32) & 0xff) << 8u32) | (((n >> 16u32) & 0xff) << 16u32) | ((n
        >> 24u32) << 24u32)) == n) by (bit_vector);
}

/// Relies on byteorder's LittleEndian::write_u16: it writes the low byte first.
#[verifier::external_body]
fn le_u16_bytes(n: u16) -> (r: [u8; 2])
    ensures
        r@ == le16(n),
{
    let mut b = [0u8; 2];
    LittleEndian::write_u16(&mut b, n);
    b
}

/// Relies on byteorder's LittleEndian::write_u32: it writes the low byte first.
#[verifier::external_body]
fn le_u32_bytes(n: u32) -> (r: [u8; 4])
    ensures
        r@ == le32(n),
{
    let mut b = [0u8; 4];
    LittleEndian::write_u32(&mut b, n);
    b
}

/// Relies on byteorder's LittleEndian::read_u16: it reads the first two
/// bytes, low byte first.
#[verifier::external_body]
fn read_le_u16(b: &[u8]) -> (r: u16)
    requires
        b@.len() >= 2,
    ensures
        r == u16_of(b@),
{
    LittleEndian::read_u16(b)
}

/// Relies on byteorder's LittleEndian::read_u32: it reads the first four
/// bytes, low byte first.
#[verifier::external_body]
fn read_le_u32(b: &[u8]) -> (r: u32)
    requires
        b@.len() >= 4,
    ensures
        r == u32_of(b@),
{
    LittleEndian::read_u32(b)
}

/// An address in a [`MemoryArena`].
#[derive(Debug, Clone, Copy, PartialEq, Eq, Structural)]
pub struct Addr(pub u32);

impl Addr {
    /// The address that marks "no region".
    pub fn null_pointer() -> (r: Addr)
        ensures
            r.0 == NULL_ADDR,
    {
        Addr(NULL_ADDR)
    }

    /// Whether this is the null address.
    pub fn is_null(&self) -> (r: bool)
        ensures
            r == (self.0 == NULL_ADDR),
    {
        self.0 == NULL_ADDR
    }

    /// The address `n` bytes further on.
    pub fn offset(&self, n: u32) -> (r: Addr)
        requires
            self.0 + n <= u32::MAX,
        ensures
            r.0 == self.0 + n,
    {
        Addr(self.0 + n)
    }
}

/// Append-only bytes; regions never move.
pub struct MemoryArena {
    data: Vec<u8>,
}

impl View for MemoryArena {
    type V = Seq<u8>;

    closed spec fn view(&self) -> Seq<u8> {
        self.data@
    }
}

impl MemoryArena {
    /// An empty arena.
    pub fn new() -> (r: MemoryArena)
        ensures
            r@ == Seq::<u8>::empty(),
    {
        MemoryArena { data: Vec::new() }
    }

    /// Bytes in use.
    pub fn len(&self) -> (r: usize)
        ensures
            r == self@.len(),
    {
        self.data.len()
    }

    /// Appends `key`'s length as two little-endian bytes, then `key`, then
    /// `value` as four little-endian bytes; returns where the region starts.
    pub fn push_record(&mut self, key: &[u8], value: u32) -> (r: Addr)
        requires
            key@.len() <= u16::MAX,
            old(self)@.len() + key@.len() + 6 < u32::MAX,
        ensures
            r.0 == old(self)@.len(),
            final(self)@ == old(self)@ + le16(key@.len() as u16) + key@ + le32(value),
    {
        let a = Addr(self.data.len() as u32);
        let l = le_u16_bytes(key.len() as u16);
        self.data.extend_from_slice(&l);
        self.data.extend_from_slice(key);
        let v = le_u32_bytes(value);
        self.data.extend_from_slice(&v);
        a
    }

    /// The `len` bytes at `addr`.
    pub fn slice(&self, addr: Addr, len: usize) -> (r: &[u8])
        requires
            addr.0 + len <= self@.len(),
        ensures
            r@ == self@.subrange(addr.0 as int, addr.0 + len),
    {
        let total = self.data.len();
        assert(addr.0 + len <= total);
        vstd::slice::slice_subrange(self.data.as_slice(), addr.0 as usize, addr.0 as usize + len)
    }

    /// The little-endian 16-bit number at `addr`.
    pub fn read_u16(&self, addr: Addr) -> (r: u16)
        requires
            addr.0 + 2 <= self@.len(),
        ensures
            r == u16_of(self@.subrange(addr.0 as int, addr.0 + 2)),
    {
        read_le_u16(self.slice(addr, 2))
    }

    /// The little-endian 32-bit number at `addr`.
    pub fn read(&self, addr: Addr) -> (r: u32)
        requires
            addr.0 + 4 <= self@.len(),
        ensures
            r == u32_of(self@.subrange(addr.0 as int, addr.0 + 4)),
    {
        read_le_u32(self.slice(addr, 4))
    }

    /// Overwrites the four bytes at `addr` with `value`, little-endian.
    pub fn write_at(&mut self, addr: Addr, value: u32)
        requires
            addr.0 + 4 <= old(self)@.len(),
        ensures
            final(self)@ == old(self)@.subrange(0, addr.0 as int) + le32(value) + old(self)@.subrange(
                addr.0 + 4,
                old(self)@.len() as int,
            ),
    {
        let b = le_u32_bytes(value);
        let total = self.data.len();
        let a = addr.0 as usize;
        self.data.set(a, b[0]);
        self.data.set(a + 1, b[1]);
        self.data.set(a + 2, b[2]);
        self.data.set(a + 3, b[3]);
        assert(self.data@ =~= old(self)@.subrange(0, addr.0 as int) + le32(value) + old(self)@.subrange(
            addr.0 + 4,
            old(self)@.len() as int,
        ));
    }
}

} // verus!
