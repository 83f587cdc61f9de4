//! A store for keys of exactly eight bytes, kept back to back.
use vstd::prelude::*;
use vstd::string::StringSliceAdditionalSpecFns;
use crate::string_map::shrink_vec;

verus! {

/// Length, in bytes, of the keys this store holds.
pub const KEY_LEN: usize = 8;

/// Where a key sits in a [`StringData`]; `u32::MAX` marks no key.
#[derive(Debug, Clone, Copy, PartialEq, Eq, Structural)]
pub struct OffsetInformation {
    pub pos_in_bucket: u32,
}

impl OffsetInformation {
    /// Whether this is the marker for no key.
    pub fn is_null(&self) -> (r: bool)
        ensures
            r == (self.pos_in_bucket == u32::MAX),
    {
        self.pos_in_bucket == u32::MAX
    }
}

impl Default for OffsetInformation {
    fn default() -> (r: OffsetInformation)
        ensures
            r.pos_in_bucket == u32::MAX,
    {
        OffsetInformation { pos_in_bucket: u32::MAX }
    }
}

/// Eight-byte keys, stored in insertion order.
#[derive(Debug)]
pub struct StringData {
    string_len8: Vec<u8>,
}

impl View for StringData {
    type V = Seq<Seq<u8>>;

    /// The stored keys, in insertion order.
    closed spec fn view(&self) -> Seq<Seq<u8>> {
        Seq::new(
            self.string_len8@.len() / 8,
            |i: int| self.string_len8@.subrange(8 * i, 8 * i + 8),
        )
    }
}

impl StringData {
    /// The byte buffer holds whole keys only.
    pub closed spec fn wf(&self) -> bool {
        self.string_len8@.len() % 8 == 0
    }

    /// An empty store.
    pub fn new() -> (r: StringData)
        ensures
            r.wf(),
            r@ == Seq::<Seq<u8>>::empty(),
    {
        let r = StringData { string_len8: Vec::new() };
        assert(r@ =~= Seq::<Seq<u8>>::empty());
        r
    }

    /// Reports nothing: the store keeps no statistics.
    pub fn dbg(&self) {
    }

    /// Releases spare capacity; the keys stay as they are.
    pub fn shrink_to_fit(&mut self)
        requires
            old(self).wf(),
        ensures
            final(self).wf(),
            final(self)@ == old(self)@,
    {
        shrink_vec(&mut self.string_len8);
    }

    /// The bytes of the key at `offsets`.
    pub fn read_string(&self, offsets: OffsetInformation) -> (r: &[u8])
        requires
            self.wf(),
            (offsets.pos_in_bucket as int) < self@.len(),
        ensures
            r@ == self@[offsets.pos_in_bucket as int],
    {
        let total = self.string_len8.len();
        let ghost p = offsets.pos_in_bucket as int;
        proof {
            assert(p * 8 + 8 <= total) by (nonlinear_arith)
                requires
                    0 <= p < total / 8,
            ;
        }
        let start = offsets.pos_in_bucket as usize * 8;
        vstd::slice::slice_subrange(self.string_len8.as_slice(), start, start + 8)
    }

    /// Appends `el`, which is exactly eight bytes long; returns where it went.
    pub fn insert(&mut self, el: &str) -> (r: OffsetInformation)
        requires
            old(self).wf(),
            el.spec_bytes().len() == KEY_LEN,
            old(self)@.len() < u32::MAX,
        ensures
            final(self).wf(),
            final(self)@ == old(self)@.push(el.spec_bytes()),
            r.pos_in_bucket == old(self)@.len(),
            r.pos_in_bucket != u32::MAX,
    {
        let ghost old_bytes = self.string_len8@;
        let pos = self.string_len8.len() / 8;
        self.string_len8.extend_from_slice(el.as_bytes());
        proof {
            let b = self.string_len8@;
            assert(b.len() / 8 == old_bytes.len() / 8 + 1);
            assert forall|i: int| 0 <= i < old_bytes.len() / 8 implies #[trigger] b.subrange(8 * i, 8 * i + 8)
                == old_bytes.subrange(8 * i, 8 * i + 8) by {
                assert(b.subrange(8 * i, 8 * i + 8) =~= old_bytes.subrange(8 * i, 8 * i + 8));
            }
            assert(b.subrange(8 * pos, 8 * pos + 8) =~= el.spec_bytes());
            assert(self@ =~= old(self)@.push(el.spec_bytes()));
        }
        OffsetInformation { pos_in_bucket: pos as u32 }
    }
}

} // verus!
