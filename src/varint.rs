//! Length prefixes of stored keys, in the 7-bit-group variable-length format.
use vstd::prelude::*;

verus! {

/// The encoding of `v`: groups of seven bits, lowest first, each group but
/// the last with its high bit set.
pub open spec fn varint(v: u32) -> Seq<u8>
    decreases v,
{
    if v < 128 {
        seq![v as u8]
    } else {
        seq![(v % 128 + 128) as u8] + varint(v / 128)
    }
}

/// `data` holds the encoding of `v` starting at `pos`.
pub open spec fn varint_at(data: Seq<u8>, pos: int, v: u32) -> bool {
    0 <= pos && pos + varint(v).len() <= data.len() && data.subrange(pos, pos + varint(v).len())
        == varint(v)
}

/// `128` to the power `k`.
pub open spec fn pow128(k: nat) -> int
    decreases k,
{
    if k == 0 {
        1
    } else {
        128 * pow128((k - 1) as nat)
    }
}

proof fn lemma_varint_len_below(v: u32, k: nat)
    requires
        k >= 1,
        (v as int) < pow128(k),
    ensures
        varint(v).len() <= k,
    decreases k,
{
    if v >= 128 {
        if k == 1 {
            assert(pow128(1) == 128 * pow128(0));
        }
        assert(k >= 2);
        let p = pow128((k - 1) as nat);
        assert((v as int) < 128 * p);
        assert(((v / 128) as int) < p) by (nonlinear_arith)
            requires
                (v as int) < 128 * p,
                v >= 128,
        ;
        lemma_varint_len_below(v / 128, (k - 1) as nat);
    }
}

/// An encoding takes one to five bytes.
pub proof fn lemma_varint_len(v: u32)
    ensures
        1 <= varint(v).len() <= 5,
{
    reveal_with_fuel(pow128, 6);
    lemma_varint_len_below(v, 5);
}

/// Relies on vint32::encode_varint_into: it appends the encoding of `value`
/// to `output`.
#[verifier::external_body]
pub(crate) fn encode_varint(output: &mut Vec<u8>, value: u32)
    ensures
        final(output)@ == old(output)@ + varint(value),
{
    vint32::encode_varint_into(output, value);
}

/// Relies on vint32::decode_varint_slice: where the encoding of a value starts
/// at `*pos`, it returns that value and moves `*pos` past the encoding.
#[verifier::external_body]
pub(crate) fn decode_varint(data: &[u8], pos: &mut usize) -> (r: Option<u32>)
    requires
        exists|v: u32| varint_at(data@, *old(pos) as int, v),
    ensures
        forall|v: u32|
            varint_at(data@, *old(pos) as int, v) ==> r == Some(v) && *final(pos) == *old(pos)
                + varint(v).len(),
{
    vint32::decode_varint_slice(data, pos)
}

} // verus!
