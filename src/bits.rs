use bitvec::order::Msb0;
use bitvec::vec::BitVec;
use bitvec::view::BitView;
use vstd::prelude::*;

verus! {

/// A growable string of bits stored most significant bit first, kept in a
/// `bitvec` bit vector that Verus does not see into.
#[verifier::external_body]
pub struct BitBuffer {
    bits: BitVec<u8, Msb0>,
}

/// The bits that a bit vector holds, first bit first.
pub uninterp spec fn bits_of(v: BitBuffer) -> Seq<bool>;

/// Bit `j` of a byte, counting from the most significant bit.
pub open spec fn msb_bit(b: u8, j: int) -> bool {
    ((b >> ((7 - j) as u8)) & 1u8) == 1u8
}

/// The bits of a byte string, each byte most significant bit first.
pub open spec fn bits_of_bytes(s: Seq<u8>) -> Seq<bool> {
    Seq::new(8 * s.len(), |i: int| msb_bit(s[i / 8], i % 8))
}

/// `bytes` is the storage of `bits`: one byte per started group of eight
/// bits, each live bit in its place; the unused low bits of a last partial
/// byte are left open.
pub open spec fn packs(bytes: Seq<u8>, bits: Seq<bool>) -> bool {
    &&& bytes.len() == (bits.len() + 7) / 8
    &&& forall|i: int| 0 <= i < bits.len() ==> #[trigger] bits[i] == msb_bit(bytes[i / 8], i % 8)
}

/// The most bits a bit vector can hold (`BitSpan::REGION_MAX_BITS`).
pub open spec fn bit_capacity() -> int {
    (usize::MAX as int) / 8
}

pub(crate) proof fn lemma_byte_from_bits(a: u8, b: u8)
    requires
        forall|j: int| 0 <= j < 8 ==> #[trigger] msb_bit(a, j) == msb_bit(b, j),
    ensures
        a == b,
{
    assert(msb_bit(a, 0) == msb_bit(b, 0));
    assert(msb_bit(a, 1) == msb_bit(b, 1));
    assert(msb_bit(a, 2) == msb_bit(b, 2));
    assert(msb_bit(a, 3) == msb_bit(b, 3));
    assert(msb_bit(a, 4) == msb_bit(b, 4));
    assert(msb_bit(a, 5) == msb_bit(b, 5));
    assert(msb_bit(a, 6) == msb_bit(b, 6));
    assert(msb_bit(a, 7) == msb_bit(b, 7));
    assert(a == b) by (bit_vector)
        requires
            (((a >> 7u8) & 1u8) == 1u8) == (((b >> 7u8) & 1u8) == 1u8),
            (((a >> 6u8) & 1u8) == 1u8) == (((b >> 6u8) & 1u8) == 1u8),
            (((a >> 5u8) & 1u8) == 1u8) == (((b >> 5u8) & 1u8) == 1u8),
            (((a >> 4u8) & 1u8) == 1u8) == (((b >> 4u8) & 1u8) == 1u8),
            (((a >> 3u8) & 1u8) == 1u8) == (((b >> 3u8) & 1u8) == 1u8),
            (((a >> 2u8) & 1u8) == 1u8) == (((b >> 2u8) & 1u8) == 1u8),
            (((a >> 1u8) & 1u8) == 1u8) == (((b >> 1u8) & 1u8) == 1u8),
            (((a >> 0u8) & 1u8) == 1u8) == (((b >> 0u8) & 1u8) == 1u8),
    ;
}

/// Two byte strings that store the same bits agree on every byte but the
/// last, whose unused low bits may differ.
pub proof fn lemma_packs_agree(r1: Seq<u8>, r2: Seq<u8>, bits: Seq<bool>)
    requires
        packs(r1, bits),
        packs(r2, bits),
    ensures
        r1.len() == r2.len(),
        forall|i: int| 0 <= i < r1.len() - 1 ==> #[trigger] r1[i] == r2[i],
{
    assert forall|i: int| 0 <= i < r1.len() - 1 implies #[trigger] r1[i] == r2[i] by {
        assert(8 * i + 7 < bits.len());
        assert forall|j: int| 0 <= j < 8 implies #[trigger] msb_bit(r1[i], j) == msb_bit(r2[i], j) by {
            let k = 8 * i + j;
            assert(k / 8 == i && k % 8 == j);
            assert(bits[k] == msb_bit(r1[k / 8], k % 8));
            assert(bits[k] == msb_bit(r2[k / 8], k % 8));
        }
        lemma_byte_from_bits(r1[i], r2[i]);
    }
}

/// Relies on `BitVec::new`: a new bit vector is empty.
#[verifier::external_body]
pub(crate) fn bit_buffer() -> (r: BitBuffer)
    ensures
        bits_of(r) == Seq::<bool>::empty(),
{
    BitBuffer { bits: BitVec::new() }
}

/// Relies on `BitVec::push`: appends one bit; it panics past the capacity.
#[verifier::external_body]
pub(crate) fn bit_push(v: &mut BitBuffer, b: bool)
    requires
        bits_of(*old(v)).len() + 1 <= bit_capacity(),
    ensures
        bits_of(*final(v)) == bits_of(*old(v)).push(b),
{
    v.bits.push(b)
}

/// Relies on `BitVec::len`: the number of live bits.
#[verifier::external_body]
pub(crate) fn bit_len(v: &BitBuffer) -> (r: usize)
    ensures
        r == bits_of(*v).len(),
{
    v.bits.len()
}

/// Relies on indexing a `BitSlice`: the bit at `i`; it panics out of bounds.
#[verifier::external_body]
pub(crate) fn bit_get(v: &BitBuffer, i: usize) -> (r: bool)
    requires
        i < bits_of(*v).len(),
    ensures
        r == bits_of(*v)[i as int],
{
    v.bits[i]
}

/// Relies on `BitVec::clear`: no bit is left.
#[verifier::external_body]
pub(crate) fn bit_clear(v: &mut BitBuffer)
    ensures
        bits_of(*final(v)) == Seq::<bool>::empty(),
{
    v.bits.clear()
}

/// Relies on `BitVec::as_raw_slice`: the bytes that store the live bits,
/// in `Msb0` order.
#[verifier::external_body]
pub(crate) fn raw_bytes(v: &BitBuffer) -> (r: Vec<u8>)
    ensures
        packs(r@, bits_of(*v)),
{
    v.bits.as_raw_slice().to_vec()
}

/// Relies on `BitView::view_bits::<Msb0>` on one byte: bit `j`, most
/// significant first.
#[verifier::external_body]
pub(crate) fn byte_bit(b: u8, j: usize) -> (r: bool)
    requires
        j < 8,
    ensures
        r == msb_bit(b, j as int),
{
    b.view_bits::<Msb0>()[j]
}

impl BitBuffer {
    /// The number of bits held.
    pub fn len(&self) -> (r: usize)
        ensures
            r == bits_of(*self).len(),
    {
        bit_len(self)
    }

    /// The bit at `i`.
    pub fn get(&self, i: usize) -> (r: bool)
        requires
            i < bits_of(*self).len(),
        ensures
            r == bits_of(*self)[i as int],
    {
        bit_get(self, i)
    }

    /// The bits eight to a byte, most significant first; the low bits of a
    /// last partial byte are left open.
    pub fn to_bytes(&self) -> (r: Vec<u8>)
        ensures
            packs(r@, bits_of(*self)),
    {
        raw_bytes(self)
    }
}

} // verus!
