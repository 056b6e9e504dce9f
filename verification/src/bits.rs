use vstd::prelude::*;

use bitvec::field::BitField;
use bitvec::order::Lsb0;
use bitvec::vec::BitVec;
use vstd::arithmetic::power2::pow2;

verus! {

/// A compact buffer of bits, read and written in fixed-width slots.
/// It wraps bitvec's `BitVec`, which Verus cannot look into, so the struct is
/// opaque and all access goes through the trusted slot operations below.
#[verifier::external_body]
pub struct BitBuf {
    bits: BitVec<usize, Lsb0>,
}

/// What a bit buffer holds when read as consecutive `width`-bit slots,
/// each interpreted as a little-endian (least significant bit first) integer.
pub uninterp spec fn bit_slots(b: BitBuf, width: nat) -> Seq<usize>;

/// Relies on bitvec's `BitVec::EMPTY`: a bit-vector without bits, so without slots.
#[verifier::external_body]
pub(crate) fn bits_empty() -> (r: BitBuf)
    ensures
        forall|w: nat| (#[trigger] bit_slots(r, w)).len() == 0,
{
    BitBuf { bits: BitVec::EMPTY }
}

/// Relies on bitvec's `BitVec::repeat`: a bit-vector of `slots * width` zero
/// bits, so every `width`-bit slot reads as zero.
#[verifier::external_body]
pub(crate) fn bits_new_zeroed(slots: usize, width: usize) -> (r: BitBuf)
    requires
        1 <= width <= 32,
        slots * width <= usize::MAX,
    ensures
        bit_slots(r, width as nat) == Seq::new(slots as nat, |i: int| 0usize),
{
    BitBuf { bits: BitVec::repeat(false, slots * width) }
}

/// Relies on bitvec's `BitField::load_le` on an `Lsb0` slice: reading
/// `width` bits at offset `i * width` yields exactly slot `i`, zero-extended.
#[verifier::external_body]
pub(crate) fn bits_read_slot(b: &BitBuf, i: usize, width: usize) -> (r: usize)
    requires
        1 <= width <= 32,
        (i as nat) < bit_slots(*b, width as nat).len(),
    ensures
        r == bit_slots(*b, width as nat)[i as int],
        (r as nat) < pow2(width as nat),
{
    b.bits[i * width..(i + 1) * width].load_le::<usize>()
}

/// Relies on bitvec's `BitField::store_le` on an `Lsb0` slice: writing the
/// `width` low bits of `v` at offset `i * width` replaces exactly slot `i`.
#[verifier::external_body]
pub(crate) fn bits_write_slot(b: &mut BitBuf, i: usize, width: usize, v: usize)
    requires
        1 <= width <= 32,
        (i as nat) < bit_slots(*old(b), width as nat).len(),
        (v as nat) < pow2(width as nat),
    ensures
        bit_slots(*final(b), width as nat) == bit_slots(*old(b), width as nat).update(i as int, v),
{
    b.bits[i * width..(i + 1) * width].store_le::<usize>(v);
}

} // verus!
