//! The allocation bitmap of a group, kept in a `bitvec` bit-vector.

use vstd::prelude::*;
use bitvec::vec::BitVec;
use bitvec::order::Lsb0;

verus! {

/// A `bitvec::vec::BitVec<u8, Lsb0>`: a bit-vector of the `bitvec` crate over bytes,
/// least significant bit first, so that bit `i` lives in byte `i / 8` at position
/// `i % 8`. What it holds is known only through the functions below, which state of
/// each method of the bit-vector what its documentation says.
#[verifier::external_body]
#[derive(Debug, Default)]
pub struct Bitmap {
    bits: BitVec<u8, Lsb0>,
}

/// The bits that a bitmap holds, in index order.
pub uninterp spec fn bits_of(bitmap: Bitmap) -> Seq<bool>;

/// Number of clear bits in `bits`.
pub open spec fn count_zeros(bits: Seq<bool>) -> nat
    decreases bits.len(),
{
    if bits.len() == 0 {
        0
    } else {
        count_zeros(bits.drop_last()) + if bits.last() { 0nat } else { 1nat }
    }
}

/// Number of set bits in `bits`.
pub open spec fn count_ones(bits: Seq<bool>) -> nat
    decreases bits.len(),
{
    if bits.len() == 0 {
        0
    } else {
        count_ones(bits.drop_last()) + if bits.last() { 1nat } else { 0nat }
    }
}

/// Whether bit `position` of `byte` is set, counted from the least significant bit.
pub open spec fn bit_of_byte(byte: u8, position: int) -> bool {
    (byte >> (position as u8)) & 1 == 1
}

/// The byte whose bit `j` is `bits[first + j]`, for `j` from 0 to 7.
pub open spec fn byte_of_bits(bits: Seq<bool>, first: int) -> u8 {
    (if bits[first] { 1u8 } else { 0u8 })
        | (if bits[first + 1] { 2u8 } else { 0u8 })
        | (if bits[first + 2] { 4u8 } else { 0u8 })
        | (if bits[first + 3] { 8u8 } else { 0u8 })
        | (if bits[first + 4] { 16u8 } else { 0u8 })
        | (if bits[first + 5] { 32u8 } else { 0u8 })
        | (if bits[first + 6] { 64u8 } else { 0u8 })
        | (if bits[first + 7] { 128u8 } else { 0u8 })
}

/// The bytes that store `bits`, eight bits to a byte, least significant bit first.
pub open spec fn packed(bits: Seq<bool>) -> Seq<u8> {
    Seq::new(bits.len() / 8, |k: int| byte_of_bits(bits, 8 * k))
}

/// The bits that `bytes` store, eight bits to a byte, least significant bit first.
pub open spec fn unpacked(bytes: Seq<u8>) -> Seq<bool> {
    Seq::new(bytes.len() * 8, |i: int| bit_of_byte(bytes[i / 8], i % 8))
}

/// `BitVec::with_capacity`: an empty bit-vector. It panics for a capacity beyond what a
/// bit-vector can hold, which the bound leaves out.
#[verifier::external_body]
pub(crate) fn bitmap_with_capacity(capacity: usize) -> (bitmap: Bitmap)
    requires
        capacity <= 0x1000_0000,
    ensures
        bits_of(bitmap) == Seq::<bool>::empty(),
{
    Bitmap { bits: BitVec::<u8, Lsb0>::with_capacity(capacity) }
}

/// `BitVec::resize`: cuts the bit-vector down to `new_len` bits, or extends it to
/// `new_len` bits with copies of `value`. It panics for a length beyond what a
/// bit-vector can hold, which the bound leaves out.
#[verifier::external_body]
pub(crate) fn bitmap_resize(bitmap: &mut Bitmap, new_len: usize, value: bool)
    requires
        new_len <= 0x1000_0000,
    ensures
        bits_of(*final(bitmap)) == Seq::new(
            new_len as nat,
            |i: int| if i < bits_of(*old(bitmap)).len() { bits_of(*old(bitmap))[i] } else { value },
        ),
{
    bitmap.bits.resize(new_len, value);
}

/// `BitVec::from_slice`: the bit-vector that spans a copy of `bytes`, bit `i` being
/// bit `i % 8` of byte `i / 8`. It panics for a slice beyond what a bit-vector can hold,
/// which the bound leaves out.
#[verifier::external_body]
pub(crate) fn bitmap_from_slice(bytes: &[u8]) -> (bitmap: Bitmap)
    requires
        bytes@.len() <= 0x200_0000,
    ensures
        bits_of(bitmap) == unpacked(bytes@),
{
    Bitmap { bits: BitVec::<u8, Lsb0>::from_slice(bytes) }
}

/// `BitVec::as_raw_slice`: the bytes that store the bits, for a bit-vector that starts
/// at the first bit of its first byte, as all of these do, and fills its last byte.
#[verifier::external_body]
pub(crate) fn bitmap_as_raw_slice(bitmap: &Bitmap) -> (bytes: &[u8])
    requires
        bits_of(*bitmap).len() % 8 == 0,
    ensures
        bytes@ == packed(bits_of(*bitmap)),
{
    bitmap.bits.as_raw_slice()
}

/// `BitVec::clone`: a bit-vector with the same bits.
#[verifier::external_body]
pub(crate) fn bitmap_clone(bitmap: &Bitmap) -> (copy: Bitmap)
    ensures
        bits_of(copy) == bits_of(*bitmap),
{
    Bitmap { bits: bitmap.bits.clone() }
}

/// `BitSlice::len`: the number of bits held.
#[verifier::external_body]
pub(crate) fn bitmap_len(bitmap: &Bitmap) -> (len: usize)
    ensures
        len == bits_of(*bitmap).len(),
{
    bitmap.bits.len()
}

/// Indexing a `BitVec` by position: the bit at `index`. It panics for an index beyond
/// the bits, which the bound leaves out.
#[verifier::external_body]
pub(crate) fn bitmap_get(bitmap: &Bitmap, index: usize) -> (bit: bool)
    requires
        index < bits_of(*bitmap).len(),
    ensures
        bit == bits_of(*bitmap)[index as int],
{
    bitmap.bits[index]
}

/// `BitSlice::set`: writes `value` at `index` and leaves every other bit as it was. It
/// panics for an index beyond the bits, which the bound leaves out.
#[verifier::external_body]
pub(crate) fn bitmap_set(bitmap: &mut Bitmap, index: usize, value: bool)
    requires
        index < bits_of(*old(bitmap)).len(),
    ensures
        bits_of(*final(bitmap)) == bits_of(*old(bitmap)).update(index as int, value),
{
    bitmap.bits.set(index, value);
}

/// `BitSlice::count_zeros`: the number of clear bits.
#[verifier::external_body]
pub(crate) fn bitmap_count_zeros(bitmap: &Bitmap) -> (zeros: usize)
    ensures
        zeros == count_zeros(bits_of(*bitmap)),
{
    bitmap.bits.count_zeros()
}

/// `BitSlice::first_zero`: the index of the lowest clear bit, if there is one.
#[verifier::external_body]
pub(crate) fn bitmap_first_zero(bitmap: &Bitmap) -> (found: Option<usize>)
    ensures
        match found {
            Some(index) => {
                &&& index < bits_of(*bitmap).len()
                &&& !bits_of(*bitmap)[index as int]
                &&& forall|i: int| 0 <= i < index ==> bits_of(*bitmap)[i]
            },
            None => forall|i: int| 0 <= i < bits_of(*bitmap).len() ==> bits_of(*bitmap)[i],
        },
{
    bitmap.bits.first_zero()
}

/// Every bit is either clear or set.
pub proof fn lemma_zeros_and_ones(bits: Seq<bool>)
    ensures
        count_zeros(bits) + count_ones(bits) == bits.len(),
    decreases bits.len(),
{
    if bits.len() > 0 {
        lemma_zeros_and_ones(bits.drop_last());
    }
}

/// A sequence has no more clear bits than bits.
pub proof fn lemma_count_zeros_bound(bits: Seq<bool>)
    ensures
        count_zeros(bits) <= bits.len(),
    decreases bits.len(),
{
    if bits.len() > 0 {
        lemma_count_zeros_bound(bits.drop_last());
    }
}

/// Writing one bit changes the number of clear bits by at most one, by the bit that
/// was there and the bit that is written.
pub proof fn lemma_count_zeros_update(bits: Seq<bool>, index: int, value: bool)
    requires
        0 <= index < bits.len(),
    ensures
        count_zeros(bits.update(index, value)) + (if value { 1int } else { 0int })
            == count_zeros(bits) + (if bits[index] { 1int } else { 0int }),
    decreases bits.len(),
{
    let updated = bits.update(index, value);
    if index == bits.len() - 1 {
        assert(updated.drop_last() =~= bits.drop_last());
    } else {
        assert(updated.drop_last() =~= bits.drop_last().update(index, value));
        lemma_count_zeros_update(bits.drop_last(), index, value);
    }
}

/// A sequence of clear bits only has as many clear bits as it is long.
pub proof fn lemma_count_zeros_all_clear(bits: Seq<bool>)
    requires
        forall|i: int| 0 <= i < bits.len() ==> !bits[i],
    ensures
        count_zeros(bits) == bits.len(),
    decreases bits.len(),
{
    if bits.len() > 0 {
        lemma_count_zeros_all_clear(bits.drop_last());
    }
}

/// Each bit of a byte made from eight bits is the bit it was made from.
pub proof fn lemma_bit_of_packed_byte(bits: Seq<bool>, first: int, position: int)
    requires
        0 <= position < 8,
    ensures
        bit_of_byte(byte_of_bits(bits, first), position) == bits[first + position],
{
    let b0 = bits[first];
    let b1 = bits[first + 1];
    let b2 = bits[first + 2];
    let b3 = bits[first + 3];
    let b4 = bits[first + 4];
    let b5 = bits[first + 5];
    let b6 = bits[first + 6];
    let b7 = bits[first + 7];
    let byte = byte_of_bits(bits, first);
    let p = position as u8;
    assert(((byte >> p) & 1 == 1) == (if p == 0 { b0 } else if p == 1 { b1 } else if p == 2 { b2 }
        else if p == 3 { b3 } else if p == 4 { b4 } else if p == 5 { b5 } else if p == 6 { b6 }
        else { b7 })) by (bit_vector)
        requires
            p < 8,
            byte == (if b0 { 1u8 } else { 0u8 }) | (if b1 { 2u8 } else { 0u8 })
                | (if b2 { 4u8 } else { 0u8 }) | (if b3 { 8u8 } else { 0u8 })
                | (if b4 { 16u8 } else { 0u8 }) | (if b5 { 32u8 } else { 0u8 })
                | (if b6 { 64u8 } else { 0u8 }) | (if b7 { 128u8 } else { 0u8 }),
    ;
}

/// A byte is made of its eight bits.
pub proof fn lemma_byte_of_its_bits(byte: u8)
    ensures
        byte == (if (byte >> 0u8) & 1 == 1 { 1u8 } else { 0u8 })
            | (if (byte >> 1u8) & 1 == 1 { 2u8 } else { 0u8 })
            | (if (byte >> 2u8) & 1 == 1 { 4u8 } else { 0u8 })
            | (if (byte >> 3u8) & 1 == 1 { 8u8 } else { 0u8 })
            | (if (byte >> 4u8) & 1 == 1 { 16u8 } else { 0u8 })
            | (if (byte >> 5u8) & 1 == 1 { 32u8 } else { 0u8 })
            | (if (byte >> 6u8) & 1 == 1 { 64u8 } else { 0u8 })
            | (if (byte >> 7u8) & 1 == 1 { 128u8 } else { 0u8 }),
{
    assert(byte == (if (byte >> 0u8) & 1 == 1 { 1u8 } else { 0u8 })
        | (if (byte >> 1u8) & 1 == 1 { 2u8 } else { 0u8 })
        | (if (byte >> 2u8) & 1 == 1 { 4u8 } else { 0u8 })
        | (if (byte >> 3u8) & 1 == 1 { 8u8 } else { 0u8 })
        | (if (byte >> 4u8) & 1 == 1 { 16u8 } else { 0u8 })
        | (if (byte >> 5u8) & 1 == 1 { 32u8 } else { 0u8 })
        | (if (byte >> 6u8) & 1 == 1 { 64u8 } else { 0u8 })
        | (if (byte >> 7u8) & 1 == 1 { 128u8 } else { 0u8 })) by (bit_vector);
}

/// Unpacking the bytes that store a whole number of bytes' worth of bits gives the
/// bits back.
pub proof fn lemma_unpack_packed(bits: Seq<bool>)
    requires
        bits.len() % 8 == 0,
    ensures
        unpacked(packed(bits)) == bits,
{
    let bytes = packed(bits);
    assert(bytes.len() * 8 == bits.len());
    assert forall|i: int| 0 <= i < bits.len() implies unpacked(bytes)[i] == bits[i] by {
        let k = i / 8;
        lemma_bit_of_packed_byte(bits, 8 * k, i % 8);
    }
    assert(unpacked(bytes) =~= bits);
}

/// Packing the bits that bytes store gives the bytes back.
pub proof fn lemma_pack_unpacked(bytes: Seq<u8>)
    ensures
        packed(unpacked(bytes)) == bytes,
{
    let bits = unpacked(bytes);
    assert(bits.len() / 8 == bytes.len());
    assert forall|k: int| 0 <= k < bytes.len() implies packed(bits)[k] == bytes[k] by {
        lemma_byte_of_its_bits(bytes[k]);
        assert(bits[8 * k] == bit_of_byte(bytes[k], 0));
        assert(bits[8 * k + 1] == bit_of_byte(bytes[k], 1));
        assert(bits[8 * k + 2] == bit_of_byte(bytes[k], 2));
        assert(bits[8 * k + 3] == bit_of_byte(bytes[k], 3));
        assert(bits[8 * k + 4] == bit_of_byte(bytes[k], 4));
        assert(bits[8 * k + 5] == bit_of_byte(bytes[k], 5));
        assert(bits[8 * k + 6] == bit_of_byte(bytes[k], 6));
        assert(bits[8 * k + 7] == bit_of_byte(bytes[k], 7));
    }
    assert(packed(bits) =~= bytes);
}

} // verus!
