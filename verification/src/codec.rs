//! Reading and writing the little-endian fields that the on-disk records are made of.

use vstd::prelude::*;
use vstd::slice::*;
use vstd::bytes::*;

verus! {

/// `target` with the bytes from `offset` on replaced by `bytes`.
pub open spec fn with_bytes_at(target: Seq<u8>, offset: int, bytes: Seq<u8>) -> Seq<u8> {
    Seq::new(
        target.len(),
        |i: int| if offset <= i < offset + bytes.len() { bytes[i - offset] } else { target[i] },
    )
}

/// The 32-bit field at byte `at` of `bytes`, if `bytes` is long enough to hold it.
pub open spec fn spec_get_u32(bytes: Seq<u8>, at: int) -> Option<u32> {
    if 0 <= at && at + 4 <= bytes.len() {
        Some(spec_u32_from_le_bytes(bytes.subrange(at, at + 4)))
    } else {
        None
    }
}

/// The 64-bit field at byte `at` of `bytes`, if `bytes` is long enough to hold it.
pub open spec fn spec_get_u64(bytes: Seq<u8>, at: int) -> Option<u64> {
    if 0 <= at && at + 8 <= bytes.len() {
        Some(spec_u64_from_le_bytes(bytes.subrange(at, at + 8)))
    } else {
        None
    }
}

/// Appends `bytes` to `out`.
pub fn put_bytes(out: &mut Vec<u8>, bytes: &[u8])
    ensures
        final(out)@ == old(out)@ + bytes@,
{
    let mut i: usize = 0;
    while i < bytes.len()
        invariant
            i <= bytes@.len(),
            out@ == old(out)@ + bytes@.subrange(0, i as int),
        decreases bytes@.len() - i,
    {
        out.push(bytes[i]);
        assert(out@ =~= old(out)@ + bytes@.subrange(0, i + 1));
        i += 1;
    }
    assert(bytes@.subrange(0, i as int) =~= bytes@);
}

/// Appends `value` to `out` as four bytes, least significant first.
pub fn put_u32(out: &mut Vec<u8>, value: u32)
    ensures
        final(out)@ == old(out)@ + spec_u32_to_le_bytes(value),
{
    let bytes = u32_to_le_bytes(value);
    put_bytes(out, bytes.as_slice());
}

/// Appends `value` to `out` as eight bytes, least significant first.
pub fn put_u64(out: &mut Vec<u8>, value: u64)
    ensures
        final(out)@ == old(out)@ + spec_u64_to_le_bytes(value),
{
    let bytes = u64_to_le_bytes(value);
    put_bytes(out, bytes.as_slice());
}

/// Reads the 32-bit field at byte `at`; `None` exactly when `bytes` ends before the
/// end of the field.
pub fn get_u32(bytes: &[u8], at: usize) -> (value: Option<u32>)
    ensures
        value == spec_get_u32(bytes@, at as int),
{
    if bytes.len() < 4 || at > bytes.len() - 4 {
        return None;
    }
    Some(u32_from_le_bytes(slice_subrange(bytes, at, at + 4)))
}

/// Reads the 64-bit field at byte `at`; `None` exactly when `bytes` ends before the
/// end of the field.
pub fn get_u64(bytes: &[u8], at: usize) -> (value: Option<u64>)
    ensures
        value == spec_get_u64(bytes@, at as int),
{
    if bytes.len() < 8 || at > bytes.len() - 8 {
        return None;
    }
    Some(u64_from_le_bytes(slice_subrange(bytes, at, at + 8)))
}

/// Copies the `len` bytes from byte `at` on.
pub fn copy_range(bytes: &[u8], at: usize, len: usize) -> (copy: Vec<u8>)
    requires
        at + len <= bytes@.len(),
    ensures
        copy@ == bytes@.subrange(at as int, at + len),
{
    let total = bytes.len();
    let mut copy: Vec<u8> = Vec::new();
    put_bytes(&mut copy, slice_subrange(bytes, at, at + len));
    assert(copy@ =~= bytes@.subrange(at as int, at + len));
    copy
}

/// Overwrites the bytes of `target` from `offset` on with `bytes`.
pub fn write_at(target: &mut Vec<u8>, offset: usize, bytes: &[u8])
    requires
        offset + bytes@.len() <= old(target)@.len(),
    ensures
        final(target)@ == with_bytes_at(old(target)@, offset as int, bytes@),
{
    let total = target.len();
    let mut i: usize = 0;
    while i < bytes.len()
        invariant
            i <= bytes@.len(),
            offset + bytes@.len() <= old(target)@.len(),
            old(target)@.len() == total,
            target@ == with_bytes_at(old(target)@, offset as int, bytes@.subrange(0, i as int)),
        decreases bytes@.len() - i,
    {
        target[offset + i] = bytes[i];
        i += 1;
        assert(target@ =~= with_bytes_at(old(target)@, offset as int, bytes@.subrange(0, i as int)));
    }
    assert(bytes@.subrange(0, i as int) =~= bytes@);
}

} // verus!
