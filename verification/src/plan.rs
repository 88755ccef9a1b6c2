//! What allocating an inode and storing a payload do to the bitmaps, and when they
//! fail, as functions of the bitmaps before.

use vstd::prelude::*;
use crate::accounting::spec_payload_blocks;
use crate::allocation::is_free;
use crate::error::FsError;
use crate::first_fit::{is_first_fit_claim, lemma_first_fit_blocks_unique, spec_fragmented};
use crate::group::{lemma_address_of_coordinates, lemma_address_round_trip};
use crate::inode::{DataView, InodeView};
use crate::layout::{spec_bit_of, spec_group_of, spec_public_address};
use crate::model::{data_blocks, is_allocated, is_block_of_image, object_sound, owns, spec_free_blocks};
use crate::payload::{spec_bits_after_release, spec_blocks_needed, spec_claim_start};
use crate::store::in_regions;

verus! {

/// The bitmap of a group without an allocated block.
pub open spec fn spec_clear_bitmap() -> Seq<bool> {
    Seq::new(32768, |k: int| false)
}

/// Whether no data block of the image is free.
pub open spec fn spec_full(bits: Seq<Seq<bool>>) -> bool {
    forall|b: int| !(#[trigger] is_free(bits, b))
}

/// Whether `block_index` is the free block with the lowest address.
pub open spec fn is_lowest_free(bits: Seq<Seq<bool>>, block_index: int) -> bool {
    is_free(bits, block_index) && forall|other: int| #[trigger]
        is_free(bits, other) ==> block_index <= other
}

/// The free block with the lowest address, where a block is free.
pub open spec fn spec_first_free(bits: Seq<Seq<bool>>) -> int {
    choose|b: int| is_lowest_free(bits, b)
}

/// The bitmaps with room for one more block: with a group appended where no block is
/// free.
pub open spec fn spec_room(bits: Seq<Seq<bool>>) -> Seq<Seq<bool>> {
    if spec_full(bits) {
        bits.push(spec_clear_bitmap())
    } else {
        bits
    }
}

/// The bitmaps with the bit of `block_index` set.
pub open spec fn spec_bits_with_block(bits: Seq<Seq<bool>>, block_index: int) -> Seq<Seq<bool>> {
    Seq::new(
        bits.len(),
        |g: int| Seq::new(32768, |k: int| bits[g][k] || spec_public_address(g, k) == block_index),
    )
}

/// Whether a block can be allocated: one is free, or a group can be appended.
pub open spec fn spec_can_allocate(bits: Seq<Seq<bool>>) -> bool {
    !spec_full(bits) || bits.len() < 31
}

/// The block that is allocated for a new inode: the free block with the lowest
/// address, which is the first block of a new group where no block is free.
pub open spec fn spec_allocated_block(bits: Seq<Seq<bool>>) -> int {
    spec_first_free(spec_room(bits))
}

/// The bitmaps after a block was allocated for a new inode.
pub open spec fn spec_bits_after_allocation(bits: Seq<Seq<bool>>) -> Seq<Seq<bool>> {
    spec_bits_with_block(spec_room(bits), spec_allocated_block(bits))
}

/// The bitmaps with the bit of the directory index set.
pub open spec fn spec_with_root(bits: Seq<Seq<bool>>) -> Seq<Seq<bool>> {
    bits.update(0, bits[0].update(0, true))
}

/// The error with which storing a payload of `len` bytes for `inode` fails, if it
/// fails: a payload of at most 4047 bytes is always stored; a longer one is not stored
/// where its blocks are not free after the blocks of the old payload are released and
/// as many groups are appended as the image can take (`CapacityExhausted`), or where
/// they cannot be claimed first-fit in 500 regions (`FragmentationExhausted`).
pub open spec fn spec_write_error(bits: Seq<Seq<bool>>, inode: InodeView, len: int) -> Option<FsError> {
    if len <= 4047 {
        None
    } else if spec_blocks_needed(len) > spec_free_blocks(spec_bits_after_release(bits, inode)) + (31
        - bits.len()) * 32768 {
        Some(FsError::CapacityExhausted)
    } else if spec_fragmented(spec_claim_start(bits, inode, len), spec_blocks_needed(len) as nat) {
        Some(FsError::FragmentationExhausted)
    } else {
        None
    }
}

/// The regions that are claimed for a payload of `len` bytes for `inode`.
pub open spec fn spec_claimed(bits: Seq<Seq<bool>>, inode: InodeView, len: int) -> Seq<(u32, u32)> {
    choose|regions: Seq<(u32, u32)>| #[trigger]
        is_first_fit_claim(
            spec_claim_start(bits, inode, len),
            spec_blocks_needed(len) as nat,
            regions,
            0,
        )
}

/// The bitmaps with the bits of the blocks of the regions set.
pub open spec fn spec_bits_with_regions(bits: Seq<Seq<bool>>, regions: Seq<(u32, u32)>) -> Seq<
    Seq<bool>,
> {
    Seq::new(
        bits.len(),
        |g: int|
            Seq::new(32768, |k: int| bits[g][k] || in_regions(regions, spec_public_address(g, k))),
    )
}

/// The bitmaps after a payload of `len` bytes was stored for `inode`: the blocks of
/// the old payload are released and the block of the inode is allocated; for a payload
/// of more than 4047 bytes, groups are appended until enough blocks are free, and the
/// blocks of the payload are claimed first-fit.
pub open spec fn spec_bits_after_write(bits: Seq<Seq<bool>>, inode: InodeView, len: int) -> Seq<
    Seq<bool>,
> {
    if len <= 4047 {
        spec_bits_after_release(bits, inode)
    } else {
        spec_bits_with_regions(spec_claim_start(bits, inode, len), spec_claimed(bits, inode, len))
    }
}

/// The bitmaps after the block of `inode` and the blocks of its payload were freed.
pub open spec fn spec_bits_without(bits: Seq<Seq<bool>>, inode: InodeView) -> Seq<Seq<bool>> {
    Seq::new(
        bits.len(),
        |g: int|
            Seq::new(
                32768,
                |k: int|
                    bits[g][k] && spec_public_address(g, k) != inode.block_index && !data_blocks(
                        inode.data,
                    ).contains(spec_public_address(g, k)),
            ),
    )
}

/// An inode without payload at `block_index`, as far as the bitmaps are concerned.
pub open spec fn spec_fresh_inode(block_index: int) -> InodeView {
    InodeView {
        block_index: block_index as u32,
        created: 0,
        last_modified: 0,
        size: 0,
        data_checksum: 0,
        data: DataView::Raw(Seq::<u8>::empty()),
    }
}

/// The error with which storing a payload of `len` bytes fails, or the bitmaps after it
/// was stored.
pub open spec fn spec_rewrite(bits: Seq<Seq<bool>>, inode: InodeView, len: int) -> Result<
    Seq<Seq<bool>>,
    FsError,
> {
    match spec_write_error(bits, inode, len) {
        Some(e) => Err(e),
        None => Ok(spec_bits_after_write(bits, inode, len)),
    }
}

/// The error with which creating an object with a payload of `len` bytes fails, or the
/// bitmaps after it was created: `CapacityExhausted` where no block can be allocated
/// for its inode, and else what storing the payload for the new inode gives.
pub open spec fn spec_creation(bits: Seq<Seq<bool>>, len: int) -> Result<Seq<Seq<bool>>, FsError> {
    if !spec_can_allocate(bits) {
        Err(FsError::CapacityExhausted)
    } else {
        spec_rewrite(
            spec_bits_after_allocation(bits),
            spec_fresh_inode(spec_allocated_block(bits)),
            len,
        )
    }
}

/// Number of groups after a payload of `len` bytes was stored for `inode`, or could
/// not be stored: for a payload of more than 4047 bytes whose blocks the image can
/// take, groups are appended until enough blocks are free, and they stay where the
/// blocks can then not be claimed.
pub open spec fn spec_groups_after_write(bits: Seq<Seq<bool>>, inode: InodeView, len: int) -> int {
    if len <= 4047 || spec_write_error(bits, inode, len) == Some(FsError::CapacityExhausted) {
        bits.len() as int
    } else {
        spec_claim_start(bits, inode, len).len() as int
    }
}

/// Number of groups after an object with a payload of `len` bytes was created, or
/// could not be created.
pub open spec fn spec_groups_after_creation(bits: Seq<Seq<bool>>, len: int) -> int {
    if !spec_can_allocate(bits) {
        bits.len() as int
    } else {
        spec_groups_after_write(
            spec_bits_after_allocation(bits),
            spec_fresh_inode(spec_allocated_block(bits)),
            len,
        )
    }
}

/// Whether `stored` is how a payload of `len` bytes is stored for `inode`, from the
/// bitmaps `bits`: at the block of the inode, with the length of the payload as its
/// size, inside the inode exactly when it is at most 4047 bytes long, and otherwise in
/// regions that are a first-fit claim of its blocks, one for every 4096 bytes begun.
pub open spec fn is_stored_as(bits: Seq<Seq<bool>>, inode: InodeView, len: int, stored: InodeView) -> bool {
    &&& stored.block_index == inode.block_index
    &&& stored.size == len
    &&& stored.data is Raw <==> len <= 4047
    &&& data_blocks(stored.data).len() == spec_payload_blocks(len)
    &&& stored.data matches DataView::DirectPointers(regions) ==> is_first_fit_claim(
        spec_claim_start(bits, inode, len),
        spec_blocks_needed(len) as nat,
        regions,
        0,
    )
}

/// The free block with the lowest address is what `spec_first_free` gives.
pub proof fn lemma_lowest_free(bits: Seq<Seq<bool>>, block_index: int)
    requires
        is_lowest_free(bits, block_index),
    ensures
        spec_first_free(bits) == block_index,
        !spec_full(bits),
{
    let chosen = spec_first_free(bits);
    assert(is_lowest_free(bits, chosen));
}

/// Where a block is free, one of the free blocks has the lowest address.
pub proof fn lemma_some_lowest_free(bits: Seq<Seq<bool>>, block_index: int)
    requires
        is_free(bits, block_index),
    ensures
        is_lowest_free(bits, spec_first_free(bits)),
    decreases block_index,
{
    if forall|other: int| #[trigger] is_free(bits, other) ==> block_index <= other {
        assert(is_lowest_free(bits, block_index));
    } else {
        let lower = choose|other: int| #[trigger] is_free(bits, other) && other < block_index;
        lemma_some_lowest_free(bits, lower);
    }
}

/// Where a block can be allocated, the block that is allocated is the free block with
/// the lowest address, after a group was appended if none was free.
pub proof fn lemma_allocated_block(bits: Seq<Seq<bool>>)
    requires
        spec_can_allocate(bits),
    ensures
        is_lowest_free(spec_room(bits), spec_allocated_block(bits)),
        spec_full(bits) ==> spec_allocated_block(bits) == spec_public_address(bits.len() as int, 0),
{
    let room = spec_room(bits);
    if spec_full(bits) {
        let g = bits.len() as int;
        let b = spec_public_address(g, 0);
        lemma_address_round_trip(g, 0);
        assert(room[g] == spec_clear_bitmap());
        assert(is_free(room, b));
        lemma_some_lowest_free(room, b);
        assert forall|other: int| #[trigger] is_free(room, other) implies b <= other by {
            lemma_address_of_coordinates(other);
            let i = spec_group_of(other);
            if i < g {
                assert(room[i] == bits[i]);
                assert(is_free(bits, other));
            }
        }
        assert(is_lowest_free(room, b));
    } else {
        let b = choose|b: int| #[trigger] is_free(bits, b);
        lemma_some_lowest_free(bits, b);
    }
}

/// Creating an object with a payload of at most 4047 bytes succeeds where a block can
/// be allocated, and allocates the block of its inode and no other.
pub proof fn lemma_small_creation(bits: Seq<Seq<bool>>, len: int)
    requires
        spec_can_allocate(bits),
        bits.len() <= 31,
        len <= 4047,
    ensures
        spec_creation(bits, len) == Ok::<Seq<Seq<bool>>, FsError>(spec_bits_after_allocation(bits)),
{
    lemma_allocated_block(bits);
    let block = spec_allocated_block(bits);
    lemma_address_of_coordinates(block);
    let made = spec_bits_after_allocation(bits);
    let stored = spec_bits_after_release(made, spec_fresh_inode(block));
    assert forall|g: int| 0 <= g < made.len() implies stored[g] =~= made[g] by {}
    assert(stored =~= made);
}

/// Storing a payload of at most 4047 bytes for an inode succeeds, releases the blocks
/// of the old payload and claims none.
pub proof fn lemma_small_rewrite(bits: Seq<Seq<bool>>, inode: InodeView, len: int)
    requires
        len <= 4047,
    ensures
        spec_rewrite(bits, inode, len) == Ok::<Seq<Seq<bool>>, FsError>(
            spec_bits_after_release(bits, inode),
        ),
{
}

/// Where bit `k` of group `g` is the first clear bit of the bitmaps, a block can be
/// allocated, it is the block of that bit, and the bitmaps afterwards are those with
/// that bit set.
pub proof fn lemma_found_allocation(bits: Seq<Seq<bool>>, g: int, k: int)
    requires
        bits.len() <= 31,
        forall|i: int| 0 <= i < bits.len() ==> (#[trigger] bits[i]).len() == 32768,
        0 <= g < bits.len(),
        0 <= k < 32768,
        !bits[g][k],
        forall|i: int, j: int|
            0 <= i < bits.len() && 0 <= j < 32768 && (i < g || (i == g && j < k))
                ==> (#[trigger] bits[i][j]),
    ensures
        spec_can_allocate(bits),
        !spec_full(bits),
        spec_allocated_block(bits) == spec_public_address(g, k),
        spec_bits_after_allocation(bits) == bits.update(g, bits[g].update(k, true)),
{
    let b = spec_public_address(g, k);
    lemma_address_round_trip(g, k);
    assert(is_free(bits, b));
    assert forall|other: int| #[trigger] is_free(bits, other) implies b <= other by {
        lemma_address_of_coordinates(other);
        let i = spec_group_of(other);
        let j = spec_bit_of(other);
        if i < g || (i == g && j < k) {
            assert(bits[i][j]);
        }
    }
    lemma_lowest_free(bits, b);
    let after = bits.update(g, bits[g].update(k, true));
    let wanted = spec_bits_after_allocation(bits);
    assert forall|i: int| 0 <= i < bits.len() implies after[i] =~= wanted[i] by {
        assert(bits[i].len() == 32768);
        assert forall|j: int| 0 <= j < 32768 implies after[i][j] == wanted[i][j] by {
            lemma_address_round_trip(i, j);
        }
    }
    assert(after =~= wanted);
}

/// Where no bit of the bitmaps is clear and there are fewer than 31 groups, a block
/// can be allocated, it is the first block of a new group, and the bitmaps afterwards
/// are those with a group appended in which that block is allocated.
pub proof fn lemma_grown_allocation(bits: Seq<Seq<bool>>)
    requires
        bits.len() < 31,
        forall|i: int| 0 <= i < bits.len() ==> (#[trigger] bits[i]).len() == 32768,
        forall|i: int, j: int| 0 <= i < bits.len() && 0 <= j < 32768 ==> (#[trigger] bits[i][j]),
    ensures
        spec_can_allocate(bits),
        spec_full(bits),
        spec_allocated_block(bits) == spec_public_address(bits.len() as int, 0),
        spec_bits_after_allocation(bits) == bits.push(spec_clear_bitmap().update(0, true)),
{
    assert forall|b: int| !(#[trigger] is_free(bits, b)) by {
        if is_free(bits, b) {
            lemma_address_of_coordinates(b);
            assert(bits[spec_group_of(b)][spec_bit_of(b)]);
        }
    }
    let room = spec_room(bits);
    let g = bits.len() as int;
    let b = spec_public_address(g, 0);
    lemma_address_round_trip(g, 0);
    assert(room[g] == spec_clear_bitmap());
    assert(is_free(room, b));
    assert forall|other: int| #[trigger] is_free(room, other) implies b <= other by {
        lemma_address_of_coordinates(other);
        let i = spec_group_of(other);
        if i < g {
            assert(room[i] == bits[i]);
            assert(bits[i][spec_bit_of(other)]);
        }
    }
    lemma_lowest_free(room, b);
    let after = bits.push(spec_clear_bitmap().update(0, true));
    let wanted = spec_bits_after_allocation(bits);
    assert forall|i: int| 0 <= i < after.len() implies after[i] =~= wanted[i] by {
        assert forall|j: int| 0 <= j < 32768 implies after[i][j] == wanted[i][j] by {
            lemma_address_round_trip(i, j);
            if i < g {
                assert(room[i] == bits[i]);
                assert(bits[i][j]);
            }
        }
        if i < g {
            assert(after[i] == bits[i]);
        }
    }
    assert(after =~= wanted);
}

/// Where no bit of the bitmaps is clear, no block is free, and none can be allocated in
/// an image of 31 groups.
pub proof fn lemma_full(bits: Seq<Seq<bool>>)
    requires
        forall|i: int, j: int| 0 <= i < bits.len() && 0 <= j < 32768 ==> (#[trigger] bits[i][j]),
    ensures
        spec_full(bits),
        bits.len() >= 31 ==> !spec_can_allocate(bits),
{
    assert forall|b: int| !(#[trigger] is_free(bits, b)) by {
        if is_free(bits, b) {
            lemma_address_of_coordinates(b);
            assert(bits[spec_group_of(b)][spec_bit_of(b)]);
        }
    }
}

/// The bitmaps after the blocks of a payload of more than 4047 bytes were claimed are
/// those that `spec_bits_after_write` gives, whichever first-fit claim it was.
pub proof fn lemma_written_bits(
    bits: Seq<Seq<bool>>,
    inode: InodeView,
    len: int,
    regions: Seq<(u32, u32)>,
    after: Seq<Seq<bool>>,
)
    requires
        len > 4047,
        is_first_fit_claim(
            spec_claim_start(bits, inode, len),
            spec_blocks_needed(len) as nat,
            regions,
            0,
        ),
        after.len() == spec_claim_start(bits, inode, len).len(),
        forall|g: int| 0 <= g < after.len() ==> (#[trigger] after[g]).len() == 32768,
        forall|g: int, k: int|
            0 <= g < after.len() && 0 <= k < 32768 ==> #[trigger] after[g][k] == (spec_claim_start(
                bits,
                inode,
                len,
            )[g][k] || in_regions(regions, spec_public_address(g, k))),
    ensures
        after == spec_bits_after_write(bits, inode, len),
        after == spec_bits_with_regions(spec_claim_start(bits, inode, len), regions),
{
    let start = spec_claim_start(bits, inode, len);
    let need = spec_blocks_needed(len) as nat;
    let chosen = spec_claimed(bits, inode, len);
    assert(is_first_fit_claim(start, need, chosen, 0));
    lemma_first_fit_blocks_unique(start, need, regions, 0, chosen, 0);
    let wanted = spec_bits_after_write(bits, inode, len);
    assert forall|g: int| 0 <= g < after.len() implies after[g] =~= wanted[g] by {
        assert forall|k: int| 0 <= k < 32768 implies after[g][k] == wanted[g][k] by {
            let b = spec_public_address(g, k);
            assert(in_regions(regions, b) == in_regions(chosen, b));
        }
    }
    assert(after =~= wanted);
    let direct = spec_bits_with_regions(start, regions);
    assert forall|g: int| 0 <= g < after.len() implies after[g] =~= direct[g] by {}
    assert(after =~= direct);
}

/// What storing a payload does to the bitmaps, and whether it fails, depends on the
/// inode only through its block and the blocks of its old payload.
pub proof fn lemma_same_blocks(bits: Seq<Seq<bool>>, first: InodeView, second: InodeView, len: int)
    requires
        first.block_index == second.block_index,
        first.data == second.data,
    ensures
        spec_bits_after_release(bits, first) == spec_bits_after_release(bits, second),
        spec_claim_start(bits, first, len) == spec_claim_start(bits, second, len),
        spec_write_error(bits, first, len) == spec_write_error(bits, second, len),
        spec_bits_after_write(bits, first, len) == spec_bits_after_write(bits, second, len),
        spec_rewrite(bits, first, len) == spec_rewrite(bits, second, len),
        spec_groups_after_write(bits, first, len) == spec_groups_after_write(bits, second, len),
{
    let a = spec_bits_after_release(bits, first);
    let b = spec_bits_after_release(bits, second);
    assert forall|g: int| 0 <= g < bits.len() implies a[g] =~= b[g] by {}
    assert(a =~= b);
}

/// The bitmaps after the blocks of an inode were freed are those that
/// `spec_bits_without` gives.
pub proof fn lemma_bits_without(bits: Seq<Seq<bool>>, after: Seq<Seq<bool>>, inode: InodeView)
    requires
        after.len() == bits.len(),
        forall|g: int| 0 <= g < bits.len() ==> (#[trigger] bits[g]).len() == 32768,
        forall|g: int| 0 <= g < after.len() ==> (#[trigger] after[g]).len() == 32768,
        forall|b: int|
            is_block_of_image(bits.len() as int, b) ==> #[trigger] is_allocated(after, b) == (
            is_allocated(bits, b) && !owns(inode, b)),
    ensures
        after == spec_bits_without(bits, inode),
{
    let wanted = spec_bits_without(bits, inode);
    assert forall|g: int| 0 <= g < bits.len() implies after[g] =~= wanted[g] by {
        assert forall|k: int| 0 <= k < 32768 implies after[g][k] == wanted[g][k] by {
            let b = spec_public_address(g, k);
            lemma_address_round_trip(g, k);
            assert(is_block_of_image(bits.len() as int, b));
            assert(is_allocated(after, b) == after[g][k]);
            assert(is_allocated(bits, b) == bits[g][k]);
        }
    }
    assert(after =~= wanted);
}

/// Whether the bitmaps `after` are the bitmaps `before` after `old_inode` was stored
/// again as `new_inode`: a block is allocated exactly if it belongs to the new inode,
/// or was allocated and held no payload of the old one.
pub open spec fn is_rewrite_of(
    before: Seq<Seq<bool>>,
    after: Seq<Seq<bool>>,
    old_inode: InodeView,
    new_inode: InodeView,
) -> bool {
    forall|b: int|
        is_block_of_image(after.len() as int, b) ==> #[trigger] is_allocated(after, b) == (owns(
            new_inode,
            b,
        ) || (is_allocated(before, b) && !data_blocks(old_inode.data).contains(b)))
}

/// Whether the blocks allocated in `after` are those of `first`, those of `second`, and
/// those allocated in `before` that held no payload of `released`.
pub open spec fn allocated_as(
    before: Seq<Seq<bool>>,
    after: Seq<Seq<bool>>,
    released: InodeView,
    first: InodeView,
    second: InodeView,
) -> bool {
    forall|b: int| #[trigger]
        is_allocated(after, b) == (owns(first, b) || owns(second, b) || (is_allocated(before, b)
            && !data_blocks(released.data).contains(b)))
}

/// Whether the blocks allocated in `after` are those that do not belong to `gone` and
/// either belong to `kept` or were allocated in `before` and held no payload of
/// `released`.
pub open spec fn allocated_without(
    before: Seq<Seq<bool>>,
    after: Seq<Seq<bool>>,
    released: InodeView,
    kept: InodeView,
    gone: InodeView,
) -> bool {
    forall|b: int| #[trigger]
        is_allocated(after, b) == (!owns(gone, b) && (owns(kept, b) || (is_allocated(before, b)
            && !data_blocks(released.data).contains(b))))
}

/// The blocks that are allocated after an object was stored again.
pub proof fn lemma_rewrite_allocates(
    before: Seq<Seq<bool>>,
    written: Seq<Seq<bool>>,
    old_inode: InodeView,
    new_inode: InodeView,
)
    requires
        written.len() >= before.len(),
        is_rewrite_of(before, written, old_inode, new_inode),
        object_sound(written, new_inode),
    ensures
        allocated_as(before, written, old_inode, new_inode, new_inode),
{
    reveal(object_sound);
}

/// The blocks that are allocated after an object was created in free blocks and
/// another, whose blocks were allocated, was stored again.
pub proof fn lemma_creation_allocates(
    before: Seq<Seq<bool>>,
    made: Seq<Seq<bool>>,
    linked: Seq<Seq<bool>>,
    made_inode: InodeView,
    old_inode: InodeView,
    new_inode: InodeView,
)
    requires
        made.len() >= before.len(),
        linked.len() >= made.len(),
        forall|b: int| #[trigger] owns(made_inode, b) ==> !is_allocated(before, b),
        forall|b: int| #[trigger]
            is_allocated(made, b) == (owns(made_inode, b) || is_allocated(before, b)),
        object_sound(before, old_inode),
        is_rewrite_of(made, linked, old_inode, new_inode),
        object_sound(linked, new_inode),
    ensures
        allocated_as(before, linked, old_inode, made_inode, new_inode),
{
    reveal(object_sound);
    assert forall|b: int| #[trigger]
        is_allocated(linked, b) == (owns(made_inode, b) || owns(new_inode, b) || (is_allocated(
            before,
            b,
        ) && !data_blocks(old_inode.data).contains(b))) by {
        if owns(made_inode, b) {
            assert(is_allocated(made, b));
            assert(!is_allocated(before, b));
            assert(!owns(old_inode, b));
        }
        if is_allocated(before, b) {
            assert(is_allocated(made, b));
        }
    }
}

/// The blocks that are allocated after an object was stored again and the blocks of
/// another were freed.
pub proof fn lemma_removal_allocates(
    before: Seq<Seq<bool>>,
    unlinked: Seq<Seq<bool>>,
    released: Seq<Seq<bool>>,
    old_inode: InodeView,
    new_inode: InodeView,
    gone: InodeView,
)
    requires
        unlinked.len() >= before.len(),
        released.len() == unlinked.len(),
        is_rewrite_of(before, unlinked, old_inode, new_inode),
        object_sound(unlinked, new_inode),
        forall|b: int|
            is_block_of_image(unlinked.len() as int, b) ==> #[trigger] is_allocated(released, b) == (
            is_allocated(unlinked, b) && !owns(gone, b)),
    ensures
        allocated_without(before, released, old_inode, new_inode, gone),
{
    reveal(object_sound);
}

} // verus!
