//! How many blocks are free after blocks were allocated or released.

use vstd::prelude::*;
use crate::allocation::{is_free, lemma_flatten_len};
use crate::bitmap::{lemma_count_zeros_all_clear, lemma_count_zeros_update};
use crate::first_fit::{is_first_fit_claim, lemma_claim_shape, lemma_claimed_free};
use crate::fs::FS;
use crate::group::{lemma_address_of_coordinates, lemma_address_round_trip};
use crate::inode::{DataView, InodeView};
use crate::layout::{spec_bit_of, spec_group_of, spec_public_address};
use crate::model::{data_blocks, is_allocated, object_sound, owns, spec_free_blocks};
use crate::payload::{spec_bits_after_release, spec_blocks_needed, spec_claim_start, spec_grown_bits};
use crate::plan::{lemma_allocated_block, spec_allocated_block, spec_bits_after_allocation, spec_bits_with_regions, spec_bits_without, spec_can_allocate, spec_clear_bitmap, spec_full, spec_room};
use crate::store::{lemma_flatten_contains, lemma_flatten_no_duplicates, spec_flatten};
use crate::volume::lemma_free_blocks_update;

verus! {

/// Whether each bitmap has the bits of a whole group.
pub open spec fn rows_full(bits: Seq<Seq<bool>>) -> bool {
    forall|g: int| 0 <= g < bits.len() ==> (#[trigger] bits[g]).len() == 32768
}

/// The bitmaps with the bits of the blocks set.
pub open spec fn spec_bits_with_blocks(bits: Seq<Seq<bool>>, blocks: Seq<int>) -> Seq<Seq<bool>> {
    Seq::new(
        bits.len(),
        |g: int| Seq::new(32768, |k: int| bits[g][k] || blocks.contains(spec_public_address(g, k))),
    )
}

/// The bitmaps with the bits of the blocks cleared.
pub open spec fn spec_bits_without_blocks(bits: Seq<Seq<bool>>, blocks: Seq<int>) -> Seq<Seq<bool>> {
    Seq::new(
        bits.len(),
        |g: int| Seq::new(32768, |k: int| bits[g][k] && !blocks.contains(spec_public_address(g, k))),
    )
}

/// Number of data blocks that hold a payload of `len` bytes: none for a payload that
/// is kept inside the inode.
pub open spec fn spec_payload_blocks(len: int) -> int {
    if len <= 4047 {
        0
    } else {
        spec_blocks_needed(len)
    }
}

/// Number of blocks that an inode holds: its own and those of its payload.
pub open spec fn spec_held(inode: InodeView) -> int {
    1 + data_blocks(inode.data).len() as int
}

/// Setting the bits of blocks that were free, each once, leaves as many blocks fewer
/// free.
pub proof fn lemma_blocks_set(bits: Seq<Seq<bool>>, blocks: Seq<int>)
    requires
        rows_full(bits),
        blocks.no_duplicates(),
        forall|i: int| 0 <= i < blocks.len() ==> is_free(bits, #[trigger] blocks[i]),
    ensures
        spec_free_blocks(spec_bits_with_blocks(bits, blocks)) + blocks.len() == spec_free_blocks(bits),
    decreases blocks.len(),
{
    let after = spec_bits_with_blocks(bits, blocks);
    if blocks.len() == 0 {
        assert forall|g: int| 0 <= g < bits.len() implies after[g] =~= bits[g] by {}
        assert(after =~= bits);
    } else {
        let front = blocks.drop_last();
        let x = blocks.last();
        lemma_blocks_set(bits, front);
        let mid = spec_bits_with_blocks(bits, front);
        assert(is_free(bits, blocks[blocks.len() - 1]));
        lemma_address_of_coordinates(x);
        let g = spec_group_of(x);
        let k = spec_bit_of(x);
        assert(!front.contains(x)) by {
            if front.contains(x) {
                let i = choose|i: int| 0 <= i < front.len() && front[i] == x;
                assert(blocks[i] == blocks[blocks.len() - 1]);
            }
        }
        assert(!mid[g][k]);
        let set = mid.update(g, mid[g].update(k, true));
        assert forall|i: int| 0 <= i < bits.len() implies after[i] =~= set[i] by {
            assert forall|j: int| 0 <= j < 32768 implies after[i][j] == set[i][j] by {
                let y = spec_public_address(i, j);
                lemma_address_round_trip(i, j);
                if blocks.contains(y) {
                    let at = choose|at: int| 0 <= at < blocks.len() && blocks[at] == y;
                    if at < front.len() {
                        assert(front[at] == y);
                    }
                }
                if front.contains(y) {
                    let at = choose|at: int| 0 <= at < front.len() && front[at] == y;
                    assert(blocks[at] == y);
                }
                if y == x {
                    assert(blocks[blocks.len() - 1] == y);
                }
            }
        }
        assert(after =~= set);
        lemma_free_blocks_update(mid, g, mid[g].update(k, true));
        lemma_count_zeros_update(mid[g], k, true);
    }
}

/// Clearing the bits of blocks that were allocated, each once, leaves as many blocks
/// more free.
pub proof fn lemma_blocks_cleared(bits: Seq<Seq<bool>>, blocks: Seq<int>)
    requires
        rows_full(bits),
        blocks.no_duplicates(),
        forall|i: int| 0 <= i < blocks.len() ==> is_allocated(bits, #[trigger] blocks[i]),
    ensures
        spec_free_blocks(spec_bits_without_blocks(bits, blocks)) == spec_free_blocks(bits)
            + blocks.len(),
    decreases blocks.len(),
{
    let after = spec_bits_without_blocks(bits, blocks);
    if blocks.len() == 0 {
        assert forall|g: int| 0 <= g < bits.len() implies after[g] =~= bits[g] by {}
        assert(after =~= bits);
    } else {
        let front = blocks.drop_last();
        let x = blocks.last();
        lemma_blocks_cleared(bits, front);
        let mid = spec_bits_without_blocks(bits, front);
        assert(is_allocated(bits, blocks[blocks.len() - 1]));
        lemma_address_of_coordinates(x);
        let g = spec_group_of(x);
        let k = spec_bit_of(x);
        assert(!front.contains(x)) by {
            if front.contains(x) {
                let i = choose|i: int| 0 <= i < front.len() && front[i] == x;
                assert(blocks[i] == blocks[blocks.len() - 1]);
            }
        }
        assert(mid[g][k]);
        let cleared = mid.update(g, mid[g].update(k, false));
        assert forall|i: int| 0 <= i < bits.len() implies after[i] =~= cleared[i] by {
            assert forall|j: int| 0 <= j < 32768 implies after[i][j] == cleared[i][j] by {
                let y = spec_public_address(i, j);
                lemma_address_round_trip(i, j);
                if blocks.contains(y) {
                    let at = choose|at: int| 0 <= at < blocks.len() && blocks[at] == y;
                    if at < front.len() {
                        assert(front[at] == y);
                    }
                }
                if front.contains(y) {
                    let at = choose|at: int| 0 <= at < front.len() && front[at] == y;
                    assert(blocks[at] == y);
                }
                if y == x {
                    assert(blocks[blocks.len() - 1] == y);
                }
            }
        }
        assert(after =~= cleared);
        lemma_free_blocks_update(mid, g, mid[g].update(k, false));
        lemma_count_zeros_update(mid[g], k, false);
    }
}

/// Appended groups have all their blocks free.
pub proof fn lemma_grown_count(bits: Seq<Seq<bool>>, group_count: int)
    requires
        group_count >= bits.len(),
    ensures
        spec_free_blocks(spec_grown_bits(bits, group_count)) == spec_free_blocks(bits) + 32768 * (
        group_count - bits.len()),
    decreases group_count - bits.len(),
{
    let grown = spec_grown_bits(bits, group_count);
    if group_count == bits.len() {
        assert(grown =~= bits);
    } else {
        lemma_grown_count(bits, group_count - 1);
        assert(grown.drop_last() =~= spec_grown_bits(bits, group_count - 1));
        assert(grown.last() =~= spec_clear_bitmap());
        lemma_count_zeros_all_clear(spec_clear_bitmap());
    }
}

/// Allocating a block for a new inode leaves one block fewer free, of those that were
/// free and those of a group that was appended.
pub proof fn lemma_allocation_count(bits: Seq<Seq<bool>>)
    requires
        rows_full(bits),
        spec_can_allocate(bits),
    ensures
        spec_bits_after_allocation(bits).len() == bits.len() + (if spec_full(bits) {
            1int
        } else {
            0int
        }),
        spec_free_blocks(spec_bits_after_allocation(bits)) + 1 == spec_free_blocks(bits) + 32768 * (
        spec_bits_after_allocation(bits).len() - bits.len()),
{
    let room = spec_room(bits);
    let block = spec_allocated_block(bits);
    lemma_allocated_block(bits);
    if spec_full(bits) {
        assert(room.drop_last() =~= bits);
        lemma_count_zeros_all_clear(spec_clear_bitmap());
    }
    assert(rows_full(room));
    let blocks = seq![block];
    assert(blocks[0] == block);
    lemma_blocks_set(room, blocks);
    let after = spec_bits_after_allocation(bits);
    let set = spec_bits_with_blocks(room, blocks);
    assert forall|g: int| 0 <= g < room.len() implies after[g] =~= set[g] by {
        assert forall|k: int| 0 <= k < 32768 implies after[g][k] == set[g][k] by {
            let y = spec_public_address(g, k);
            if y == block {
                assert(blocks[0] == y);
            }
        }
    }
    assert(after =~= set);
}

/// Releasing the blocks of the payload of an inode leaves as many blocks more free.
pub proof fn lemma_release_count(bits: Seq<Seq<bool>>, inode: InodeView)
    requires
        rows_full(bits),
        object_sound(bits, inode),
    ensures
        spec_free_blocks(spec_bits_after_release(bits, inode)) == spec_free_blocks(bits)
            + data_blocks(inode.data).len(),
{
    reveal(object_sound);
    let blocks = data_blocks(inode.data);
    assert forall|i: int| 0 <= i < blocks.len() implies is_allocated(bits, #[trigger] blocks[i]) by {
        assert(blocks.contains(blocks[i]));
        assert(owns(inode, blocks[i]));
    }
    lemma_blocks_cleared(bits, blocks);
    let after = spec_bits_after_release(bits, inode);
    let cleared = spec_bits_without_blocks(bits, blocks);
    assert(owns(inode, inode.block_index as int));
    assert forall|g: int| 0 <= g < bits.len() implies after[g] =~= cleared[g] by {
        assert forall|k: int| 0 <= k < 32768 implies after[g][k] == cleared[g][k] by {
            lemma_address_round_trip(g, k);
        }
    }
    assert(after =~= cleared);
}

/// Freeing the block of an inode and the blocks of its payload leaves as many blocks
/// more free.
pub proof fn lemma_removal_count(bits: Seq<Seq<bool>>, inode: InodeView)
    requires
        rows_full(bits),
        object_sound(bits, inode),
    ensures
        spec_free_blocks(spec_bits_without(bits, inode)) == spec_free_blocks(bits) + 1 + data_blocks(
            inode.data,
        ).len(),
{
    reveal(object_sound);
    let blocks = data_blocks(inode.data).push(inode.block_index as int);
    assert(owns(inode, inode.block_index as int));
    assert forall|i: int| 0 <= i < blocks.len() implies is_allocated(bits, #[trigger] blocks[i]) by {
        if i < blocks.len() - 1 {
            assert(data_blocks(inode.data).contains(blocks[i]));
        }
        assert(owns(inode, blocks[i]));
    }
    assert(blocks.no_duplicates()) by {
        assert forall|i: int, j: int| 0 <= i < blocks.len() && 0 <= j < blocks.len() && i != j implies blocks[i]
            != blocks[j] by {
            if i < blocks.len() - 1 {
                assert(data_blocks(inode.data).contains(blocks[i]));
            }
            if j < blocks.len() - 1 {
                assert(data_blocks(inode.data).contains(blocks[j]));
            }
        }
    }
    lemma_blocks_cleared(bits, blocks);
    let after = spec_bits_without(bits, inode);
    let cleared = spec_bits_without_blocks(bits, blocks);
    assert forall|g: int| 0 <= g < bits.len() implies after[g] =~= cleared[g] by {
        assert forall|k: int| 0 <= k < 32768 implies after[g][k] == cleared[g][k] by {
            let y = spec_public_address(g, k);
            if blocks.contains(y) {
                let at = choose|at: int| 0 <= at < blocks.len() && blocks[at] == y;
                if at < blocks.len() - 1 {
                    assert(data_blocks(inode.data)[at] == y);
                }
            }
            if data_blocks(inode.data).contains(y) {
                let at = choose|at: int|
                    0 <= at < data_blocks(inode.data).len() && data_blocks(inode.data)[at] == y;
                assert(blocks[at] == y);
            }
            if y == inode.block_index {
                assert(blocks[blocks.len() - 1] == y);
            }
        }
    }
    assert(after =~= cleared);
}

/// A first-fit claim of `need` blocks leaves as many blocks fewer free, and its
/// regions hold as many blocks.
pub proof fn lemma_claim_count(start: Seq<Seq<bool>>, need: nat, regions: Seq<(u32, u32)>)
    requires
        rows_full(start),
        is_first_fit_claim(start, need, regions, 0),
    ensures
        spec_free_blocks(spec_bits_with_regions(start, regions)) + need == spec_free_blocks(start),
        data_blocks(DataView::DirectPointers(regions)).len() == need,
{
    lemma_claim_shape(start, need, regions, 0);
    lemma_flatten_len(regions);
    lemma_flatten_no_duplicates(regions);
    let blocks = spec_flatten(regions);
    assert forall|i: int| 0 <= i < blocks.len() implies is_free(start, #[trigger] blocks[i]) by {
        assert(blocks.contains(blocks[i]));
        lemma_flatten_contains(regions, blocks[i]);
        lemma_claimed_free(start, need, regions, 0, blocks[i]);
    }
    lemma_blocks_set(start, blocks);
    let after = spec_bits_with_regions(start, regions);
    let set = spec_bits_with_blocks(start, blocks);
    assert forall|g: int| 0 <= g < start.len() implies after[g] =~= set[g] by {
        assert forall|k: int| 0 <= k < 32768 implies after[g][k] == set[g][k] by {
            lemma_flatten_contains(regions, spec_public_address(g, k));
        }
    }
    assert(after =~= set);
}

/// What storing a payload does to the number of free blocks: the blocks of the old
/// payload and those of the groups that were appended are free, and the blocks of the
/// new payload no more.
pub proof fn lemma_rewrite_count(
    bits: Seq<Seq<bool>>,
    inode: InodeView,
    len: int,
    regions: Seq<(u32, u32)>,
)
    requires
        rows_full(bits),
        object_sound(bits, inode),
        len > 4047 ==> is_first_fit_claim(
            spec_claim_start(bits, inode, len),
            spec_blocks_needed(len) as nat,
            regions,
            0,
        ) && spec_claim_start(bits, inode, len).len() >= bits.len(),
    ensures
        ({
            let after = if len <= 4047 {
                spec_bits_after_release(bits, inode)
            } else {
                spec_bits_with_regions(spec_claim_start(bits, inode, len), regions)
            };
            spec_free_blocks(after) + spec_payload_blocks(len) == spec_free_blocks(bits) + data_blocks(
                inode.data,
            ).len() + 32768 * (after.len() - bits.len())
        }),
        len > 4047 ==> spec_flatten(regions).len() == spec_blocks_needed(len),
{
    lemma_release_count(bits, inode);
    if len > 4047 {
        let released = spec_bits_after_release(bits, inode);
        let start = spec_claim_start(bits, inode, len);
        lemma_grown_count(released, start.len() as int);
        assert(start =~= spec_grown_bits(released, start.len() as int));
        assert(rows_full(start));
        lemma_claim_count(start, spec_blocks_needed(len) as nat, regions);
    }
}

/// A later state in which the same blocks are allocated has the bitmaps of the
/// earlier one, followed by those of the groups that were appended, in which every
/// block is free.
pub proof fn lemma_same_allocation(before: &FS, after: &FS)
    requires
        before.wf_core(),
        after.wf_core(),
        after.groups@.len() >= before.groups@.len(),
        after.same_allocation(before),
    ensures
        after.spec_bits() == spec_grown_bits(before.spec_bits(), after.groups@.len() as int),
        spec_free_blocks(after.spec_bits()) == spec_free_blocks(before.spec_bits()) + 32768 * (
        after.groups@.len() - before.groups@.len()),
{
    let grown = spec_grown_bits(before.spec_bits(), after.groups@.len() as int);
    assert forall|g: int| 0 <= g < after.groups@.len() implies after.spec_bits()[g] =~= grown[g] by {
        assert(after.groups@[g].wf());
        if g < before.groups@.len() {
            assert(before.groups@[g].wf());
        }
        assert forall|k: int| 0 <= k < 32768 implies after.spec_bits()[g][k] == grown[g][k] by {
            let b = spec_public_address(g, k);
            lemma_address_round_trip(g, k);
            assert(is_allocated(after.spec_bits(), b) == is_allocated(before.spec_bits(), b));
        }
    }
    assert(after.spec_bits() =~= grown);
    lemma_grown_count(before.spec_bits(), after.groups@.len() as int);
}

} // verus!
