//! The block group: a bitmap of 32768 bits, one per data block, with first-fit
//! allocation of single blocks and of runs of blocks.

use vstd::prelude::*;
use vstd::slice::*;
use crate::bitmap::{Bitmap, bitmap_as_raw_slice, bitmap_clone, bitmap_count_zeros, bitmap_first_zero, bitmap_from_slice, bitmap_get, bitmap_len, bitmap_resize, bitmap_set, bitmap_with_capacity, bits_of, count_ones, count_zeros, lemma_count_zeros_update, lemma_zeros_and_ones, packed, unpacked};
use crate::error::FsError;
use crate::layout::{BLOCK_SIZE, BLOCKS_PER_GROUP, GROUP_BYTES, GROUP_SPAN, is_data_address, spec_bit_of, spec_block_seek_position, spec_group_of, spec_group_seek_position, spec_public_address};

verus! {

/// The allocation state of one group of data blocks.
#[derive(Debug, Default)]
pub struct Group {
    pub block_bitmap: Bitmap,
}

impl View for Group {
    type V = Seq<bool>;

    /// The bitmap, bit by bit: `true` for an allocated block.
    open spec fn view(&self) -> Seq<bool> {
        bits_of(self.block_bitmap)
    }
}

impl Clone for Group {
    fn clone(&self) -> (copy: Self)
        ensures
            copy@ == self@,
    {
        Group { block_bitmap: bitmap_clone(&self.block_bitmap) }
    }
}

/// Sum of the lengths of `ranges`.
pub open spec fn total_length(ranges: Seq<(u32, u32)>) -> nat
    decreases ranges.len(),
{
    if ranges.len() == 0 {
        0
    } else {
        total_length(ranges.drop_last()) + ranges.last().1 as nat
    }
}

/// First bit of range `j`, for ranges of the group whose bit 0 has address `base`.
pub open spec fn range_start(ranges: Seq<(u32, u32)>, base: int, j: int) -> int {
    ranges[j].0 - base
}

/// The bit after the last bit of range `j`.
pub open spec fn range_end(ranges: Seq<(u32, u32)>, base: int, j: int) -> int {
    ranges[j].0 - base + ranges[j].1
}

/// The bit after the last bit of the last range; 0 where there is no range.
pub open spec fn frontier(ranges: Seq<(u32, u32)>, base: int) -> int {
    if ranges.len() == 0 {
        0
    } else {
        range_end(ranges, base, ranges.len() - 1)
    }
}

/// Range `j` is a maximal run of clear bits of `bits`, and no bit is clear between
/// the range before it (or the start of the bitmap) and its first bit.
pub open spec fn is_next_run(bits: Seq<bool>, ranges: Seq<(u32, u32)>, base: int, j: int) -> bool {
    let from = if j == 0 { 0 } else { range_end(ranges, base, j - 1) };
    let start = range_start(ranges, base, j);
    let end = range_end(ranges, base, j);
    &&& from <= start < end <= bits.len()
    &&& j > 0 ==> from < start
    &&& forall|i: int| from <= i < start ==> bits[i]
    &&& forall|i: int| start <= i < end ==> !bits[i]
}

/// The ranges are, in increasing order, the runs of clear bits that `bits` has below
/// the end of the last of them.
pub open spec fn are_leading_runs(bits: Seq<bool>, ranges: Seq<(u32, u32)>, base: int) -> bool {
    forall|j: int| 0 <= j < ranges.len() ==> is_next_run(bits, ranges, base, j)
}

/// What a first-fit claim of up to `want` blocks in at most `max_regions` runs does to
/// a bitmap, and what it returns.
///
/// The claimed blocks are the clear bits below the frontier, which is the end of the
/// last range: afterwards every bit below the frontier is set, and the rest of the
/// bitmap is as before. The ranges are the runs of clear bits that the old bitmap had
/// below the frontier. The claim stops when nothing remains to be claimed, when no
/// clear bit is left, or when `max_regions` runs were closed by a set bit.
pub open spec fn is_region_claim(
    before: Seq<bool>,
    after: Seq<bool>,
    base: int,
    want: nat,
    max_regions: nat,
    ranges: Seq<(u32, u32)>,
    remaining: nat,
) -> bool {
    let reach = frontier(ranges, base);
    &&& ranges.len() <= max_regions
    &&& are_leading_runs(before, ranges, base)
    &&& 0 <= reach <= before.len()
    &&& after == Seq::new(before.len(), |i: int| if i < reach { true } else { before[i] })
    &&& total_length(ranges) + remaining == want
    &&& {
        ||| remaining == 0
        ||| forall|i: int| reach <= i < before.len() ==> before[i]
        ||| ranges.len() == max_regions && (max_regions == 0 || before[reach])
    }
}

impl Group {
    /// Whether the bitmap has one bit for each data block of a group.
    pub open spec fn wf(&self) -> bool {
        self@.len() == 32768
    }

    /// A group around a bitmap.
    pub fn new(block_bitmap: Bitmap) -> (group: Self)
        ensures
            group.block_bitmap == block_bitmap,
    {
        Self { block_bitmap }
    }

    /// A group in which every block is free.
    pub fn init() -> (group: Self)
        ensures
            group.wf(),
            forall|i: int| 0 <= i < 32768 ==> !group@[i],
    {
        let mut block_bitmap = bitmap_with_capacity(BLOCKS_PER_GROUP as usize);
        bitmap_resize(&mut block_bitmap, BLOCKS_PER_GROUP as usize, false);
        Self { block_bitmap }
    }

    /// Byte offset of the bitmap block of group `group_index`.
    pub fn seek_position(group_index: u32) -> (offset: u32)
        requires
            group_index <= 31,
        ensures
            offset == spec_group_seek_position(group_index as int),
    {
        BLOCK_SIZE + group_index * GROUP_BYTES
    }

    /// Block address of bit `bitmap_index` of group `group_index`.
    pub fn create_public_address(group_index: u32, bitmap_index: u32) -> (block_index: u32)
        requires
            spec_public_address(group_index as int, bitmap_index as int) <= u32::MAX,
        ensures
            block_index == spec_public_address(group_index as int, bitmap_index as int),
    {
        group_index * GROUP_SPAN + bitmap_index + 2
    }

    /// The group and the bit, within that group, of the data block with address
    /// `block_index`: the inverse of `create_public_address`.
    pub fn translate_public_address(block_index: u32) -> (coordinates: (u32, u32))
        requires
            block_index >= 2,
        ensures
            coordinates.0 == spec_group_of(block_index as int),
            coordinates.1 == spec_bit_of(block_index as int),
            forall|group_index: int, bitmap_index: int|
                0 <= group_index && 0 <= bitmap_index < 32768
                && block_index == #[trigger] spec_public_address(group_index, bitmap_index)
                ==> coordinates.0 == group_index && coordinates.1 == bitmap_index,
    {
        let offset: u32 = block_index - 2;
        (offset / GROUP_SPAN, offset % GROUP_SPAN)
    }

    /// Appends the bitmap block to `w`: the bits, eight to a byte, least significant
    /// bit first.
    pub fn serialize_into(&self, w: &mut Vec<u8>)
        requires
            self.wf(),
        ensures
            final(w)@ == old(w)@ + packed(self@),
            packed(self@).len() == 4096,
    {
        let raw = bitmap_as_raw_slice(&self.block_bitmap);
        let mut i: usize = 0;
        while i < raw.len()
            invariant
                i <= raw@.len(),
                w@ == old(w)@ + raw@.subrange(0, i as int),
            decreases raw@.len() - i,
        {
            w.push(raw[i]);
            assert(w@ =~= old(w)@ + raw@.subrange(0, i + 1));
            i += 1;
        }
        assert(raw@.subrange(0, i as int) =~= raw@);
    }

    /// Reads the bitmap block of group `group_index` from an image. Fails with
    /// `IoFailure` exactly when the image ends before the end of that block.
    pub fn deserialize_from(image: &[u8], group_index: u32) -> (loaded: Result<Group, FsError>)
        ensures
            match loaded {
                Ok(group) => {
                    &&& spec_group_seek_position(group_index as int) + 4096 <= image@.len()
                    &&& group.wf()
                    &&& group@ == unpacked(
                        image@.subrange(
                            spec_group_seek_position(group_index as int),
                            spec_group_seek_position(group_index as int) + 4096,
                        ),
                    )
                },
                Err(e) => {
                    &&& e == FsError::IoFailure
                    &&& spec_group_seek_position(group_index as int) + 4096 > image@.len()
                },
            },
    {
        let start: u64 = 4096 + group_index as u64 * 134_221_824;
        let end: u64 = start + 4096;
        if end > image.len() as u64 {
            return Err(FsError::IoFailure);
        }
        let block = slice_subrange(image, start as usize, end as usize);
        Ok(Group { block_bitmap: bitmap_from_slice(block) })
    }

    /// Number of free data blocks.
    pub fn free_data_blocks(&self) -> (free: usize)
        ensures
            free == count_zeros(self@),
    {
        bitmap_count_zeros(&self.block_bitmap)
    }

    /// Number of data blocks, free or not.
    pub fn total_data_blocks(&self) -> (total: usize)
        ensures
            total == self@.len(),
    {
        bitmap_len(&self.block_bitmap)
    }

    /// Whether the block at `bitmap_index` is allocated.
    pub fn is_allocated(&self, bitmap_index: u32) -> (allocated: bool)
        requires
            bitmap_index < self@.len(),
        ensures
            allocated == self@[bitmap_index as int],
    {
        bitmap_get(&self.block_bitmap, bitmap_index as usize)
    }

    /// Frees the block at `bitmap_index`.
    pub fn release_one(&mut self, bitmap_index: u32)
        requires
            bitmap_index < old(self)@.len(),
        ensures
            final(self)@ == old(self)@.update(bitmap_index as int, false),
            final(self)@.len() == old(self)@.len(),
    {
        bitmap_set(&mut self.block_bitmap, bitmap_index as usize, false);
    }

    /// Frees the `length` blocks from `bitmap_index` on.
    pub fn release_data_region(&mut self, bitmap_index: u32, length: u32)
        requires
            bitmap_index + length <= old(self)@.len(),
        ensures
            final(self)@ == Seq::new(
                old(self)@.len(),
                |i: int| if bitmap_index <= i < bitmap_index + length { false } else { old(self)@[i] },
            ),
            final(self)@.len() == old(self)@.len(),
    {
        let len = bitmap_len(&self.block_bitmap);
        let end: u64 = bitmap_index as u64 + length as u64;
        let mut i: u64 = bitmap_index as u64;
        while i < end
            invariant
                bitmap_index <= i <= end,
                end == bitmap_index + length,
                end <= old(self)@.len(),
                old(self)@.len() == len,
                self@ == Seq::new(
                    old(self)@.len(),
                    |k: int| if bitmap_index <= k < i { false } else { old(self)@[k] },
                ),
            decreases end - i,
        {
            bitmap_set(&mut self.block_bitmap, i as usize, false);
            i += 1;
            assert(self@ =~= Seq::new(
                old(self)@.len(),
                |k: int| if bitmap_index <= k < i { false } else { old(self)@[k] },
            ));
        }
        assert(old(self)@ =~= Seq::new(
            old(self)@.len(),
            |k: int| if bitmap_index <= k < bitmap_index { false } else { old(self)@[k] },
        ));
    }

    /// Marks the block at `bitmap_index` as allocated, whatever it was.
    pub fn force_allocate_at(&mut self, bitmap_index: u32)
        requires
            bitmap_index < old(self)@.len(),
        ensures
            final(self)@ == old(self)@.update(bitmap_index as int, true),
            final(self)@.len() == old(self)@.len(),
    {
        bitmap_set(&mut self.block_bitmap, bitmap_index as usize, true);
    }

    /// Allocates the free block with the lowest index and returns its address; `None`,
    /// with the bitmap as it was, exactly when no block is free.
    pub fn allocate_one(&mut self, group_index: u32) -> (allocated: Option<u32>)
        requires
            old(self).wf(),
            group_index <= 31,
        ensures
            final(self).wf(),
            match allocated {
                Some(block_index) => {
                    let bit = block_index - spec_public_address(group_index as int, 0);
                    &&& 0 <= bit < 32768
                    &&& !old(self)@[bit]
                    &&& forall|i: int| 0 <= i < bit ==> old(self)@[i]
                    &&& final(self)@ == old(self)@.update(bit, true)
                },
                None => {
                    &&& forall|i: int| 0 <= i < 32768 ==> old(self)@[i]
                    &&& final(self)@ == old(self)@
                },
            },
    {
        match bitmap_first_zero(&self.block_bitmap) {
            Some(bitmap_index) => {
                bitmap_set(&mut self.block_bitmap, bitmap_index, true);
                Some(Self::create_public_address(group_index, bitmap_index as u32))
            },
            None => None,
        }
    }

    /// Claims up to `blocks_to_allocate` free blocks, lowest index first, as at most
    /// `max_regions` runs, and returns the runs as (address of first block, length)
    /// together with the number of blocks that could not be claimed.
    pub fn allocate_region(
        &mut self,
        group_index: u32,
        blocks_to_allocate: usize,
        max_regions: usize,
    ) -> (claim: (Vec<(u32, u32)>, usize))
        requires
            old(self).wf(),
            group_index <= 31,
        ensures
            final(self).wf(),
            is_region_claim(
                old(self)@,
                final(self)@,
                spec_public_address(group_index as int, 0),
                blocks_to_allocate as nat,
                max_regions as nat,
                claim.0@,
                claim.1 as nat,
            ),
            count_zeros(final(self)@) + blocks_to_allocate == count_zeros(old(self)@) + claim.1,
    {
        let ghost before = self@;
        let ghost base = spec_public_address(group_index as int, 0);
        let mut regions: Vec<(u32, u32)> = Vec::new();
        let mut remaining: usize = blocks_to_allocate;
        let mut open_start: u32 = 0;
        let mut open_length: u32 = 0;
        let mut i: u32 = 0;
        assert(self@ =~= Seq::new(before.len(), |k: int| if k < 0 { true } else { before[k] }));
        while i < BLOCKS_PER_GROUP && remaining > 0 && regions.len() < max_regions
            invariant
                before.len() == 32768,
                group_index <= 31,
                base == spec_public_address(group_index as int, 0),
                i <= 32768,
                self@ == Seq::new(before.len(), |k: int| if k < i { true } else { before[k] }),
                regions@.len() <= max_regions,
                are_leading_runs(before, regions@, base),
                0 <= frontier(regions@, base) <= i,
                open_length > 0 ==> {
                    &&& regions@.len() < max_regions
                    &&& open_start + open_length == i
                    &&& frontier(regions@, base) <= open_start
                    &&& regions@.len() > 0 ==> frontier(regions@, base) < open_start
                    &&& forall|k: int| frontier(regions@, base) <= k < open_start ==> before[k]
                    &&& forall|k: int| open_start <= k < i ==> !before[k]
                },
                open_length == 0 ==> {
                    &&& forall|k: int| frontier(regions@, base) <= k < i ==> before[k]
                    &&& regions@.len() > 0 ==> frontier(regions@, base) < i
                },
                total_length(regions@) + open_length + remaining == blocks_to_allocate,
                count_zeros(self@) + blocks_to_allocate == count_zeros(before) + remaining,
            decreases 32768 - i,
        {
            let ghost current = self@;
            if !bitmap_get(&self.block_bitmap, i as usize) {
                if open_length == 0 {
                    open_start = i;
                }
                open_length += 1;
                remaining -= 1;
                bitmap_set(&mut self.block_bitmap, i as usize, true);
                proof {
                    lemma_count_zeros_update(current, i as int, true);
                }
            } else if open_length > 0 {
                let start = Self::create_public_address(group_index, open_start);
                let ghost closed = regions@;
                regions.push((start, open_length));
                proof {
                    let n = closed.len() as int;
                    assert(regions@.drop_last() =~= closed);
                    assert forall|j: int| 0 <= j < regions@.len() implies is_next_run(
                        before,
                        regions@,
                        base,
                        j,
                    ) by {
                        if j < n {
                            assert(is_next_run(before, closed, base, j));
                            assert(regions@[j] == closed[j]);
                            if j > 0 {
                                assert(regions@[j - 1] == closed[j - 1]);
                            }
                        } else {
                            if n > 0 {
                                assert(regions@[n - 1] == closed[n - 1]);
                            }
                        }
                    }
                }
                open_length = 0;
            }
            i += 1;
            assert(self@ =~= Seq::new(before.len(), |k: int| if k < i { true } else { before[k] }));
        }
        if open_length > 0 {
            let start = Self::create_public_address(group_index, open_start);
            let ghost closed = regions@;
            regions.push((start, open_length));
            proof {
                let n = closed.len() as int;
                assert(regions@.drop_last() =~= closed);
                assert forall|j: int| 0 <= j < regions@.len() implies is_next_run(
                    before,
                    regions@,
                    base,
                    j,
                ) by {
                    if j < n {
                        assert(is_next_run(before, closed, base, j));
                        assert(regions@[j] == closed[j]);
                        if j > 0 {
                            assert(regions@[j - 1] == closed[j - 1]);
                        }
                    } else {
                        if n > 0 {
                            assert(regions@[n - 1] == closed[n - 1]);
                        }
                    }
                }
            }
        }
        proof {
            let reach = frontier(regions@, base);
            assert(self@ =~= Seq::new(before.len(), |k: int| if k < reach { true } else { before[k] }));
        }
        (regions, remaining)
    }
}

/// A bitmap of a group accounts for each of the group's blocks once: the free blocks
/// and the allocated blocks together are the 32768 blocks of the group. No operation
/// on a group changes the length of its bitmap, so this holds after any sequence of
/// allocations and releases.
pub proof fn lemma_allocator_accounting(bits: Seq<bool>)
    requires
        bits.len() == 32768,
    ensures
        count_zeros(bits) + count_ones(bits) == 32768,
{
    lemma_zeros_and_ones(bits);
}

/// Whether bit `i` lies in range `j`.
pub open spec fn in_range(ranges: Seq<(u32, u32)>, base: int, j: int, i: int) -> bool {
    range_start(ranges, base, j) <= i < range_end(ranges, base, j)
}

/// Leading runs come in increasing order, with at least one bit between two of them.
pub proof fn lemma_runs_ordered(bits: Seq<bool>, ranges: Seq<(u32, u32)>, base: int, j1: int, j2: int)
    requires
        are_leading_runs(bits, ranges, base),
        0 <= j1 < j2 < ranges.len(),
    ensures
        range_end(ranges, base, j1) < range_start(ranges, base, j2),
    decreases j2 - j1,
{
    assert(is_next_run(bits, ranges, base, j2));
    if j1 + 1 < j2 {
        lemma_runs_ordered(bits, ranges, base, j1, j2 - 1);
        assert(is_next_run(bits, ranges, base, j2 - 1));
    }
}

/// A clear bit below the end of the first `count` leading runs lies in one of them.
pub proof fn lemma_runs_cover(bits: Seq<bool>, ranges: Seq<(u32, u32)>, base: int, count: int, i: int)
    requires
        are_leading_runs(bits, ranges, base),
        0 < count <= ranges.len(),
        0 <= i < range_end(ranges, base, count - 1),
        !bits[i],
    ensures
        exists|j: int| 0 <= j < count && in_range(ranges, base, j, i),
    decreases count,
{
    assert(is_next_run(bits, ranges, base, count - 1));
    if range_start(ranges, base, count - 1) <= i {
        assert(in_range(ranges, base, count - 1, i));
    } else {
        lemma_runs_cover(bits, ranges, base, count - 1, i);
    }
}

/// The ranges of a claim hold exactly the wanted number of blocks, less what remains;
/// every block in them was free before and is allocated afterwards; no two of them
/// overlap; and no other bit of the bitmap has changed.
pub proof fn lemma_claimed_regions_disjoint(
    before: Seq<bool>,
    after: Seq<bool>,
    base: int,
    want: nat,
    max_regions: nat,
    ranges: Seq<(u32, u32)>,
    remaining: nat,
)
    requires
        is_region_claim(before, after, base, want, max_regions, ranges, remaining),
    ensures
        total_length(ranges) == want - remaining,
        after.len() == before.len(),
        forall|j: int, i: int|
            0 <= j < ranges.len() && #[trigger] in_range(ranges, base, j, i) ==> 0 <= i < before.len()
                && !before[i] && after[i],
        forall|j1: int, j2: int|
            0 <= j1 < j2 < ranges.len() ==> #[trigger] range_end(ranges, base, j1)
                < #[trigger] range_start(ranges, base, j2),
        forall|i: int|
            0 <= i < before.len() && before[i] != after[i] ==> exists|j: int|
                0 <= j < ranges.len() && in_range(ranges, base, j, i),
{
    let reach = frontier(ranges, base);
    assert forall|j1: int, j2: int| 0 <= j1 < j2 < ranges.len() implies #[trigger] range_end(
        ranges,
        base,
        j1,
    ) < #[trigger] range_start(ranges, base, j2) by {
        lemma_runs_ordered(before, ranges, base, j1, j2);
    }
    assert forall|j: int, i: int|
        0 <= j < ranges.len() && #[trigger] in_range(ranges, base, j, i) implies 0 <= i
        < before.len() && !before[i] && after[i] by {
        assert(is_next_run(before, ranges, base, j));
        let last = ranges.len() - 1;
        assert(is_next_run(before, ranges, base, last));
        if j < last {
            lemma_runs_ordered(before, ranges, base, j, last);
        }
        assert(is_next_run(before, ranges, base, 0));
        if 0 < j {
            lemma_runs_ordered(before, ranges, base, 0, j);
        }
        assert(0 <= i < reach);
    }
    assert forall|i: int| 0 <= i < before.len() && before[i] != after[i] implies exists|j: int|
        0 <= j < ranges.len() && in_range(ranges, base, j, i) by {
        assert(i < reach);
        lemma_runs_cover(before, ranges, base, ranges.len() as int, i);
    }
}

/// Translating the address made from a group and a bit of that group gives back the
/// group and the bit.
pub proof fn lemma_address_round_trip(group_index: int, bitmap_index: int)
    requires
        0 <= group_index,
        0 <= bitmap_index < 32768,
    ensures
        is_data_address(spec_public_address(group_index, bitmap_index)),
        spec_group_of(spec_public_address(group_index, bitmap_index)) == group_index,
        spec_bit_of(spec_public_address(group_index, bitmap_index)) == bitmap_index,
{
}

/// Every data address is the address made from its group and its bit.
pub proof fn lemma_address_of_coordinates(block_index: int)
    requires
        is_data_address(block_index),
    ensures
        0 <= spec_group_of(block_index),
        0 <= spec_bit_of(block_index) < 32768,
        spec_public_address(spec_group_of(block_index), spec_bit_of(block_index)) == block_index,
{
}

/// The block of a data address lies, in the image, right where its group and bit put
/// it: after the superblock, the groups before its own, its group's bitmap block and
/// the data blocks before it.
pub proof fn lemma_data_block_offset(group_index: int, bitmap_index: int)
    requires
        0 <= group_index,
        0 <= bitmap_index < 32768,
    ensures
        spec_block_seek_position(spec_public_address(group_index, bitmap_index))
            == spec_group_seek_position(group_index) + 4096 + bitmap_index * 4096,
{
}

} // verus!
