//! Allocation across the groups of an image: claiming free blocks first-fit, the block
//! of a new inode, and releasing the blocks of an inode.

use vstd::prelude::*;
use crate::error::FsError;
use crate::fs::FS;
use crate::group::{frontier, Group, in_range, is_next_run, is_region_claim, lemma_address_of_coordinates, lemma_address_round_trip, lemma_claimed_regions_disjoint, lemma_runs_ordered, total_length};
use crate::inode::{Data, DataView, Inode, InodeView};
use crate::laws::created;
use crate::layout::{is_data_address, spec_bit_of, spec_group_of, spec_public_address};
use crate::model::{data_blocks, data_valid, is_allocated, is_block_of_image, owns, spec_free_blocks, spec_inode_at};
use crate::plan::{lemma_found_allocation, lemma_full, lemma_grown_allocation, spec_allocated_block, spec_bits_after_allocation, spec_can_allocate, spec_clear_bitmap};
use crate::store::{in_region, in_regions, lemma_flatten_contains, lemma_valid_region_block, regions_disjoint, regions_valid, spec_block, spec_flatten};
use crate::volume::lemma_free_blocks_update;

verus! {

/// The bitmaps of `after` are those of `before`, with each bit cleared whose block
/// lies in one of the regions.
pub open spec fn bits_released(before: Seq<Seq<bool>>, after: Seq<Seq<bool>>, regions: Seq<(u32, u32)>) -> bool {
    &&& after.len() == before.len()
    &&& forall|g: int, k: int|
        0 <= g < before.len() && 0 <= k < 32768 ==> #[trigger] after[g][k] == (before[g][k]
            && !in_regions(regions, spec_public_address(g, k)))
}

impl FS {
    /// Frees the blocks of the regions in the bitmaps.
    pub(crate) fn release_regions(&mut self, regions: &Vec<(u32, u32)>)
        requires
            old(self).wf_core(),
            regions_valid(regions@, old(self).groups@.len() as int),
        ensures
            final(self).wf_core(),
            final(self).superblock == old(self).superblock,
            final(self).image == old(self).image,
            final(self).lookup_table == old(self).lookup_table,
            bits_released(old(self).spec_bits(), final(self).spec_bits(), regions@),
    {
        let mut j: usize = 0;
        assert(bits_released(old(self).spec_bits(), self.spec_bits(), regions@.subrange(0, 0)));
        while j < regions.len()
            invariant
                j <= regions@.len(),
                self.wf_core(),
                regions_valid(regions@, old(self).groups@.len() as int),
                self.superblock == old(self).superblock,
                self.image == old(self).image,
                self.lookup_table == old(self).lookup_table,
                bits_released(old(self).spec_bits(), self.spec_bits(), regions@.subrange(0, j as int)),
            decreases regions@.len() - j,
        {
            let (start, length) = regions[j];
            assert(regions@[j as int].1 >= 1);
            let (group_index, bitmap_index) = Group::translate_public_address(start);
            let ghost before = self.spec_bits();
            assert(self.groups@[group_index as int].wf());
            self.groups[group_index as usize].release_data_region(bitmap_index, length);
            proof {
                let after = self.spec_bits();
                let shorter = regions@.subrange(0, j as int);
                let longer = regions@.subrange(0, j + 1);
                assert forall|g: int, k: int| 0 <= g < before.len() && 0 <= k < 32768
                    implies #[trigger] after[g][k]
                    == (old(self).spec_bits()[g][k] && !in_regions(
                    longer,
                    spec_public_address(g, k),
                )) by {
                    let b = spec_public_address(g, k);
                    assert(before[g][k] == (old(self).spec_bits()[g][k] && !in_regions(shorter, b)));
                    let hit = g == group_index && bitmap_index <= k < bitmap_index + length;
                    assert(hit == in_region(regions@, j as int, b));
                    assert(after[g][k] == (before[g][k] && !hit));
                    if in_regions(shorter, b) {
                        let i = choose|i: int| 0 <= i < shorter.len() && in_region(shorter, i, b);
                        assert(in_region(longer, i, b));
                    }
                    if hit {
                        assert(in_region(longer, j as int, b));
                    }
                    if in_regions(longer, b) {
                        let i = choose|i: int| 0 <= i < longer.len() && in_region(longer, i, b);
                        if i < j {
                            assert(in_region(shorter, i, b));
                        }
                    }
                }
            }
            j += 1;
        }
        assert(regions@.subrange(0, j as int) =~= regions@);
    }

    /// Claims `need` free blocks, lowest address first, as at most 500 runs, and
    /// returns the runs with the number of blocks that could not be claimed.
    pub(crate) fn claim_blocks(&mut self, need: usize) -> (claim: (Vec<(u32, u32)>, usize))
        requires
            old(self).wf_core(),
        ensures
            final(self).wf_core(),
            final(self).superblock == old(self).superblock,
            final(self).image == old(self).image,
            final(self).lookup_table == old(self).lookup_table,
            final(self).groups@.len() == old(self).groups@.len(),
            claim.0@.len() <= 500,
            regions_valid(claim.0@, old(self).groups@.len() as int),
            regions_disjoint(claim.0@),
            total_length(claim.0@) + claim.1 == need,
            first_fit_through(
                old(self).spec_bits(),
                old(self).groups@.len() as int,
                claim.0@,
                claim.1 as nat,
            ),
            spec_free_blocks(final(self).spec_bits()) + need == spec_free_blocks(old(self).spec_bits())
                + claim.1,
            forall|g: int, k: int|
                0 <= g < old(self).groups@.len() && 0 <= k < 32768
                    ==> #[trigger] final(self).spec_bits()[g][k] == (old(self).spec_bits()[g][k] || in_regions(
                    claim.0@,
                    spec_public_address(g, k),
                )),
            forall|g: int, k: int|
                0 <= g < old(self).groups@.len() && 0 <= k < 32768 && in_regions(
                    claim.0@,
                    #[trigger] spec_public_address(g, k),
                ) ==> !old(self).spec_bits()[g][k],
    {
        let ghost before = self.spec_bits();
        let ghost count = self.groups@.len() as int;
        let mut ranges: Vec<(u32, u32)> = Vec::new();
        let mut remaining: usize = need;
        let mut g: usize = 0;
        proof {
            lemma_first_fit_start(before, need as nat);
        }
        while g < self.groups.len()
            invariant
                g <= self.groups@.len(),
                count == self.groups@.len(),
                count == before.len(),
                before == old(self).spec_bits(),
                self.wf_core(),
                self.superblock == old(self).superblock,
                self.image == old(self).image,
                self.lookup_table == old(self).lookup_table,
                ranges@.len() <= 500,
                regions_valid(ranges@, g as int),
                regions_disjoint(ranges@),
                total_length(ranges@) + remaining == need,
                first_fit_through(before, g as int, ranges@, remaining as nat),
                spec_free_blocks(self.spec_bits()) + need == spec_free_blocks(before) + remaining,
                forall|i: int| g <= i < count ==> self.spec_bits()[i] == before[i],
                forall|i: int, k: int|
                    0 <= i < g && 0 <= k < 32768 ==> #[trigger] self.spec_bits()[i][k] == (before[i][k]
                        || in_regions(ranges@, spec_public_address(i, k))),
                forall|i: int, k: int|
                    0 <= i < count && 0 <= k < 32768 && in_regions(
                        ranges@,
                        #[trigger] spec_public_address(i, k),
                    ) ==> !before[i][k] && i < g,
            decreases self.groups@.len() - g,
        {
            let ghost mid = self.spec_bits();
            let ghost earlier = ranges@;
            assert(self.groups@[g as int].wf());
            let (mut claimed, left) = self.groups[g].allocate_region(
                g as u32,
                remaining,
                500 - ranges.len(),
            );
            proof {
                let bitmap = self.groups@[g as int]@;
                assert(mid[g as int] == before[g as int]);
                assert(self.spec_bits() =~= mid.update(g as int, bitmap));
                lemma_free_blocks_update(mid, g as int, bitmap);
                lemma_claim_in_group(
                    before[g as int],
                    bitmap,
                    g as int,
                    remaining as nat,
                    (500 - earlier.len()) as nat,
                    claimed@,
                    left as nat,
                );
                lemma_total_length_concat(earlier, claimed@);
                lemma_first_fit_step(
                    before,
                    bitmap,
                    g as int,
                    earlier,
                    remaining as nat,
                    claimed@,
                    left as nat,
                );
                let all = earlier + claimed@;
                assert forall|b: int| in_regions(all, b) == (in_regions(earlier, b) || in_regions(
                    claimed@,
                    b,
                )) by {
                    lemma_in_regions_concat(earlier, claimed@, b);
                }
                assert forall|b: int| in_regions(earlier, b) implies is_data_address(b)
                    && spec_group_of(b) < g by {
                    let j = choose|j: int| 0 <= j < earlier.len() && in_region(earlier, j, b);
                    lemma_valid_region_block(earlier, g as int, j, b);
                }
                assert forall|j: int| 0 <= j < all.len() implies {
                    &&& (#[trigger] all[j]).1 >= 1
                    &&& is_data_address(all[j].0 as int)
                    &&& spec_group_of(all[j].0 as int) < g + 1
                    &&& spec_bit_of(all[j].0 as int) + all[j].1 <= 32768
                } by {
                    if j < earlier.len() {
                        assert(earlier[j].1 >= 1);
                    } else {
                        assert(claimed@[j - earlier.len()].1 >= 1);
                    }
                }
                assert forall|j1: int, j2: int, b: int|
                    0 <= j1 < j2 < all.len() && in_region(all, j1, b) implies !in_region(
                    all,
                    j2,
                    b,
                ) by {
                    if j2 < earlier.len() {
                        assert(in_region(earlier, j1, b));
                        assert(!in_region(earlier, j2, b));
                    } else if j1 >= earlier.len() {
                        assert(in_region(claimed@, j1 - earlier.len(), b));
                        assert(!in_region(claimed@, j2 - earlier.len(), b));
                    } else {
                        assert(in_region(earlier, j1, b));
                        assert(in_regions(earlier, b));
                        if in_region(all, j2, b) {
                            assert(in_region(claimed@, j2 - earlier.len(), b));
                            assert(in_regions(claimed@, b));
                        }
                    }
                }
                assert forall|i: int, k: int| 0 <= i < g + 1 && 0 <= k < 32768
                    implies #[trigger] self.spec_bits()[i][k]
                    == (before[i][k] || in_regions(all, spec_public_address(i, k))) by {
                    let b = spec_public_address(i, k);
                    if i < g {
                        assert(self.spec_bits()[i] == mid[i]);
                        assert(mid[i][k] == (before[i][k] || in_regions(earlier, b)));
                        if in_regions(claimed@, b) {
                            assert(spec_group_of(b) == g);
                        }
                    } else {
                        assert(bitmap[k] == (before[i][k] || in_regions(claimed@, b)));
                        if in_regions(earlier, b) {
                            assert(spec_group_of(b) < g);
                        }
                    }
                }
                assert forall|i: int, k: int|
                    0 <= i < count && 0 <= k < 32768 && in_regions(
                        all,
                        #[trigger] spec_public_address(i, k),
                    ) implies !before[i][k] && i < g + 1 by {
                    let b = spec_public_address(i, k);
                    if in_regions(claimed@, b) {
                        assert(spec_group_of(b) == g);
                    }
                }
            }
            ranges.append(&mut claimed);
            remaining = left;
            g += 1;
        }
        (ranges, remaining)
    }

    /// Allocates the free block with the lowest address for an inode, writes a fresh
    /// inode to it and returns that inode. Where no block is free, a group is appended
    /// first. Returns `None`, leaving everything as it was, exactly when no block is
    /// free and the image has 31 groups already.
    pub(crate) fn allocate_inode(&mut self) -> (allocated: Option<Inode>)
        requires
            old(self).wf_core(),
        ensures
            final(self).wf_core(),
            final(self).lookup_table == old(self).lookup_table,
            final(self).superblock.file_count == old(self).superblock.file_count,
            final(self).superblock.fs_version == old(self).superblock.fs_version,
            final(self).superblock.block_size == old(self).superblock.block_size,
            final(self).superblock.created == old(self).superblock.created,
            final(self).groups@.len() >= old(self).groups@.len(),
            final(self).image@.len() >= old(self).image@.len(),
            match allocated {
                Some(inode) => {
                    &&& inode.wf()
                    &&& inode@.size == 0
                    &&& inode@.data == DataView::Raw(Seq::<u8>::empty())
                    &&& spec_can_allocate(old(self).spec_bits())
                    &&& inode.block_index == spec_allocated_block(old(self).spec_bits())
                    &&& final(self).spec_bits() == spec_bits_after_allocation(old(self).spec_bits())
                    &&& is_block_of_image(final(self).groups@.len() as int, inode.block_index as int)
                    &&& !is_allocated(old(self).spec_bits(), inode.block_index as int)
                    &&& forall|b: int|
                        is_block_of_image(old(self).groups@.len() as int, b) && b < inode.block_index
                            ==> is_allocated(old(self).spec_bits(), b)
                    &&& forall|b: int|
                        is_block_of_image(final(self).groups@.len() as int, b)
                            ==> #[trigger] is_allocated(
                            final(self).spec_bits(),
                            b,
                        ) == (b == inode.block_index || is_allocated(old(self).spec_bits(), b))
                    &&& spec_inode_at(
                        final(self).image@,
                        final(self).groups@.len() as int,
                        inode.block_index as int,
                    ) == Ok::<InodeView, FsError>(inode@)
                    &&& forall|b: int|
                        0 <= b && b * 4096 + 4096 <= old(self).image@.len() && b != inode.block_index
                            ==> spec_block(final(self).image@, b) == spec_block(old(self).image@, b)
                },
                None => {
                    &&& !spec_can_allocate(old(self).spec_bits())
                    &&& old(self).groups@.len() == 31
                    &&& forall|b: int|
                        is_block_of_image(31, b) ==> is_allocated(old(self).spec_bits(), b)
                    &&& final(self).spec_bits() == old(self).spec_bits()
                    &&& final(self).image == old(self).image
                    &&& final(self).superblock == old(self).superblock
                },
            },
    {
        let ghost old_bits = self.spec_bits();
        let ghost old_image = self.image@;
        let ghost old_count = self.groups@.len() as int;
        let mut found: Option<u32> = None;
        let mut g: usize = 0;
        while g < self.groups.len() && found.is_none()
            invariant
                g <= self.groups@.len(),
                self.wf_core(),
                self.groups@.len() == old_count,
                old_bits == old(self).spec_bits(),
                old_bits.len() == old_count,
                self.image == old(self).image,
                self.superblock == old(self).superblock,
                self.lookup_table == old(self).lookup_table,
                match found {
                    None => {
                        &&& self.spec_bits() == old_bits
                        &&& forall|i: int, k: int|
                            0 <= i < g && 0 <= k < 32768 ==> (#[trigger] old_bits[i][k])
                    },
                    Some(block_index) => {
                        let i = spec_group_of(block_index as int);
                        let k = spec_bit_of(block_index as int);
                        &&& is_block_of_image(old_count, block_index as int)
                        &&& !old_bits[i][k]
                        &&& forall|i2: int, k2: int|
                            0 <= i2 < old_count && 0 <= k2 < 32768 && (i2 < i || (i2 == i && k2 < k))
                                ==> (#[trigger] old_bits[i2][k2])
                        &&& self.spec_bits() == old_bits.update(i, old_bits[i].update(k, true))
                    },
                },
            decreases self.groups@.len() - g, if found.is_none() { 1int } else { 0int },
        {
            assert(self.groups@[g as int].wf());
            let ghost bits_before = self.spec_bits();
            found = self.groups[g].allocate_one(g as u32);
            proof {
                match found {
                    Some(block_index) => {
                        let k = block_index - spec_public_address(g as int, 0);
                        lemma_address_round_trip(g as int, k);
                        assert(self.spec_bits() =~= old_bits.update(
                            g as int,
                            old_bits[g as int].update(k, true),
                        ));
                    },
                    None => {
                        assert(self.spec_bits() =~= old_bits);
                    },
                }
            }
            if found.is_none() {
                g += 1;
            }
        }
        let block_index: u32 = match found {
            Some(block_index) => block_index,
            None => {
                let mut group = Group::init();
                let ghost empty = group@;
                assert(!empty[0]);
                let first = group.allocate_one(self.groups.len() as u32);
                assert(first.is_some());
                assert(first.unwrap() == spec_public_address(old_count, 0)) by {
                    let bit = first.unwrap() - spec_public_address(old_count, 0);
                    if bit > 0 {
                        assert(empty[0]);
                    }
                }
                match self.push_group(group) {
                    Ok(_) => {},
                    Err(_) => {
                        proof {
                            assert forall|b: int| is_block_of_image(31, b) implies is_allocated(
                                old_bits,
                                b,
                            ) by {
                                lemma_address_of_coordinates(b);
                                assert(old_bits[spec_group_of(b)][spec_bit_of(b)]);
                            }
                            lemma_full(old_bits);
                        }
                        return None;
                    },
                }
                let address = first.unwrap();
                proof {
                    lemma_address_round_trip(old_count, 0);
                    assert(address == spec_public_address(old_count, 0));
                    assert forall|i: int| 0 <= i < old_bits.len() implies (#[trigger] old_bits[i]).len()
                        == 32768 by {
                        assert(old(self).groups@[i].wf());
                    }
                    lemma_grown_allocation(old_bits);
                    assert(group@ =~= spec_clear_bitmap().update(0, true));
                    assert forall|b: int|
                        is_block_of_image(old_count, b) && b < address implies is_allocated(
                        old_bits,
                        b,
                    ) by {
                        lemma_address_of_coordinates(b);
                        assert(old_bits[spec_group_of(b)][spec_bit_of(b)]);
                    }
                    assert forall|b: int|
                        is_block_of_image(self.groups@.len() as int, b) implies #[trigger] is_allocated(
                        self.spec_bits(),
                        b,
                    ) == (b == address || is_allocated(old_bits, b)) by {
                        lemma_address_of_coordinates(b);
                        let i = spec_group_of(b);
                        if i < old_count {
                            assert(self.spec_bits()[i] == old_bits[i]);
                        } else {
                            assert(self.spec_bits()[i] == group@);
                        }
                    }
                }
                address
            },
        };
        proof {
            if found.is_some() {
                let i = spec_group_of(block_index as int);
                let k = spec_bit_of(block_index as int);
                lemma_address_of_coordinates(block_index as int);
                assert forall|i: int| 0 <= i < old_bits.len() implies (#[trigger] old_bits[i]).len()
                    == 32768 by {
                    assert(old(self).groups@[i].wf());
                }
                lemma_found_allocation(old_bits, i, k);
                assert forall|b: int|
                    is_block_of_image(old_count, b) && b < block_index implies is_allocated(
                    old_bits,
                    b,
                ) by {
                    lemma_address_of_coordinates(b);
                    assert(old_bits[spec_group_of(b)][spec_bit_of(b)]);
                }
                assert forall|b: int|
                    is_block_of_image(self.groups@.len() as int, b) implies #[trigger] is_allocated(
                    self.spec_bits(),
                    b,
                ) == (b == block_index || is_allocated(old_bits, b)) by {
                    lemma_address_of_coordinates(b);
                }
            }
        }
        let ghost mid_image = self.image@;
        let mut inode = Inode::new(block_index);
        self.save_inode(&mut inode);
        proof {
            assert forall|b: int|
                0 <= b && b * 4096 + 4096 <= old_image.len() && b != block_index implies spec_block(
                self.image@,
                b,
            ) == spec_block(old_image, b) by {
                assert(spec_block(self.image@, b) =~= spec_block(mid_image, b));
                assert(spec_block(mid_image, b) =~= spec_block(old_image, b));
            }
        }
        Some(inode)
    }

    /// Frees the block of `inode` and the blocks of its payload in the bitmaps. The
    /// image keeps its bytes.
    pub(crate) fn release_inode_blocks(&mut self, inode: &Inode)
        requires
            old(self).wf_core(),
            is_block_of_image(old(self).groups@.len() as int, inode.block_index as int),
            data_valid(inode@.data, old(self).groups@.len() as int),
        ensures
            final(self).wf_core(),
            final(self).superblock == old(self).superblock,
            final(self).image == old(self).image,
            final(self).lookup_table == old(self).lookup_table,
            final(self).groups@.len() == old(self).groups@.len(),
            forall|b: int|
                is_block_of_image(old(self).groups@.len() as int, b) ==> #[trigger] is_allocated(
                    final(self).spec_bits(),
                    b,
                ) == (is_allocated(old(self).spec_bits(), b) && !owns(inode@, b)),
    {
        let ghost old_bits = self.spec_bits();
        match &inode.data {
            Data::Raw(_) => {
                assert(bits_released(old_bits, self.spec_bits(), Seq::<(u32, u32)>::empty()));
            },
            Data::DirectPointers(pointers) => {
                self.release_regions(pointers);
            },
        }
        let ghost mid_bits = self.spec_bits();
        let (group_index, bitmap_index) = Group::translate_public_address(inode.block_index);
        assert(self.groups@[group_index as int].wf());
        self.groups[group_index as usize].release_one(bitmap_index);
        proof {
            assert forall|b: int|
                is_block_of_image(old(self).groups@.len() as int, b) implies #[trigger] is_allocated(
                self.spec_bits(),
                b,
            ) == (is_allocated(old(self).spec_bits(), b) && !owns(inode@, b)) by {
                lemma_address_of_coordinates(b);
                lemma_address_of_coordinates(inode.block_index as int);
                let g = spec_group_of(b);
                let k = spec_bit_of(b);
                assert(self.groups@[g].wf());
                assert(mid_bits[g].len() == 32768);
                assert(self.spec_bits()[g][k] == (mid_bits[g][k] && !(g == group_index && k
                    == bitmap_index)));
                assert((g == group_index && k == bitmap_index) == (b == inode.block_index));
                match inode@.data {
                    DataView::Raw(_) => {
                        assert(data_blocks(inode@.data) =~= Seq::<int>::empty());
                        assert(mid_bits[g][k] == (old_bits[g][k] && !in_regions(
                            Seq::<(u32, u32)>::empty(),
                            spec_public_address(g, k),
                        )));
                    },
                    DataView::DirectPointers(regions) => {
                        lemma_flatten_contains(regions, b);
                        assert(mid_bits[g][k] == (old_bits[g][k] && !in_regions(
                            regions,
                            spec_public_address(g, k),
                        )));
                    },
                }
            }
        }
    }

    /// Reads the inode at `inode_block_index` and frees its block and the blocks of its
    /// payload in the bitmaps. Fails, leaving everything as it was, exactly when the
    /// inode cannot be read.
    pub(crate) fn release_inode(&mut self, inode_block_index: u32) -> (done: Result<(), FsError>)
        requires
            old(self).wf_core(),
        ensures
            final(self).wf_core(),
            final(self).superblock == old(self).superblock,
            final(self).image == old(self).image,
            final(self).lookup_table == old(self).lookup_table,
            final(self).groups@.len() == old(self).groups@.len(),
            match done {
                Ok(_) => {
                    &&& spec_inode_at(
                        old(self).image@,
                        old(self).groups@.len() as int,
                        inode_block_index as int,
                    ) is Ok
                    &&& forall|b: int|
                        is_block_of_image(old(self).groups@.len() as int, b) ==> #[trigger] is_allocated(
                            final(self).spec_bits(),
                            b,
                        ) == (is_allocated(old(self).spec_bits(), b) && !owns(
                            spec_inode_at(
                                old(self).image@,
                                old(self).groups@.len() as int,
                                inode_block_index as int,
                            )->Ok_0,
                            b,
                        ))
                },
                Err(e) => {
                    &&& spec_inode_at(
                        old(self).image@,
                        old(self).groups@.len() as int,
                        inode_block_index as int,
                    ) == Err::<InodeView, FsError>(e)
                    &&& final(self).groups == old(self).groups
                },
            },
    {
        let inode = match self.get_inode(inode_block_index) {
            Ok(inode) => inode,
            Err(e) => {
                return Err(e);
            },
        };
        assert(spec_inode_at(
            self.image@,
            self.groups@.len() as int,
            inode_block_index as int,
        )->Ok_0 == inode@);
        self.release_inode_blocks(&inode);
        Ok(())
    }
}

/// The regions that a claim in group `group_index` returns are valid regions of that
/// group that do not overlap; the bitmap afterwards has the bits of their blocks set
/// beside those set before, and their blocks were free before.
pub proof fn lemma_claim_in_group(
    before: Seq<bool>,
    after: Seq<bool>,
    group_index: int,
    want: nat,
    max_regions: nat,
    claimed: Seq<(u32, u32)>,
    remaining: nat,
)
    requires
        before.len() == 32768,
        0 <= group_index <= 30,
        is_region_claim(
            before,
            after,
            spec_public_address(group_index, 0),
            want,
            max_regions,
            claimed,
            remaining,
        ),
    ensures
        after.len() == 32768,
        regions_valid(claimed, group_index + 1),
        regions_disjoint(claimed),
        forall|j: int| 0 <= j < claimed.len()
            ==> spec_group_of((#[trigger] claimed[j]).0 as int) == group_index,
        forall|b: int| in_regions(claimed, b) ==> is_data_address(b) && spec_group_of(b) == group_index,
        forall|k: int|
            0 <= k < 32768 ==> #[trigger] after[k] == (before[k] || in_regions(
                claimed,
                spec_public_address(group_index, k),
            )),
        forall|k: int|
            0 <= k < 32768 && in_regions(claimed, #[trigger] spec_public_address(group_index, k))
                ==> !before[k],
{
    let base = spec_public_address(group_index, 0);
    lemma_claimed_regions_disjoint(before, after, base, want, max_regions, claimed, remaining);
    assert forall|j: int| 0 <= j < claimed.len() implies {
        &&& (#[trigger] claimed[j]).1 >= 1
        &&& is_data_address(claimed[j].0 as int)
        &&& spec_group_of(claimed[j].0 as int) == group_index
        &&& spec_bit_of(claimed[j].0 as int) + claimed[j].1 <= 32768
    } by {
        assert(is_next_run(before, claimed, base, j));
        assert(in_range(claimed, base, j, claimed[j].0 - base));
        assert(in_range(claimed, base, j, claimed[j].0 - base + claimed[j].1 - 1));
    }
    assert forall|j1: int, j2: int, b: int|
        0 <= j1 < j2 < claimed.len() && in_region(claimed, j1, b) implies !in_region(
        claimed,
        j2,
        b,
    ) by {
        lemma_runs_ordered(before, claimed, base, j1, j2);
    }
    assert forall|b: int| in_regions(claimed, b) implies is_data_address(b) && spec_group_of(b)
        == group_index by {
        let j = choose|j: int| 0 <= j < claimed.len() && in_region(claimed, j, b);
        assert(is_next_run(before, claimed, base, j));
        assert(in_range(claimed, base, j, b - base));
    }
    assert forall|k: int| 0 <= k < 32768 implies #[trigger] after[k] == (before[k] || in_regions(
        claimed,
        spec_public_address(group_index, k),
    )) && (in_regions(claimed, spec_public_address(group_index, k)) ==> !before[k]) by {
        let b = spec_public_address(group_index, k);
        if in_regions(claimed, b) {
            let j = choose|j: int| 0 <= j < claimed.len() && in_region(claimed, j, b);
            assert(in_range(claimed, base, j, k));
        }
        if before[k] != after[k] {
            let j = choose|j: int| 0 <= j < claimed.len() && in_range(claimed, base, j, k);
            assert(in_region(claimed, j, b));
        }
    }
}

/// A block lies in one of two lists of regions exactly when it lies in one of the
/// lists put together.
pub proof fn lemma_in_regions_concat(first: Seq<(u32, u32)>, second: Seq<(u32, u32)>, b: int)
    ensures
        in_regions(first + second, b) == (in_regions(first, b) || in_regions(second, b)),
{
    let both = first + second;
    if in_regions(first, b) {
        let j = choose|j: int| 0 <= j < first.len() && in_region(first, j, b);
        assert(in_region(both, j, b));
    }
    if in_regions(second, b) {
        let j = choose|j: int| 0 <= j < second.len() && in_region(second, j, b);
        assert(both[first.len() + j] == second[j]);
        assert(in_region(both, first.len() + j, b));
    }
    if in_regions(both, b) {
        let j = choose|j: int| 0 <= j < both.len() && in_region(both, j, b);
        if j < first.len() {
            assert(in_region(first, j, b));
        } else {
            assert(both[j] == second[j - first.len()]);
            assert(in_region(second, j - first.len(), b));
        }
    }
}

/// The lengths of two lists of regions add up.
pub proof fn lemma_total_length_concat(first: Seq<(u32, u32)>, second: Seq<(u32, u32)>)
    ensures
        total_length(first + second) == total_length(first) + total_length(second),
    decreases second.len(),
{
    if second.len() == 0 {
        assert(first + second =~= first);
    } else {
        assert((first + second).drop_last() =~= first + second.drop_last());
        lemma_total_length_concat(first, second.drop_last());
    }
}

/// The flattened list of regions has one block for each unit of their lengths.
pub proof fn lemma_flatten_len(regions: Seq<(u32, u32)>)
    ensures
        spec_flatten(regions).len() == total_length(regions),
    decreases regions.len(),
{
    if regions.len() > 0 {
        lemma_flatten_len(regions.drop_last());
    }
}

/// Whether `block_index` is a data block of the image that is free.
pub open spec fn is_free(bits: Seq<Seq<bool>>, block_index: int) -> bool {
    is_block_of_image(bits.len() as int, block_index) && !bits[spec_group_of(block_index)][spec_bit_of(
        block_index,
    )]
}

/// Whether the regions are a first-fit claim within the first `groups` groups, with
/// `remaining` blocks still wanted: the regions come in address order and apart from
/// each other; no free block lies before a claimed block without being claimed; as
/// long as blocks are wanted and fewer than 500 regions are claimed, every free block
/// of those groups is claimed; and once 500 regions are claimed with blocks still
/// wanted, the block after the last region is not free.
#[verifier::opaque]
pub open spec fn first_fit_through(
    before: Seq<Seq<bool>>,
    groups: int,
    ranges: Seq<(u32, u32)>,
    remaining: nat,
) -> bool {
    &&& forall|j: int|
        0 < j < ranges.len() ==> ranges[j - 1].0 + ranges[j - 1].1 < (#[trigger] ranges[j]).0
    &&& forall|b1: int, b2: int|
        #![trigger is_free(before, b1), in_regions(ranges, b2)]
        is_free(before, b1) && b1 < b2 && in_regions(ranges, b2) ==> in_regions(ranges, b1)
    &&& remaining > 0 && ranges.len() < 500 ==> forall|b: int| #[trigger]
        is_free(before, b) && spec_group_of(b) < groups ==> in_regions(ranges, b)
    &&& remaining > 0 && ranges.len() == 500 ==> !is_free(
        before,
        ranges.last().0 + ranges.last().1,
    )
}

/// What a claim in group `group_index` says in terms of its frontier, the bit after
/// its last region: the claimed blocks are the free blocks below the frontier; a
/// claim that stops short of its budget with blocks still wanted leaves no free bit
/// from the frontier on; and one that uses up its budget with blocks still wanted
/// ends before a set bit or at the end of the bitmap.
pub proof fn lemma_group_claim_reach(
    before: Seq<bool>,
    after: Seq<bool>,
    group_index: int,
    want: nat,
    budget: nat,
    claimed: Seq<(u32, u32)>,
    left: nat,
)
    requires
        before.len() == 32768,
        0 <= group_index <= 30,
        is_region_claim(
            before,
            after,
            spec_public_address(group_index, 0),
            want,
            budget,
            claimed,
            left,
        ),
    ensures
        0 <= frontier(claimed, spec_public_address(group_index, 0)) <= 32768,
        left <= want,
        claimed.len() <= budget,
        claimed.len() > 0 ==> want > 0 && claimed.last().0 + claimed.last().1
            == spec_public_address(group_index, 0) + frontier(
            claimed,
            spec_public_address(group_index, 0),
        ),
        claimed.len() == 0 ==> left == want && frontier(
            claimed,
            spec_public_address(group_index, 0),
        ) == 0,
        forall|j: int|
            0 < j < claimed.len() ==> claimed[j - 1].0 + claimed[j - 1].1 < (#[trigger] claimed[j]).0,
        forall|k: int|
            0 <= k < 32768 ==> in_regions(claimed, #[trigger] spec_public_address(group_index, k))
                == (k < frontier(claimed, spec_public_address(group_index, 0)) && !before[k]),
        left > 0 && claimed.len() < budget ==> forall|k: int|
            frontier(claimed, spec_public_address(group_index, 0)) <= k < 32768 ==> #[trigger] before[k],
        left > 0 && claimed.len() == budget && claimed.len() > 0 && frontier(
            claimed,
            spec_public_address(group_index, 0),
        ) < 32768 ==> before[frontier(claimed, spec_public_address(group_index, 0))],
{
    let base = spec_public_address(group_index, 0);
    let reach = frontier(claimed, base);
    lemma_claimed_regions_disjoint(before, after, base, want, budget, claimed, left);
    lemma_claim_in_group(before, after, group_index, want, budget, claimed, left);
    assert forall|j: int| 0 < j < claimed.len()
        implies claimed[j - 1].0 + claimed[j - 1].1 < (#[trigger] claimed[j]).0 by {
        lemma_runs_ordered(before, claimed, base, j - 1, j);
    }
    assert forall|k: int| 0 <= k < 32768 implies in_regions(
        claimed,
        #[trigger] spec_public_address(group_index, k),
    ) == (k < reach && !before[k]) by {
        assert(after[k] == (before[k] || in_regions(claimed, spec_public_address(group_index, k))));
    }
    if claimed.len() > 0 {
        assert(is_next_run(before, claimed, base, claimed.len() - 1));
        assert(claimed.last().1 >= 1) by {
            assert(regions_valid(claimed, group_index + 1));
        }
        lemma_total_length_positive(claimed);
    } else {
        assert(total_length(claimed) == 0);
    }
}

/// Regions of at least one block each hold at least as many blocks as there are
/// regions.
pub proof fn lemma_total_length_positive(regions: Seq<(u32, u32)>)
    requires
        forall|j: int| 0 <= j < regions.len() ==> (#[trigger] regions[j]).1 >= 1,
    ensures
        total_length(regions) >= regions.len(),
    decreases regions.len(),
{
    if regions.len() > 0 {
        lemma_total_length_positive(regions.drop_last());
    }
}

/// Claiming nothing is a first-fit claim within no groups.
pub proof fn lemma_first_fit_start(before: Seq<Seq<bool>>, need: nat)
    ensures
        first_fit_through(before, 0, Seq::<(u32, u32)>::empty(), need),
{
    reveal(first_fit_through);
}

/// The regions of a first-fit claim that is continued in the next group come in
/// address order, apart from each other.
pub proof fn lemma_first_fit_step_order(
    before: Seq<Seq<bool>>,
    after: Seq<bool>,
    group_index: int,
    earlier: Seq<(u32, u32)>,
    remaining: nat,
    claimed: Seq<(u32, u32)>,
    left: nat,
)
    requires
        0 <= group_index < before.len() <= 31,
        before[group_index].len() == 32768,
        earlier.len() <= 500,
        regions_valid(earlier, group_index),
        first_fit_through(before, group_index, earlier, remaining),
        is_region_claim(
            before[group_index],
            after,
            spec_public_address(group_index, 0),
            remaining,
            (500 - earlier.len()) as nat,
            claimed,
            left,
        ),
    ensures
        forall|j: int|
            0 < j < (earlier + claimed).len() ==> (earlier + claimed)[j - 1].0 + (earlier
                + claimed)[j - 1].1 < (#[trigger] (earlier + claimed)[j]).0,
{
    reveal(first_fit_through);
    let base = spec_public_address(group_index, 0);
    let reach = frontier(claimed, base);
    let all = earlier + claimed;
    let budget = (500 - earlier.len()) as nat;
    lemma_group_claim_reach(before[group_index], after, group_index, remaining, budget, claimed, left);
    lemma_claim_in_group(before[group_index], after, group_index, remaining, budget, claimed, left);
    assert forall|b: int| in_regions(all, b) == (in_regions(earlier, b) || in_regions(claimed, b)) by {
        lemma_in_regions_concat(earlier, claimed, b);
    }
    assert forall|b: int| in_regions(earlier, b) implies is_data_address(b) && spec_group_of(b)
        < group_index by {
        let j = choose|j: int| 0 <= j < earlier.len() && in_region(earlier, j, b);
        lemma_valid_region_block(earlier, group_index, j, b);
    }
    assert forall|j: int| 0 < j < all.len()
        implies all[j - 1].0 + all[j - 1].1 < (#[trigger] all[j]).0 by {
        if j < earlier.len() {
            assert(earlier[j - 1].0 + earlier[j - 1].1 < earlier[j].0);
        } else if j > earlier.len() {
            let i = j - earlier.len();
            assert(claimed[i - 1].0 + claimed[i - 1].1 < claimed[i].0);
        } else {
            let last = earlier.len() - 1;
            assert(earlier[last].1 >= 1);
            lemma_valid_region_block(earlier, group_index, last, earlier[last].0 as int);
            assert(claimed[0].1 >= 1) by {
                assert(regions_valid(claimed, group_index + 1));
            }
            assert(in_region(claimed, 0, claimed[0].0 as int));
            assert(in_regions(claimed, claimed[0].0 as int));
        }
    }
}

/// A first-fit claim that is continued in the next group passes over no free block.
pub proof fn lemma_first_fit_step_prefix(
    before: Seq<Seq<bool>>,
    after: Seq<bool>,
    group_index: int,
    earlier: Seq<(u32, u32)>,
    remaining: nat,
    claimed: Seq<(u32, u32)>,
    left: nat,
)
    requires
        0 <= group_index < before.len() <= 31,
        before[group_index].len() == 32768,
        earlier.len() <= 500,
        regions_valid(earlier, group_index),
        first_fit_through(before, group_index, earlier, remaining),
        is_region_claim(
            before[group_index],
            after,
            spec_public_address(group_index, 0),
            remaining,
            (500 - earlier.len()) as nat,
            claimed,
            left,
        ),
    ensures
        forall|b1: int, b2: int|
            #![trigger is_free(before, b1), in_regions(earlier + claimed, b2)]
            is_free(before, b1) && b1 < b2 && in_regions(earlier + claimed, b2) ==> in_regions(
                earlier + claimed,
                b1,
            ),
{
    reveal(first_fit_through);
    let base = spec_public_address(group_index, 0);
    let reach = frontier(claimed, base);
    let all = earlier + claimed;
    let budget = (500 - earlier.len()) as nat;
    lemma_group_claim_reach(before[group_index], after, group_index, remaining, budget, claimed, left);
    lemma_claim_in_group(before[group_index], after, group_index, remaining, budget, claimed, left);
    assert forall|b: int| in_regions(all, b) == (in_regions(earlier, b) || in_regions(claimed, b)) by {
        lemma_in_regions_concat(earlier, claimed, b);
    }
    assert forall|b: int| in_regions(earlier, b) implies is_data_address(b) && spec_group_of(b)
        < group_index by {
        let j = choose|j: int| 0 <= j < earlier.len() && in_region(earlier, j, b);
        lemma_valid_region_block(earlier, group_index, j, b);
    }
    assert forall|b1: int, b2: int|
        #![trigger is_free(before, b1), in_regions(all, b2)]
        is_free(before, b1) && b1 < b2 && in_regions(all, b2) implies in_regions(all, b1) by {
        if in_regions(earlier, b2) {
            assert(in_regions(earlier, b1));
        } else {
            assert(in_regions(claimed, b2));
            assert(claimed.len() > 0);
            lemma_address_of_coordinates(b1);
            lemma_address_of_coordinates(b2);
            if spec_group_of(b1) < group_index {
                assert(in_regions(earlier, b1));
            } else {
                assert(spec_group_of(b1) == group_index);
                assert(in_regions(claimed, spec_public_address(group_index, spec_bit_of(b2))));
                assert(in_regions(claimed, spec_public_address(group_index, spec_bit_of(b1))));
            }
        }
    }
}

/// A first-fit claim that is continued in the next group, and still wants blocks and
/// may claim regions, holds every free block of the groups so far.
pub proof fn lemma_first_fit_step_all(
    before: Seq<Seq<bool>>,
    after: Seq<bool>,
    group_index: int,
    earlier: Seq<(u32, u32)>,
    remaining: nat,
    claimed: Seq<(u32, u32)>,
    left: nat,
)
    requires
        0 <= group_index < before.len() <= 31,
        before[group_index].len() == 32768,
        earlier.len() <= 500,
        regions_valid(earlier, group_index),
        first_fit_through(before, group_index, earlier, remaining),
        is_region_claim(
            before[group_index],
            after,
            spec_public_address(group_index, 0),
            remaining,
            (500 - earlier.len()) as nat,
            claimed,
            left,
        ),
    ensures
        left > 0 && (earlier + claimed).len() < 500 ==> forall|b: int| #[trigger]
            is_free(before, b) && spec_group_of(b) < group_index + 1 ==> in_regions(
                earlier + claimed,
                b,
            ),
{
    reveal(first_fit_through);
    let base = spec_public_address(group_index, 0);
    let reach = frontier(claimed, base);
    let all = earlier + claimed;
    let budget = (500 - earlier.len()) as nat;
    lemma_group_claim_reach(before[group_index], after, group_index, remaining, budget, claimed, left);
    lemma_claim_in_group(before[group_index], after, group_index, remaining, budget, claimed, left);
    assert forall|b: int| in_regions(all, b) == (in_regions(earlier, b) || in_regions(claimed, b)) by {
        lemma_in_regions_concat(earlier, claimed, b);
    }
    assert forall|b: int| in_regions(earlier, b) implies is_data_address(b) && spec_group_of(b)
        < group_index by {
        let j = choose|j: int| 0 <= j < earlier.len() && in_region(earlier, j, b);
        lemma_valid_region_block(earlier, group_index, j, b);
    }
    if left > 0 && all.len() < 500 {
        assert forall|b: int| #[trigger] is_free(before, b) && spec_group_of(b) < group_index
            + 1 implies in_regions(all, b) by {
            lemma_address_of_coordinates(b);
            if spec_group_of(b) < group_index {
                assert(in_regions(earlier, b));
            } else {
                let k = spec_bit_of(b);
                if k >= reach {
                    assert(before[group_index][k]);
                }
                assert(in_regions(claimed, spec_public_address(group_index, k)));
            }
        }
    }
}

/// A first-fit claim that is continued in the next group, and has used up its regions
/// with blocks still wanted, ends before a block that is not free.
pub proof fn lemma_first_fit_step_end(
    before: Seq<Seq<bool>>,
    after: Seq<bool>,
    group_index: int,
    earlier: Seq<(u32, u32)>,
    remaining: nat,
    claimed: Seq<(u32, u32)>,
    left: nat,
)
    requires
        0 <= group_index < before.len() <= 31,
        before[group_index].len() == 32768,
        earlier.len() <= 500,
        regions_valid(earlier, group_index),
        first_fit_through(before, group_index, earlier, remaining),
        is_region_claim(
            before[group_index],
            after,
            spec_public_address(group_index, 0),
            remaining,
            (500 - earlier.len()) as nat,
            claimed,
            left,
        ),
    ensures
        left > 0 && (earlier + claimed).len() == 500 ==> !is_free(
            before,
            (earlier + claimed).last().0 + (earlier + claimed).last().1,
        ),
{
    reveal(first_fit_through);
    let base = spec_public_address(group_index, 0);
    let reach = frontier(claimed, base);
    let all = earlier + claimed;
    let budget = (500 - earlier.len()) as nat;
    lemma_group_claim_reach(before[group_index], after, group_index, remaining, budget, claimed, left);
    lemma_claim_in_group(before[group_index], after, group_index, remaining, budget, claimed, left);
    assert forall|b: int| in_regions(all, b) == (in_regions(earlier, b) || in_regions(claimed, b)) by {
        lemma_in_regions_concat(earlier, claimed, b);
    }
    assert forall|b: int| in_regions(earlier, b) implies is_data_address(b) && spec_group_of(b)
        < group_index by {
        let j = choose|j: int| 0 <= j < earlier.len() && in_region(earlier, j, b);
        lemma_valid_region_block(earlier, group_index, j, b);
    }
    if left > 0 && all.len() == 500 {
        if claimed.len() > 0 {
            let end = all.last().0 + all.last().1;
            assert(all.last() == claimed.last());
            assert(end == base + reach);
            if reach < 32768 {
                lemma_address_round_trip(group_index, reach);
            }
        } else {
            assert(all =~= earlier);
        }
    }
}

/// A first-fit claim within the first groups, continued by a claim in the next group
/// with the blocks still wanted and the regions still allowed, is a first-fit claim
/// within the groups up to and with that group.
pub proof fn lemma_first_fit_step(
    before: Seq<Seq<bool>>,
    after: Seq<bool>,
    group_index: int,
    earlier: Seq<(u32, u32)>,
    remaining: nat,
    claimed: Seq<(u32, u32)>,
    left: nat,
)
    requires
        0 <= group_index < before.len() <= 31,
        before[group_index].len() == 32768,
        earlier.len() <= 500,
        regions_valid(earlier, group_index),
        first_fit_through(before, group_index, earlier, remaining),
        is_region_claim(
            before[group_index],
            after,
            spec_public_address(group_index, 0),
            remaining,
            (500 - earlier.len()) as nat,
            claimed,
            left,
        ),
    ensures
        first_fit_through(before, group_index + 1, earlier + claimed, left),
{
    lemma_first_fit_step_order(before, after, group_index, earlier, remaining, claimed, left);
    lemma_first_fit_step_prefix(before, after, group_index, earlier, remaining, claimed, left);
    lemma_first_fit_step_all(before, after, group_index, earlier, remaining, claimed, left);
    lemma_first_fit_step_end(before, after, group_index, earlier, remaining, claimed, left);
    reveal(first_fit_through);
}

} // verus!
