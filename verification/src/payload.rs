//! The payload of an inode: reading it, storing a new one in place of the old, and
//! creating an object with a payload.

use vstd::prelude::*;
use crate::accounting::{lemma_allocation_count, lemma_rewrite_count, rows_full, spec_held, spec_payload_blocks};
use crate::allocation::{bits_released, lemma_flatten_len};
use crate::codec::copy_range;
use crate::error::FsError;
use crate::first_fit::{is_first_fit_claim, lemma_claim_shape, lemma_is_claim, lemma_not_fragmented, spec_fragmented};
use crate::fs::FS;
use crate::group::{Group, lemma_address_of_coordinates};
use crate::inode::{Data, DataView, Inode, InodeView};
use crate::laws::{allocated_one, created, lemma_allocation_undone, lemma_object_written};
use crate::layout::{INODE_CAPACITY, is_data_address, spec_bit_of, spec_group_of, spec_public_address};
use crate::model::{data_blocks, data_valid, is_allocated, is_block_of_image, object_sound, owns, spec_free_blocks, spec_inode_at, spec_payload};
use crate::plan::{spec_groups_after_creation, spec_groups_after_write, is_stored_as, lemma_same_blocks, lemma_written_bits, spec_allocated_block, spec_bits_after_allocation, spec_creation, spec_fresh_inode, spec_rewrite};
use crate::store::{check_regions, flatten_regions, in_region, in_regions, lemma_flatten_contains, lemma_flatten_no_duplicates, lemma_flatten_valid, lemma_valid_region_block, read_blocks, spec_block, spec_flatten, write_blocks};
use crate::util::{Checksum, crc32, encrypt, lemma_encrypt_involution};

verus! {

/// What rewriting an object does to the rest: every block that was allocated and did
/// not belong to the object keeps its bit and its bytes and does not belong to the
/// rewritten object; the blocks of the rewritten object belonged to the object or
/// were free; and no other block is allocated than those allocated before and those
/// of the rewritten object.
#[verifier::opaque]
pub open spec fn rewritten(before: &FS, after: &FS, old_inode: InodeView, new_inode: InodeView) -> bool {
    &&& after.groups@.len() >= before.groups@.len()
    &&& after.image@.len() >= before.image@.len()
    &&& forall|b: int| #[trigger]
        is_allocated(before.spec_bits(), b) && !owns(old_inode, b) ==> is_allocated(
            after.spec_bits(),
            b,
        ) && spec_block(after.image@, b) == spec_block(before.image@, b) && !owns(new_inode, b)
    &&& forall|b: int| #[trigger]
        owns(new_inode, b) ==> owns(old_inode, b) || !is_allocated(before.spec_bits(), b)
    &&& forall|b: int| #[trigger]
        is_allocated(after.spec_bits(), b) ==> owns(new_inode, b) || is_allocated(
            before.spec_bits(),
            b,
        )
}

/// Number of groups that are appended so that `need` blocks are free where `free`
/// blocks are free.
pub open spec fn spec_groups_added(need: int, free: int) -> int {
    if need <= free {
        0
    } else {
        (need - free + 32767) / 32768
    }
}

/// The bitmaps `bits` followed by bitmaps without a set bit, `group_count` in all.
pub open spec fn spec_grown_bits(bits: Seq<Seq<bool>>, group_count: int) -> Seq<Seq<bool>> {
    Seq::new(
        group_count as nat,
        |g: int| if g < bits.len() { bits[g] } else { Seq::new(32768, |k: int| false) },
    )
}

/// The bitmaps from which the blocks of a payload of `len` bytes are claimed for
/// `inode`: the blocks of its old payload are released, its own block is allocated,
/// and groups are appended until enough blocks are free.
pub open spec fn spec_claim_start(bits: Seq<Seq<bool>>, inode: InodeView, len: int) -> Seq<Seq<bool>> {
    let released = spec_bits_after_release(bits, inode);
    spec_grown_bits(
        released,
        bits.len() + spec_groups_added(spec_blocks_needed(len), spec_free_blocks(released) as int),
    )
}

/// Number of blocks that a payload of `len` bytes fills.
pub open spec fn spec_blocks_needed(len: int) -> int {
    (len + 4095) / 4096
}

/// The bitmaps after the blocks of the payload of `inode` were released and the block
/// of `inode` itself was marked as allocated.
pub open spec fn spec_bits_after_release(bits: Seq<Seq<bool>>, inode: InodeView) -> Seq<Seq<bool>> {
    Seq::new(
        bits.len(),
        |g: int|
            Seq::new(
                32768,
                |k: int|
                    spec_public_address(g, k) == inode.block_index || (bits[g][k] && !data_blocks(
                        inode.data,
                    ).contains(spec_public_address(g, k))),
            ),
    )
}

impl FS {
    /// Appends the payload of `inode` to `w` and returns its CRC-32. Fails with
    /// `ChecksumMismatch`, leaving `w` as it was, exactly when the regions of the inode
    /// are not valid in this image.
    pub fn read_inode_data(&self, inode: &Inode, w: &mut Vec<u8>) -> (read: Result<u32, FsError>)
        requires
            self.wf_core(),
        ensures
            match read {
                Ok(sum) => {
                    &&& data_valid(inode@.data, self.groups@.len() as int)
                    &&& final(w)@ == old(w)@ + spec_payload(self.image@, self.lookup_table@, inode@)
                    &&& sum == crc32(spec_payload(self.image@, self.lookup_table@, inode@))
                },
                Err(e) => {
                    &&& e == FsError::ChecksumMismatch
                    &&& !data_valid(inode@.data, self.groups@.len() as int)
                    &&& final(w)@ == old(w)@
                },
            },
    {
        let mut checksum = Checksum::new();
        match &inode.data {
            Data::Raw(bytes) => {
                let mut decoded = copy_range(bytes.as_slice(), 0, bytes.len());
                assert(bytes@.subrange(0, bytes@.len() as int) =~= bytes@);
                encrypt(decoded.as_mut_slice(), &self.lookup_table);
                checksum.update(decoded.as_slice());
                assert(Seq::<u8>::empty() + decoded@ =~= decoded@);
                w.append(&mut decoded);
            },
            Data::DirectPointers(pointers) => {
                let group_count = self.groups.len() as u32;
                if !check_regions(pointers, group_count) {
                    return Err(FsError::ChecksumMismatch);
                }
                let blocks = flatten_regions(pointers, group_count);
                proof {
                    let flat = blocks@.map_values(|b: u32| b as int);
                    assert(flat =~= spec_flatten(pointers@));
                    assert forall|k: int| 0 <= k < blocks@.len() implies (#[trigger] blocks@[k])
                        * 4096 + 4096 <= self.image@.len() by {
                        lemma_flatten_valid(pointers@, group_count as int, k);
                    }
                }
                read_blocks(
                    self.image.as_slice(),
                    &self.lookup_table,
                    &blocks,
                    inode.size,
                    w,
                    &mut checksum,
                );
                assert(Seq::<u8>::empty() + spec_payload(self.image@, self.lookup_table@, inode@)
                    =~= spec_payload(self.image@, self.lookup_table@, inode@));
            },
        }
        Ok(checksum.finalize())
    }

    /// Stores `data`, which is `data_len` bytes long, as the payload of `inode`, and
    /// writes the inode.
    ///
    /// The blocks that the inode referenced before are released first. A payload of at
    /// most 4047 bytes is then kept inside the inode. A longer one goes into data
    /// blocks: groups are appended until enough blocks are free, and the blocks are
    /// claimed first-fit as at most 500 regions. A failure leaves the inode, the
    /// bitmaps of the groups that were there, and the bytes of the image as they were.
    pub(crate) fn write_inode_data(&mut self, inode: &mut Inode, data: &[u8], data_len: u64) -> (done: Result<
        (),
        FsError,
    >)
        requires
            old(self).wf_core(),
            old(inode).wf(),
            is_block_of_image(old(self).groups@.len() as int, old(inode).block_index as int),
            data_valid(old(inode)@.data, old(self).groups@.len() as int),
        ensures
            final(self).wf_core(),
            final(self).lookup_table == old(self).lookup_table,
            final(self).superblock.file_count == old(self).superblock.file_count,
            final(self).superblock.fs_version == old(self).superblock.fs_version,
            final(self).superblock.block_size == old(self).superblock.block_size,
            final(self).superblock.created == old(self).superblock.created,
            final(self).groups@.len() >= old(self).groups@.len(),
            data@.len() == data_len ==> final(self).groups@.len() == spec_groups_after_write(
                old(self).spec_bits(),
                old(inode)@,
                data@.len() as int,
            ),
            data@.len() == data_len ==> spec_rewrite(
                old(self).spec_bits(),
                old(inode)@,
                data@.len() as int,
            ) == (match done {
                Ok(_) => Ok::<Seq<Seq<bool>>, FsError>(final(self).spec_bits()),
                Err(e) => Err::<Seq<Seq<bool>>, FsError>(e),
            }),
            match done {
                Ok(_) => {
                    &&& data@.len() == data_len
                    &&& data@.len() > 4047 ==> spec_blocks_needed(data@.len() as int)
                        <= spec_free_blocks(spec_bits_after_release(old(self).spec_bits(), old(inode)@))
                        + (31 - old(self).groups@.len()) * 32768 && !spec_fragmented(
                        spec_claim_start(old(self).spec_bits(), old(inode)@, data@.len() as int),
                        spec_blocks_needed(data@.len() as int) as nat,
                    )
                    &&& final(inode)@.block_index == old(inode)@.block_index
                    &&& final(inode)@.created == old(inode)@.created
                    &&& final(inode)@.data_checksum == old(inode)@.data_checksum
                    &&& final(inode)@.size == data_len
                    &&& final(inode)@.data is Raw <==> data@.len() <= 4047
                    &&& data@.len() <= 4047 ==> final(self).groups@.len() == old(self).groups@.len()
                    &&& final(inode)@.data matches DataView::DirectPointers(regions) ==> {
                        &&& final(self).groups@.len() == spec_claim_start(
                            old(self).spec_bits(),
                            old(inode)@,
                            data@.len() as int,
                        ).len()
                        &&& is_first_fit_claim(
                            spec_claim_start(old(self).spec_bits(), old(inode)@, data@.len() as int),
                            spec_blocks_needed(data@.len() as int) as nat,
                            regions,
                            0,
                        )
                    }
                    &&& final(inode).wf()
                    &&& data_valid(final(inode)@.data, final(self).groups@.len() as int)
                    &&& data_blocks(final(inode)@.data).no_duplicates()
                    &&& spec_inode_at(
                        final(self).image@,
                        final(self).groups@.len() as int,
                        old(inode).block_index as int,
                    ) == Ok::<InodeView, FsError>(final(inode)@)
                    &&& spec_payload(final(self).image@, final(self).lookup_table@, final(inode)@)
                        == data@
                    &&& forall|b: int|
                        0 <= b && b * 4096 + 4096 <= old(self).image@.len() && !owns(
                            final(inode)@,
                            b,
                        ) ==> spec_block(final(self).image@, b) == spec_block(old(self).image@, b)
                    &&& forall|b: int|
                        is_block_of_image(final(self).groups@.len() as int, b)
                            ==> #[trigger] is_allocated(
                            final(self).spec_bits(),
                            b,
                        ) == (owns(final(inode)@, b) || (is_allocated(old(self).spec_bits(), b)
                            && !data_blocks(old(inode)@.data).contains(b)))
                    &&& forall|b: int|
                        data_blocks(final(inode)@.data).contains(b) ==> {
                            &&& is_block_of_image(final(self).groups@.len() as int, b)
                            &&& b != old(inode).block_index
                            &&& !(is_allocated(old(self).spec_bits(), b) && !data_blocks(
                                old(inode)@.data,
                            ).contains(b))
                        }
                    &&& object_sound(final(self).spec_bits(), final(inode)@)
                    &&& rewritten(old(self), final(self), old(inode)@, final(inode)@)
                    &&& data_blocks(final(inode)@.data).len() == spec_payload_blocks(data@.len() as int)
                    &&& object_sound(old(self).spec_bits(), old(inode)@) ==> spec_free_blocks(
                        final(self).spec_bits(),
                    ) + spec_held(final(inode)@) == spec_free_blocks(old(self).spec_bits()) + spec_held(
                        old(inode)@,
                    ) + 32768 * (final(self).groups@.len() - old(self).groups@.len())
                },
                Err(e) => {
                    &&& e == FsError::InvalidArgument || e == FsError::CapacityExhausted || e
                        == FsError::FragmentationExhausted
                    &&& e == FsError::InvalidArgument <==> data@.len() != data_len
                    &&& e == FsError::FragmentationExhausted <==> data@.len() == data_len
                        && data@.len() > 4047 && spec_blocks_needed(data@.len() as int)
                        <= spec_free_blocks(
                        spec_bits_after_release(old(self).spec_bits(), old(inode)@),
                    ) + (31 - old(self).groups@.len()) * 32768 && spec_fragmented(
                        spec_claim_start(old(self).spec_bits(), old(inode)@, data@.len() as int),
                        spec_blocks_needed(data@.len() as int) as nat,
                    )
                    &&& e == FsError::CapacityExhausted <==> data@.len() == data_len && data@.len()
                        > 4047 && spec_blocks_needed(data@.len() as int) > spec_free_blocks(
                        spec_bits_after_release(old(self).spec_bits(), old(inode)@),
                    ) + (31 - old(self).groups@.len()) * 32768
                    &&& final(inode)@ == old(inode)@
                    &&& final(self).image@.len() >= old(self).image@.len()
                    &&& forall|p: int|
                        0 <= p < old(self).image@.len() ==> final(self).image@[p] == old(self).image@[p]
                    &&& forall|g: int|
                        0 <= g < old(self).groups@.len() ==> #[trigger] final(self).spec_bits()[g]
                            == old(self).spec_bits()[g]
                    &&& forall|g: int, k: int|
                        old(self).groups@.len() <= g < final(self).groups@.len() && 0 <= k < 32768
                            ==> !(#[trigger] final(self).spec_bits()[g][k])
                    &&& final(self).keeps_allocated(old(self))
                    &&& final(self).same_allocation(old(self))
                },
            },
    {
        if data.len() as u64 != data_len {
            assert(self.keeps_allocated(old(self)));
            return Err(FsError::InvalidArgument);
        }
        let ghost old_bits = self.spec_bits();
        let ghost old_image = self.image@;
        let ghost old_count = self.groups@.len() as int;
        let ghost old_view = inode@;
        let ghost released = spec_bits_after_release(old_bits, old_view);
        let own = inode.block_index;
        let snapshot = self.clone_groups();
        match &inode.data {
            Data::Raw(_) => {
                assert(bits_released(old_bits, self.spec_bits(), Seq::<(u32, u32)>::empty()));
            },
            Data::DirectPointers(pointers) => {
                self.release_regions(pointers);
            },
        }
        let (own_group, own_bit) = Group::translate_public_address(own);
        assert(self.groups@[own_group as int].wf());
        let ghost before_force = self.spec_bits();
        self.groups[own_group as usize].force_allocate_at(own_bit);
        proof {
            let now_bits = self.spec_bits();
            assert(now_bits.len() == released.len());
            assert forall|g: int| 0 <= g < now_bits.len() implies now_bits[g] =~= released[g] by {
                assert(self.groups@[g].wf());
                assert forall|k: int| 0 <= k < 32768 implies now_bits[g][k] == released[g][k] by {
                    let b = spec_public_address(g, k);
                    assert(before_force[g].len() == 32768);
                    match old_view.data {
                        DataView::Raw(_) => {
                            assert(before_force[g][k] == (old_bits[g][k] && !in_regions(
                                Seq::<(u32, u32)>::empty(),
                                b,
                            )));
                        },
                        DataView::DirectPointers(regions) => {
                            lemma_flatten_contains(regions, b);
                            assert(before_force[g][k] == (old_bits[g][k] && !in_regions(regions, b)));
                        },
                    }
                }
            }
            assert(now_bits =~= released);
        }
        if data.len() <= INODE_CAPACITY {
            let mut buffer = copy_range(data, 0, data.len());
            assert(data@.subrange(0, data@.len() as int) =~= data@);
            encrypt(buffer.as_mut_slice(), &self.lookup_table);
            let stored = inode.set_raw_data(buffer.as_slice(), data_len);
            assert(stored.is_ok());
            self.save_inode(inode);
            proof {
                lemma_encrypt_involution(data@, self.lookup_table@);
                assert(spec_payload(self.image@, self.lookup_table@, inode@) =~= data@);
                assert(data_blocks(inode@.data) =~= Seq::<int>::empty());
                assert forall|b: int|
                    0 <= b && b * 4096 + 4096 <= old_image.len() && !owns(
                        inode@,
                        b,
                    ) implies spec_block(self.image@, b) == spec_block(old_image, b) by {
                    assert(spec_block(self.image@, b) =~= spec_block(old_image, b));
                }
                assert forall|b: int|
                    is_block_of_image(self.groups@.len() as int, b) implies #[trigger] is_allocated(
                    self.spec_bits(),
                    b,
                ) == (owns(inode@, b) || (is_allocated(old_bits, b) && !data_blocks(
                    old_view.data,
                ).contains(b))) by {
                    lemma_address_of_coordinates(b);
                    assert(self.spec_bits()[spec_group_of(b)][spec_bit_of(b)] == released[spec_group_of(
                        b,
                    )][spec_bit_of(b)]);
                }
                lemma_rewritten(old(self), self, old_view, inode@);
                assert(self.spec_bits() == released);
                assert(rows_full(old_bits)) by {
                    assert forall|g: int| 0 <= g < old_bits.len() implies (#[trigger] old_bits[g]).len()
                        == 32768 by {
                        assert(old(self).groups@[g].wf());
                    }
                }
                if object_sound(old_bits, old_view) {
                    lemma_rewrite_count(old_bits, old_view, data@.len() as int, Seq::empty());
                }
            }
            return Ok(());
        }
        let need: usize = data.len() / 4096 + if data.len() % 4096 != 0 { 1usize } else { 0usize };
        let free = self.count_free_blocks();
        assert(need == spec_blocks_needed(data@.len() as int));
        if need as u64 > free as u64 {
            let missing: u64 = need as u64 - free as u64;
            let extra: u64 = missing / 32768 + if missing % 32768 != 0 { 1u64 } else { 0u64 };
            if extra > 31 - self.groups.len() as u64 {
                self.restore_groups(snapshot);
                proof {
                    assert forall|g: int| 0 <= g < old_count implies #[trigger] self.spec_bits()[g]
                        == old_bits[g] by {
                        assert(snapshot@[g]@ == old_bits[g]);
                    }
                    lemma_failed_write(old(self), self);
                }
                return Err(FsError::CapacityExhausted);
            }
            let mut added: u64 = 0;
            while added < extra
                invariant
                    added <= extra,
                    extra <= 31 - old_count,
                    released.len() == old_count,
                    self.wf_core(),
                    self.groups@.len() == old_count + added,
                    self.lookup_table == old(self).lookup_table,
                    self.superblock.file_count == old(self).superblock.file_count,
                    self.superblock.fs_version == old(self).superblock.fs_version,
                    self.superblock.block_size == old(self).superblock.block_size,
                    self.superblock.created == old(self).superblock.created,
                    self.image@.len() >= old_image.len(),
                    forall|p: int| 0 <= p < old_image.len() ==> self.image@[p] == old_image[p],
                    forall|g: int| 0 <= g < old_count ==> #[trigger] self.spec_bits()[g] == released[g],
                    forall|g: int, k: int|
                        old_count <= g < self.groups@.len() && 0 <= k < 32768
                            ==> !(#[trigger] self.spec_bits()[g][k]),
                decreases extra - added,
            {
                let ghost bits_before = self.spec_bits();
                let group = Group::init();
                let grown = self.push_group(group);
                assert(grown.is_ok());
                proof {
                    let bits_now = self.spec_bits();
                    assert(bits_now == bits_before.push(group@));
                    assert forall|g: int| 0 <= g < old_count implies #[trigger] bits_now[g]
                        == released[g] by {
                        assert(bits_now[g] == bits_before[g]);
                    }
                    assert forall|g: int, k: int|
                        old_count <= g < bits_now.len() && 0 <= k < 32768
                            implies !(#[trigger] bits_now[g][k]) by {
                        if g < bits_before.len() {
                            assert(bits_now[g] == bits_before[g]);
                        } else {
                            assert(bits_now[g] == group@);
                        }
                    }
                }
                added += 1;
            }
        }
        let ghost mid_bits = self.spec_bits();
        let ghost mid_image = self.image@;
        let ghost start = spec_claim_start(old_bits, old_view, data@.len() as int);
        proof {
            assert(free == spec_free_blocks(released));
            assert(mid_bits.len() == start.len());
            assert forall|g: int| 0 <= g < mid_bits.len() implies mid_bits[g] =~= start[g] by {
                assert(self.groups@[g].wf());
                if g < old_count {
                    assert(mid_bits[g] == released[g]);
                } else {
                    assert forall|k: int| 0 <= k < 32768 implies !mid_bits[g][k] by {}
                }
            }
            assert(mid_bits =~= start);
        }
        let (ranges, remaining) = self.claim_blocks(need);
        if remaining > 0 {
            self.restore_groups(snapshot);
            proof {
                lemma_is_claim(start, need as nat, ranges@, remaining as nat);
                assert forall|g: int| 0 <= g < old_count implies #[trigger] self.spec_bits()[g]
                    == old_bits[g] by {
                    assert(snapshot@[g]@ == old_bits[g]);
                }
                lemma_failed_write(old(self), self);
            }
            return Err(FsError::FragmentationExhausted);
        }
        proof {
            lemma_is_claim(start, need as nat, ranges@, 0);
            lemma_not_fragmented(start, need as nat, ranges@);
        }
        let group_count = self.groups.len() as u32;
        let blocks = flatten_regions(&ranges, group_count);
        let ghost flat = spec_flatten(ranges@);
        proof {
            lemma_flatten_len(ranges@);
            lemma_flatten_no_duplicates(ranges@);
            assert(blocks@.map_values(|b: u32| b as int) =~= flat);
            assert forall|k: int| 0 <= k < blocks@.len() implies (#[trigger] blocks@[k]) * 4096 + 4096
                <= self.image@.len() by {
                lemma_flatten_valid(ranges@, group_count as int, k);
            }
            assert forall|i: int, j: int| 0 <= i < j < blocks@.len() implies blocks@[i]
                != blocks@[j] by {
                assert(flat[i] != flat[j]);
            }
            // the block of the inode is none of the claimed blocks
            assert forall|b: int| flat.contains(b) implies {
                &&& is_block_of_image(group_count as int, b)
                &&& b != own
                &&& !(is_allocated(old_bits, b) && !data_blocks(old_view.data).contains(b))
            } by {
                lemma_flatten_contains(ranges@, b);
                let j = choose|j: int| 0 <= j < ranges@.len() && in_region(ranges@, j, b);
                lemma_valid_region_block(ranges@, group_count as int, j, b);
                lemma_address_of_coordinates(b);
                let g = spec_group_of(b);
                let k = spec_bit_of(b);
                assert(in_regions(ranges@, spec_public_address(g, k)));
                assert(!mid_bits[g][k]);
                if g < old_count {
                    assert(mid_bits[g] == released[g]);
                }
            }
        }
        let ghost ranges_view = ranges@;
        inode.set_direct_pointers(ranges, data_len);
        assert(inode@.data == DataView::DirectPointers(ranges@));
        self.save_inode(inode);
        let ghost saved_image = self.image@;
        write_blocks(&mut self.image, &self.lookup_table, &blocks, data);
        proof {
            assert(!flat.contains(own as int));
            assert(spec_block(self.image@, own as int) == spec_block(saved_image, own as int));
            assert forall|b: int|
                0 <= b && b * 4096 + 4096 <= old_image.len() && !owns(inode@, b) implies spec_block(
                self.image@,
                b,
            ) == spec_block(old_image, b) by {
                assert(spec_block(self.image@, b) == spec_block(saved_image, b));
                assert(spec_block(saved_image, b) =~= spec_block(mid_image, b));
                assert(spec_block(mid_image, b) =~= spec_block(old_image, b));
            }
            assert forall|b: int|
                is_block_of_image(self.groups@.len() as int, b) implies #[trigger] is_allocated(
                self.spec_bits(),
                b,
            ) == (owns(inode@, b) || (is_allocated(old_bits, b) && !data_blocks(
                old_view.data,
            ).contains(b))) by {
                lemma_address_of_coordinates(b);
                lemma_flatten_contains(ranges@, b);
                let g = spec_group_of(b);
                let k = spec_bit_of(b);
                assert(self.spec_bits()[g][k] == (mid_bits[g][k] || in_regions(
                    ranges@,
                    spec_public_address(g, k),
                )));
                if g < old_count {
                    assert(mid_bits[g] == released[g]);
                } else {
                    assert(!mid_bits[g][k]);
                }
            }
            lemma_rewritten(old(self), self, old_view, inode@);
            assert forall|g: int| 0 <= g < self.groups@.len() implies (#[trigger] self.spec_bits()[g]).len()
                == 32768 by {
                assert(self.groups@[g].wf());
            }
            lemma_written_bits(old_bits, old_view, data@.len() as int, ranges_view, self.spec_bits());
            lemma_claim_shape(
                spec_claim_start(old_bits, old_view, data@.len() as int),
                spec_blocks_needed(data@.len() as int) as nat,
                ranges_view,
                0,
            );
            lemma_flatten_len(ranges_view);
            assert(rows_full(old_bits)) by {
                assert forall|g: int| 0 <= g < old_bits.len() implies (#[trigger] old_bits[g]).len()
                    == 32768 by {
                    assert(old(self).groups@[g].wf());
                }
            }
            if object_sound(old_bits, old_view) {
                lemma_rewrite_count(old_bits, old_view, data@.len() as int, ranges_view);
            }
        }
        Ok(())
    }

    /// Writes a new object with the payload `data`: allocates the free block with the
    /// lowest address for its inode, stores the payload, and writes the inode.
    ///
    /// Fails with `CapacityExhausted` or `FragmentationExhausted` where the blocks
    /// cannot be had. A failure leaves the allocation as it was and every allocated
    /// block with its bytes.
    pub(crate) fn create_object(&mut self, data: &[u8]) -> (made: Result<Inode, FsError>)
        requires
            old(self).wf_core(),
        ensures
            final(self).wf_core(),
            final(self).lookup_table == old(self).lookup_table,
            final(self).superblock.file_count == old(self).superblock.file_count,
            final(self).superblock.fs_version == old(self).superblock.fs_version,
            final(self).superblock.block_size == old(self).superblock.block_size,
            final(self).superblock.created == old(self).superblock.created,
            final(self).groups@.len() >= old(self).groups@.len(),
            final(self).image@.len() >= old(self).image@.len(),
            match made {
                Ok(inode) => {
                    &&& inode.wf()
                    &&& is_block_of_image(final(self).groups@.len() as int, inode.block_index as int)
                    &&& data_valid(inode@.data, final(self).groups@.len() as int)
                    &&& created(old(self), final(self), inode@)
                    &&& spec_payload(final(self).image@, final(self).lookup_table@, inode@) == data@
                    &&& inode.block_index == spec_allocated_block(old(self).spec_bits())
                    &&& is_stored_as(
                        spec_bits_after_allocation(old(self).spec_bits()),
                        spec_fresh_inode(spec_allocated_block(old(self).spec_bits())),
                        data@.len() as int,
                        inode@,
                    )
                    &&& spec_free_blocks(final(self).spec_bits()) + spec_held(inode@) == spec_free_blocks(
                        old(self).spec_bits(),
                    ) + 32768 * (final(self).groups@.len() - old(self).groups@.len())
                },
                Err(e) => {
                    &&& e == FsError::CapacityExhausted || e == FsError::FragmentationExhausted
                    &&& final(self).keeps_allocated(old(self))
                    &&& final(self).same_allocation(old(self))
                },
            },
            final(self).groups@.len() == spec_groups_after_creation(
                old(self).spec_bits(),
                data@.len() as int,
            ),
            spec_creation(old(self).spec_bits(), data@.len() as int) == (match made {
                Ok(_) => Ok::<Seq<Seq<bool>>, FsError>(final(self).spec_bits()),
                Err(e) => Err::<Seq<Seq<bool>>, FsError>(e),
            }),
    {
        let ghost before = *self;
        let mut inode = match self.allocate_inode() {
            Some(inode) => inode,
            None => {
                assert(self.keeps_allocated(&before));
                return Err(FsError::CapacityExhausted);
            },
        };
        let ghost allocated = *self;
        let ghost fresh = inode@;
        assert(allocated_one(&before, &allocated, fresh));
        proof {
            lemma_same_blocks(
                allocated.spec_bits(),
                fresh,
                spec_fresh_inode(spec_allocated_block(before.spec_bits())),
                data@.len() as int,
            );
            assert(rows_full(before.spec_bits())) by {
                assert forall|g: int| 0 <= g < before.spec_bits().len() implies (
                #[trigger] before.spec_bits()[g]).len() == 32768 by {
                    assert(before.groups@[g].wf());
                }
            }
            lemma_allocation_count(before.spec_bits());
            assert(object_sound(allocated.spec_bits(), fresh)) by {
                reveal(object_sound);
            }
        }
        match self.write_inode_data(&mut inode, data, data.len() as u64) {
            Ok(_) => {
                proof {
                    lemma_object_written(&before, &allocated, self, fresh, inode@);
                }
                Ok(inode)
            },
            Err(e) => {
                let ghost failed = *self;
                self.release_inode_blocks(&inode);
                proof {
                    lemma_allocation_undone(&before, &allocated, &failed, self, fresh);
                }
                Err(e)
            },
        }
    }
}

/// What the exact description of a write says about the rest of the image.
pub proof fn lemma_rewritten(before: &FS, after: &FS, old_inode: InodeView, new_inode: InodeView)
    requires
        before.wf_core(),
        after.wf_core(),
        after.groups@.len() >= before.groups@.len(),
        new_inode.block_index == old_inode.block_index,
        is_block_of_image(before.groups@.len() as int, old_inode.block_index as int),
        forall|b: int|
            0 <= b && b * 4096 + 4096 <= before.image@.len() && !owns(new_inode, b)
                ==> #[trigger] spec_block(after.image@, b) == spec_block(before.image@, b),
        forall|b: int|
            is_block_of_image(after.groups@.len() as int, b) ==> #[trigger] is_allocated(
                after.spec_bits(),
                b,
            ) == (owns(new_inode, b) || (is_allocated(before.spec_bits(), b) && !data_blocks(
                old_inode.data,
            ).contains(b))),
        forall|b: int| #[trigger]
            data_blocks(new_inode.data).contains(b) ==> {
                &&& is_block_of_image(after.groups@.len() as int, b)
                &&& b != old_inode.block_index
                &&& !(is_allocated(before.spec_bits(), b) && !data_blocks(old_inode.data).contains(b))
            },
        data_blocks(new_inode.data).no_duplicates(),
    ensures
        rewritten(before, after, old_inode, new_inode),
        object_sound(after.spec_bits(), new_inode),
{
    reveal(rewritten);
    reveal(object_sound);
    assert forall|b: int| #[trigger]
        is_allocated(before.spec_bits(), b) && !owns(old_inode, b) implies is_allocated(
        after.spec_bits(),
        b,
    ) && spec_block(after.image@, b) == spec_block(before.image@, b) && !owns(new_inode, b) by {
        lemma_address_of_coordinates(b);
        assert(is_block_of_image(after.groups@.len() as int, b));
        assert(0 <= b && b * 4096 + 4096 <= before.image@.len());
        assert(owns(old_inode, old_inode.block_index as int));
        if data_blocks(new_inode.data).contains(b) {
            assert(!(is_allocated(before.spec_bits(), b) && !data_blocks(old_inode.data).contains(b)));
            assert(false);
        }
        assert(!owns(new_inode, b));
        assert(is_allocated(after.spec_bits(), b) == (owns(new_inode, b) || (is_allocated(
            before.spec_bits(),
            b,
        ) && !data_blocks(old_inode.data).contains(b))));
    }
    assert forall|b: int| #[trigger] owns(new_inode, b) implies is_allocated(after.spec_bits(), b) by {
        if b != new_inode.block_index {
            assert(data_blocks(new_inode.data).contains(b));
            assert(is_block_of_image(after.groups@.len() as int, b));
        }
        assert(is_block_of_image(after.groups@.len() as int, b));
        assert(is_allocated(after.spec_bits(), b) == (owns(new_inode, b) || (is_allocated(
            before.spec_bits(),
            b,
        ) && !data_blocks(old_inode.data).contains(b))));
    }
    assert forall|b: int| #[trigger] owns(new_inode, b) implies owns(old_inode, b) || !is_allocated(
        before.spec_bits(),
        b,
    ) by {
        if b != new_inode.block_index {
            assert(data_blocks(new_inode.data).contains(b));
            assert(!(is_allocated(before.spec_bits(), b) && !data_blocks(old_inode.data).contains(b)));
        }
    }
    assert forall|b: int| #[trigger] is_allocated(after.spec_bits(), b) implies owns(new_inode, b)
        || is_allocated(before.spec_bits(), b) by {
        assert(is_block_of_image(after.groups@.len() as int, b));
        assert(is_allocated(after.spec_bits(), b) == (owns(new_inode, b) || (is_allocated(
            before.spec_bits(),
            b,
        ) && !data_blocks(old_inode.data).contains(b))));
    }
}

/// A write that failed, and so left the bitmaps of the groups that were there and the
/// bytes of the image as they were, and added empty groups at most, left every
/// allocation and every allocated block as it was.
pub proof fn lemma_failed_write(before: &FS, after: &FS)
    requires
        before.wf_core(),
        after.wf_core(),
        after.groups@.len() >= before.groups@.len(),
        forall|p: int| 0 <= p < before.image@.len() ==> after.image@[p] == before.image@[p],
        forall|g: int|
            0 <= g < before.groups@.len() ==> #[trigger] after.spec_bits()[g] == before.spec_bits()[g],
        forall|g: int, k: int|
            before.groups@.len() <= g < after.groups@.len() && 0 <= k < 32768
                ==> !(#[trigger] after.spec_bits()[g][k]),
    ensures
        after.keeps_allocated(before),
        after.same_allocation(before),
{
    assert forall|b: int| #[trigger]
        is_allocated(after.spec_bits(), b) == is_allocated(before.spec_bits(), b) by {
        if is_block_of_image(after.groups@.len() as int, b) {
            lemma_address_of_coordinates(b);
            let g = spec_group_of(b);
            if g < before.groups@.len() {
                assert(after.spec_bits()[g] == before.spec_bits()[g]);
            } else {
                assert(!after.spec_bits()[g][spec_bit_of(b)]);
            }
        }
    }
    assert forall|b: int| #[trigger] is_allocated(before.spec_bits(), b) implies spec_block(
        after.image@,
        b,
    ) == spec_block(before.image@, b) by {
        lemma_address_of_coordinates(b);
        assert(spec_block(after.image@, b) =~= spec_block(before.image@, b));
    }
}

/// Valid regions stay valid when the image gains groups.
pub proof fn lemma_regions_valid_grows(data: DataView, fewer: int, more: int)
    requires
        data_valid(data, fewer),
        fewer <= more,
    ensures
        data_valid(data, more),
{
    match data {
        DataView::Raw(_) => {},
        DataView::DirectPointers(regions) => {
            assert forall|j: int| 0 <= j < regions.len() implies {
                &&& (#[trigger] regions[j]).1 >= 1
                &&& is_data_address(regions[j].0 as int)
                &&& spec_group_of(regions[j].0 as int) < more
                &&& spec_bit_of(regions[j].0 as int) + regions[j].1 <= 32768
            } by {
                assert(regions[j].1 >= 1);
            }
        },
    }
}

} // verus!
