//! The parts of the filesystem that are kept in step: the inodes in their blocks, the
//! groups and their number, the length of the image, and the superblock and bitmaps
//! that are written into it.

use vstd::prelude::*;
use vstd::slice::*;
use crate::bitmap::{count_zeros, lemma_count_zeros_bound, packed};
use crate::codec::{with_bytes_at, write_at};
use crate::error::FsError;
use crate::fs::FS;
use crate::group::{Group, lemma_address_round_trip};
use crate::laws::lemma_synced;
use crate::inode::{Data, Inode, InodeView, lemma_inode_round_trip};
use crate::laws::created;
use crate::layout::{BLOCKS_PER_GROUP, spec_group_seek_position};
use crate::model::{data_valid, is_allocated, is_block_of_image, spec_free_blocks, spec_inode_at};
use crate::store::{check_regions, spec_block, spec_image_len};
use crate::util::now;

verus! {

impl FS {
    /// Reads the inode at `block_index`.
    pub fn get_inode(&self, block_index: u32) -> (loaded: Result<Inode, FsError>)
        requires
            self.wf_core(),
        ensures
            match loaded {
                Ok(inode) => spec_inode_at(self.image@, self.groups@.len() as int, block_index as int)
                    == Ok::<InodeView, FsError>(inode@) && inode.wf(),
                Err(e) => spec_inode_at(self.image@, self.groups@.len() as int, block_index as int)
                    == Err::<InodeView, FsError>(e),
            },
    {
        let group_count = self.groups.len() as u32;
        if block_index < 2 || (block_index - 2) % 32769 >= 32768 || (block_index - 2) / 32769
            >= group_count {
            return Err(FsError::IoFailure);
        }
        let offset: usize = block_index as usize * 4096;
        let block = slice_subrange(self.image.as_slice(), offset, offset + 4096);
        let inode = match Inode::deserialize_from(block) {
            Ok(inode) => inode,
            Err(e) => {
                return Err(e);
            },
        };
        if inode.block_index != block_index {
            return Err(FsError::ChecksumMismatch);
        }
        let valid = match &inode.data {
            Data::Raw(_) => true,
            Data::DirectPointers(pointers) => check_regions(pointers, group_count),
        };
        if !valid {
            return Err(FsError::ChecksumMismatch);
        }
        Ok(inode)
    }

    /// Stamps the inode with the current time and writes it to its block.
    pub(crate) fn save_inode(&mut self, inode: &mut Inode)
        requires
            old(self).wf_core(),
            old(inode).wf(),
            is_block_of_image(old(self).groups@.len() as int, old(inode).block_index as int),
            data_valid(old(inode)@.data, old(self).groups@.len() as int),
        ensures
            final(inode)@ == (InodeView { last_modified: final(inode).last_modified, ..old(inode)@ }),
            final(self).superblock == old(self).superblock,
            final(self).groups == old(self).groups,
            final(self).lookup_table == old(self).lookup_table,
            final(self).image@.len() == old(self).image@.len(),
            spec_inode_at(
                final(self).image@,
                final(self).groups@.len() as int,
                old(inode).block_index as int,
            ) == Ok::<InodeView, FsError>(final(inode)@),
            final(self).image@ == with_bytes_at(
                old(self).image@,
                old(inode).block_index * 4096,
                final(inode)@.spec_serialize(),
            ),
            forall|p: int|
                0 <= p < old(self).image@.len() && !(old(inode).block_index * 4096 <= p < old(inode).block_index * 4096 + 4096)
                    ==> final(self).image@[p] == old(self).image@[p],
    {
        inode.set_last_modified();
        let mut bytes: Vec<u8> = Vec::new();
        inode.serialize_into(&mut bytes);
        let offset: usize = inode.block_index as usize * 4096;
        let ghost before = self.image@;
        write_at(&mut self.image, offset, bytes.as_slice());
        proof {
            let block = spec_block(self.image@, inode.block_index as int);
            let rest = block.subrange(bytes@.len() as int, 4096);
            assert(bytes@ =~= inode@.spec_serialize());
            assert(block =~= inode@.spec_serialize() + rest);
            lemma_inode_round_trip(inode@, rest);
        }
    }

    /// Counts the free blocks of all groups.
    pub(crate) fn count_free_blocks(&self) -> (free: u32)
        requires
            self.wf_core(),
        ensures
            free == spec_free_blocks(self.spec_bits()),
            free <= 32768 * self.groups@.len(),
    {
        let ghost bits = self.spec_bits();
        let mut free: u32 = 0;
        let mut g: usize = 0;
        assert(bits.subrange(0, 0) =~= Seq::<Seq<bool>>::empty());
        while g < self.groups.len()
            invariant
                g <= self.groups@.len(),
                self.wf_core(),
                bits == self.spec_bits(),
                free == spec_free_blocks(bits.subrange(0, g as int)),
                free <= 32768 * g,
            decreases self.groups@.len() - g,
        {
            proof {
                assert(self.groups@[g as int].wf());
                lemma_count_zeros_bound(self.groups@[g as int]@);
                assert(bits.subrange(0, g + 1).drop_last() =~= bits.subrange(0, g as int));
                assert(bits.subrange(0, g + 1).last() == self.groups@[g as int]@);
            }
            free = free + self.groups[g].free_data_blocks() as u32;
            g += 1;
        }
        assert(bits.subrange(0, g as int) =~= bits);
        free
    }

    /// Brings the counters of the superblock up to date, stamps it with the current
    /// time and sets its checksum.
    pub(crate) fn superblock_check(&mut self)
        requires
            old(self).wf_core(),
        ensures
            final(self).image == old(self).image,
            final(self).groups == old(self).groups,
            final(self).lookup_table == old(self).lookup_table,
            final(self).counters_agree(),
            final(self).superblock.checksum == final(self).superblock.spec_checksum(),
            final(self).superblock.fs_version == old(self).superblock.fs_version,
            final(self).superblock.block_size == old(self).superblock.block_size,
            final(self).superblock.file_count == old(self).superblock.file_count,
            final(self).superblock.created == old(self).superblock.created,
    {
        self.superblock.group_count = self.groups.len() as u32;
        self.superblock.free_blocks = self.count_free_blocks();
        self.superblock.block_count = self.groups.len() as u32 * BLOCKS_PER_GROUP;
        self.superblock.modified = now();
        self.superblock.checksum();
    }

    /// Gives the image the length of its groups; the bytes that it gains are zero.
    pub(crate) fn truncate(&mut self)
        requires
            1 <= old(self).groups@.len() <= 31,
            old(self).image@.len() <= spec_image_len(old(self).groups@.len() as int),
        ensures
            final(self).superblock == old(self).superblock,
            final(self).groups == old(self).groups,
            final(self).lookup_table == old(self).lookup_table,
            final(self).image@.len() == spec_image_len(final(self).groups@.len() as int),
            forall|p: int| 0 <= p < old(self).image@.len()
                ==> final(self).image@[p] == old(self).image@[p],
            forall|p: int|
                old(self).image@.len() <= p < final(self).image@.len() ==> final(self).image@[p] == 0,
    {
        let size: u32 = 4096 + self.groups.len() as u32 * 134_221_824;
        let ghost before = self.image@;
        self.image.resize(size as usize, 0u8);
        assert forall|p: int| 0 <= p < before.len() implies self.image@[p] == before[p] by {
            assert(self.image@.subrange(0, before.len() as int)[p] == before[p]);
        }
    }

    /// Appends a group to the groups and its bytes to the image. Fails with
    /// `CapacityExhausted`, leaving everything as it was, exactly when the image has 31
    /// groups already.
    pub(crate) fn push_group(&mut self, group: Group) -> (done: Result<(), FsError>)
        requires
            old(self).wf_core(),
            group.wf(),
        ensures
            final(self).wf_core(),
            final(self).superblock.file_count == old(self).superblock.file_count,
            final(self).superblock.fs_version == old(self).superblock.fs_version,
            final(self).superblock.block_size == old(self).superblock.block_size,
            final(self).superblock.created == old(self).superblock.created,
            final(self).lookup_table == old(self).lookup_table,
            match done {
                Ok(_) => {
                    &&& old(self).groups@.len() < 31
                    &&& final(self).groups@.len() == old(self).groups@.len() + 1
                    &&& final(self).spec_bits() == old(self).spec_bits().push(group@)
                    &&& final(self).superblock.group_count == final(self).groups@.len()
                    &&& forall|p: int|
                        0 <= p < old(self).image@.len() ==> final(self).image@[p] == old(self).image@[p]
                    &&& forall|p: int|
                        old(self).image@.len() <= p < final(self).image@.len()
                            ==> final(self).image@[p] == 0
                },
                Err(e) => {
                    &&& e == FsError::CapacityExhausted
                    &&& old(self).groups@.len() == 31
                    &&& final(self).groups == old(self).groups
                    &&& final(self).image == old(self).image
                    &&& final(self).superblock == old(self).superblock
                },
            },
    {
        if self.groups.len() >= 31 {
            return Err(FsError::CapacityExhausted);
        }
        let ghost before = self.spec_bits();
        self.groups.push(group);
        self.superblock.group_count = self.groups.len() as u32;
        self.truncate();
        assert(self.spec_bits() =~= before.push(group@));
        Ok(())
    }

    /// Writes the superblock and the bitmaps of all groups into the image, after
    /// marking the block of the directory index as allocated and bringing the counters
    /// up to date. No data block changes.
    pub fn sync(&mut self)
        requires
            old(self).wf_core(),
            old(self).superblock.fs_version == 1,
            old(self).superblock.block_size == 4096,
        ensures
            final(self).wf(),
            final(self).lookup_table == old(self).lookup_table,
            final(self).image@.len() == old(self).image@.len(),
            final(self).groups@.len() == old(self).groups@.len(),
            final(self).spec_bits() == old(self).spec_bits().update(
                0,
                old(self).spec_bits()[0].update(0, true),
            ),
            final(self).holds_what(old(self)),
            final(self).superblock.file_count == old(self).superblock.file_count,
            final(self).superblock.created == old(self).superblock.created,
            forall|b: int|
                is_block_of_image(old(self).groups@.len() as int, b) ==> spec_block(
                    final(self).image@,
                    b,
                ) == spec_block(old(self).image@, b),
    {
        let ghost bits_before = self.spec_bits();
        assert(self.groups@[0].wf());
        self.groups[0].force_allocate_at(0);
        assert(self.spec_bits() =~= bits_before.update(0, bits_before[0].update(0, true)));
        self.superblock_check();
        let bytes = self.superblock.serialize();
        let ghost before = self.image@;
        write_at(&mut self.image, 0, bytes.as_slice());
        assert(self.image@.subrange(0, 51) =~= self.superblock.spec_serialize());
        let mut g: usize = 0;
        while g < self.groups.len()
            invariant
                g <= self.groups@.len(),
                self.wf_core(),
                self.groups@[0]@[0],
                self.counters_agree(),
                self.superblock.wf(),
                self.superblock.file_count == old(self).superblock.file_count,
                self.superblock.created == old(self).superblock.created,
                self.lookup_table == old(self).lookup_table,
                self.image@.len() == old(self).image@.len(),
                self.groups@.len() == old(self).groups@.len(),
                self.spec_bits() == bits_before.update(0, bits_before[0].update(0, true)),
                self.image@.subrange(0, 51) == self.superblock.spec_serialize(),
                forall|i: int|
                    0 <= i < g ==> self.image@.subrange(
                        spec_group_seek_position(i),
                        spec_group_seek_position(i) + 4096,
                    ) == packed(#[trigger] self.groups@[i]@),
                forall|b: int|
                    is_block_of_image(old(self).groups@.len() as int, b) ==> spec_block(self.image@, b)
                        == spec_block(old(self).image@, b),
            decreases self.groups@.len() - g,
        {
            let mut raw: Vec<u8> = Vec::new();
            assert(self.groups@[g as int].wf());
            self.groups[g].serialize_into(&mut raw);
            assert(raw@ =~= packed(self.groups@[g as int]@));
            let offset = Group::seek_position(g as u32);
            let ghost inner = self.image@;
            write_at(&mut self.image, offset as usize, raw.as_slice());
            proof {
                assert(self.image@.subrange(0, 51) =~= inner.subrange(0, 51));
                assert(self.image@.subrange(offset as int, offset + 4096) =~= raw@);
                assert forall|i: int| 0 <= i < g implies self.image@.subrange(
                    spec_group_seek_position(i),
                    spec_group_seek_position(i) + 4096,
                ) == packed(#[trigger] self.groups@[i]@) by {
                    assert(self.image@.subrange(
                        spec_group_seek_position(i),
                        spec_group_seek_position(i) + 4096,
                    ) =~= inner.subrange(
                        spec_group_seek_position(i),
                        spec_group_seek_position(i) + 4096,
                    ));
                }
                assert forall|b: int|
                    is_block_of_image(old(self).groups@.len() as int, b) implies spec_block(
                    self.image@,
                    b,
                ) == spec_block(old(self).image@, b) by {
                    assert(spec_block(self.image@, b) =~= spec_block(inner, b));
                }
            }
            g += 1;
        }
        proof {
            if old(self).consistent() {
                lemma_synced(old(self), self);
            }
        }
    }

    /// Copies the groups.
    pub(crate) fn clone_groups(&self) -> (copy: Vec<Group>)
        ensures
            copy@.len() == self.groups@.len(),
            forall|g: int| 0 <= g < copy@.len() ==> (#[trigger] copy@[g])@ == self.groups@[g]@,
    {
        let mut copy: Vec<Group> = Vec::new();
        let mut g: usize = 0;
        while g < self.groups.len()
            invariant
                g <= self.groups@.len(),
                copy@.len() == g,
                forall|i: int| 0 <= i < g ==> (#[trigger] copy@[i])@ == self.groups@[i]@,
            decreases self.groups@.len() - g,
        {
            copy.push(self.groups[g].clone());
            g += 1;
        }
        copy
    }

    /// Puts back the bitmaps of `snapshot` for the groups that it holds, and empties
    /// the groups that were added since it was taken.
    pub(crate) fn restore_groups(&mut self, snapshot: Vec<Group>)
        requires
            1 <= snapshot@.len() <= old(self).groups@.len() <= 31,
            forall|g: int| 0 <= g < snapshot@.len() ==> (#[trigger] snapshot@[g]).wf(),
            old(self).lookup_table@.len() == 4096,
            old(self).image@.len() == spec_image_len(old(self).groups@.len() as int),
        ensures
            final(self).wf_core(),
            final(self).superblock == old(self).superblock,
            final(self).image == old(self).image,
            final(self).lookup_table == old(self).lookup_table,
            final(self).groups@.len() == old(self).groups@.len(),
            forall|g: int|
                0 <= g < snapshot@.len() ==> (#[trigger] final(self).spec_bits()[g]) == snapshot@[g]@,
            forall|g: int, k: int|
                snapshot@.len() <= g < final(self).groups@.len() && 0 <= k < 32768
                    ==> !(#[trigger] final(self).spec_bits()[g][k]),
    {
        let count = self.groups.len();
        let mut restored = snapshot;
        while restored.len() < count
            invariant
                snapshot@.len() <= restored@.len() <= count,
                forall|g: int| 0 <= g < restored@.len() ==> (#[trigger] restored@[g]).wf(),
                forall|g: int| 0 <= g < snapshot@.len() ==> (#[trigger] restored@[g])@ == snapshot@[g]@,
                forall|g: int, k: int|
                    snapshot@.len() <= g < restored@.len() && 0 <= k < 32768
                        ==> !(#[trigger] restored@[g]@[k]),
            decreases count - restored@.len(),
        {
            restored.push(Group::init());
        }
        self.groups = restored;
    }
}

/// The block of the directory index is bit 0 of group 0.
pub proof fn lemma_root_bit(bits: Seq<Seq<bool>>)
    requires
        bits.len() >= 1,
    ensures
        is_allocated(bits, 2) == bits[0][0],
{
    lemma_address_round_trip(0, 0);
}

/// Writing the superblock and the bitmaps of a filesystem whose directory index has an
/// allocated block changes no allocation and no data block.
pub proof fn lemma_sync_keeps(before: &FS, after: &FS)
    requires
        before.wf_core(),
        is_allocated(before.spec_bits(), 2),
        after.groups@.len() == before.groups@.len(),
        after.image@.len() == before.image@.len(),
        after.spec_bits() == before.spec_bits().update(0, before.spec_bits()[0].update(0, true)),
        forall|b: int|
            is_block_of_image(before.groups@.len() as int, b) ==> spec_block(after.image@, b)
                == spec_block(before.image@, b),
    ensures
        after.spec_bits() == before.spec_bits(),
        after.keeps_allocated(before),
        after.same_allocation(before),
{
    lemma_address_round_trip(0, 0);
    assert(before.spec_bits()[0].update(0, true) =~= before.spec_bits()[0]);
    assert(after.spec_bits() =~= before.spec_bits());
}

/// Replacing one bitmap changes the number of free blocks by the difference between
/// the free blocks of the two.
pub proof fn lemma_free_blocks_update(bits: Seq<Seq<bool>>, g: int, bitmap: Seq<bool>)
    requires
        0 <= g < bits.len(),
    ensures
        spec_free_blocks(bits.update(g, bitmap)) + count_zeros(bits[g]) == spec_free_blocks(bits)
            + count_zeros(bitmap),
    decreases bits.len(),
{
    let updated = bits.update(g, bitmap);
    if g == bits.len() - 1 {
        assert(updated.drop_last() =~= bits.drop_last());
    } else {
        assert(updated.drop_last() =~= bits.drop_last().update(g, bitmap));
        lemma_free_blocks_update(bits.drop_last(), g, bitmap);
    }
}

} // verus!
