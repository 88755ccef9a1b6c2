//! The filesystem facade: an image in memory with its superblock, its groups and the
//! keystream table, and the operations on directories and files.

use vstd::prelude::*;
use vstd::bytes::*;
use vstd::string::*;
use crate::bitmap::{count_zeros, lemma_count_zeros_all_clear, lemma_count_zeros_update, lemma_pack_unpacked, packed, unpacked};
use crate::directory::{Directory, DirectoryIndex, lemma_read_serialized_record};
use crate::error::FsError;
use crate::group::{Group, lemma_address_of_coordinates, lemma_address_round_trip};
use crate::inode::{Inode, InodeView};
use crate::laws::{lemma_created_bits, lemma_group_added, created, lemma_directory_created, lemma_failure_kept, lemma_file_created, lemma_file_not_index, lemma_file_overwritten, lemma_file_reads, lemma_file_removed, lemma_initial, lemma_rolled_back};
use crate::layout::{BLOCK_SIZE, BLOCKS_PER_GROUP, MAX_GROUPS, ROOT_INODE_INDEX, spec_group_seek_position, spec_public_address};
use crate::model::{data_blocks, is_allocated, is_block_of_image, ObjectRef, owns, spec_directories, spec_directory, spec_file_data, spec_file_inode, spec_files, spec_free_blocks, spec_index, spec_inode_at, spec_payload, spec_payload_at};
use crate::directory::{lemma_record_len, spec_record_len};
use crate::names::{as_map, spec_entries_bytes, spec_entry_len};
use crate::accounting::{lemma_removal_count, rows_full, spec_held, spec_payload_blocks};
use crate::plan::{spec_clear_bitmap, spec_groups_after_creation, spec_groups_after_write, allocated_as, allocated_without, is_stored_as, lemma_bits_without, lemma_creation_allocates, lemma_removal_allocates, lemma_rewrite_allocates, spec_allocated_block, spec_bits_after_allocation, spec_bits_without, spec_creation, spec_fresh_inode, spec_rewrite, spec_with_root};
use crate::payload::lemma_regions_valid_grows;
use crate::store::{spec_block, spec_image_len};
use crate::superblock::{lemma_superblock_parse_serialized, Superblock};
use crate::util::{crc32, create_lookup_table, keystream};
use crate::volume::{lemma_root_bit, lemma_sync_keeps};

verus! {

/// An image with the state that is kept in memory beside it.
#[derive(Debug)]
pub struct FS {
    /// The global header.
    pub superblock: Superblock,
    /// The bytes of the image.
    pub image: Vec<u8>,
    /// The groups, in image order.
    pub groups: Vec<Group>,
    /// The keystream table of the secret, one block long.
    pub lookup_table: Vec<u8>,
}

impl FS {
    /// The bitmaps of the groups, in image order.
    pub open spec fn spec_bits(&self) -> Seq<Seq<bool>> {
        Seq::new(self.groups@.len(), |g: int| self.groups@[g]@)
    }

    /// Whether the parts fit together: the table is one block long, there are between
    /// 1 and 31 groups with a full bitmap each, and the image has the length of that
    /// many groups.
    pub open spec fn wf_core(&self) -> bool {
        &&& self.lookup_table@.len() == 4096
        &&& 1 <= self.groups@.len() <= 31
        &&& forall|g: int| 0 <= g < self.groups@.len() ==> (#[trigger] self.groups@[g]).wf()
        &&& self.image@.len() == spec_image_len(self.groups@.len() as int)
    }

    /// Whether the counters of the superblock are those of the groups.
    pub open spec fn counters_agree(&self) -> bool {
        &&& self.superblock.group_count == self.groups@.len()
        &&& self.superblock.block_count == 32768 * self.groups@.len()
        &&& self.superblock.free_blocks == spec_free_blocks(self.spec_bits())
    }

    /// Whether the image starts with the serialised superblock and holds, for each
    /// group, the bitmap that is kept in memory.
    pub open spec fn image_in_sync(&self) -> bool {
        &&& self.superblock.wf()
        &&& self.image@.subrange(0, 51) == self.superblock.spec_serialize()
        &&& forall|g: int|
            0 <= g < self.groups@.len() ==> self.image@.subrange(
                spec_group_seek_position(g),
                spec_group_seek_position(g) + 4096,
            ) == packed(#[trigger] self.groups@[g]@)
    }

    /// Whether the filesystem is in the state that every operation starts from and
    /// ends in: the parts fit together, the block of the directory index is allocated,
    /// the counters agree with the bitmaps, and the image holds the superblock and the
    /// bitmaps.
    pub open spec fn wf(&self) -> bool {
        &&& self.wf_core()
        &&& self.groups@[0]@[0]
        &&& self.counters_agree()
        &&& self.image_in_sync()
    }

    /// The paths of the directories of this image.
    pub open spec fn spec_directories(&self) -> Set<Seq<u8>> {
        spec_directories(self.image@, self.lookup_table@, self.groups@.len() as int)
    }

    /// The payloads of the files of this image, by path of the directory and name of
    /// the file.
    pub open spec fn spec_files(&self) -> Map<(Seq<u8>, Seq<u8>), Seq<u8>> {
        spec_files(self.image@, self.lookup_table@, self.groups@.len() as int)
    }

    /// The entries of the directory index of this image.
    pub open spec fn spec_index(&self) -> Result<Seq<(Seq<u8>, u32)>, FsError> {
        spec_index(self.image@, self.lookup_table@, self.groups@.len() as int)
    }

    /// The entries of the directory `path` of this image and the address of its inode.
    pub open spec fn spec_directory(&self, path: Seq<u8>) -> Result<(Seq<(Seq<u8>, u32)>, u32), FsError> {
        spec_directory(self.image@, self.lookup_table@, self.groups@.len() as int, path)
    }

    /// The inode of the file `name` of the directory `path` of this image.
    pub open spec fn spec_file_inode(&self, path: Seq<u8>, name: Seq<u8>) -> Result<InodeView, FsError> {
        spec_file_inode(self.image@, self.lookup_table@, self.groups@.len() as int, path, name)
    }

    /// The payload of the file `name` of the directory `path` of this image.
    pub open spec fn spec_file_data(&self, path: Seq<u8>, name: Seq<u8>) -> Result<Seq<u8>, FsError> {
        spec_file_data(self.image@, self.lookup_table@, self.groups@.len() as int, path, name)
    }

    /// Reads the payload of the object whose inode is at `block_index`.
    pub(crate) fn read_object(&self, block_index: u32) -> (read: Result<Vec<u8>, FsError>)
        requires
            self.wf_core(),
        ensures
            match read {
                Ok(payload) => spec_payload_at(
                    self.image@,
                    self.lookup_table@,
                    self.groups@.len() as int,
                    block_index as int,
                ) == Ok::<Seq<u8>, FsError>(payload@),
                Err(e) => spec_payload_at(
                    self.image@,
                    self.lookup_table@,
                    self.groups@.len() as int,
                    block_index as int,
                ) == Err::<Seq<u8>, FsError>(e),
            },
    {
        let inode = match self.get_inode(block_index) {
            Ok(inode) => inode,
            Err(e) => {
                return Err(e);
            },
        };
        let mut payload: Vec<u8> = Vec::new();
        match self.read_inode_data(&inode, &mut payload) {
            Ok(_) => {
                assert(Seq::<u8>::empty() + spec_payload(self.image@, self.lookup_table@, inode@)
                    =~= spec_payload(self.image@, self.lookup_table@, inode@));
                Ok(payload)
            },
            Err(e) => Err(e),
        }
    }

    /// Reads the directory index and verifies its checksum.
    pub fn get_directory_index(&self) -> (loaded: Result<DirectoryIndex, FsError>)
        requires
            self.wf_core(),
        ensures
            match loaded {
                Ok(index) => {
                    &&& self.spec_index() == Ok::<Seq<(Seq<u8>, u32)>, FsError>(
                        index.directories.spec_entries(),
                    )
                    &&& index.wf()
                    &&& index.checksum == index.spec_checksum()
                },
                Err(e) => self.spec_index() == Err::<Seq<(Seq<u8>, u32)>, FsError>(e),
            },
    {
        let payload = match self.read_object(ROOT_INODE_INDEX) {
            Ok(payload) => payload,
            Err(e) => {
                return Err(e);
            },
        };
        DirectoryIndex::deserialize(payload.as_slice())
    }

    /// Reads the directory `dir` and verifies its checksum; returns it with the
    /// address of its inode.
    pub fn find_directory(&self, dir: &str) -> (found: Result<(Directory, u32), FsError>)
        requires
            self.wf_core(),
        ensures
            match found {
                Ok((directory, address)) => {
                    &&& self.spec_directory(dir.spec_bytes()) == Ok::<
                        (Seq<(Seq<u8>, u32)>, u32),
                        FsError,
                    >((directory.files.spec_entries(), address))
                    &&& directory.wf()
                    &&& directory.checksum == directory.spec_checksum()
                },
                Err(e) => self.spec_directory(dir.spec_bytes()) == Err::<
                    (Seq<(Seq<u8>, u32)>, u32),
                    FsError,
                >(e),
            },
    {
        let index = match self.get_directory_index() {
            Ok(index) => index,
            Err(e) => {
                return Err(e);
            },
        };
        let address = match index.find_dir(dir) {
            Some(address) => address,
            None => {
                return Err(FsError::NotFound);
            },
        };
        let payload = match self.read_object(address) {
            Ok(payload) => payload,
            Err(e) => {
                return Err(e);
            },
        };
        match Directory::deserialize(payload.as_slice()) {
            Ok(directory) => Ok((directory, address)),
            Err(e) => Err(e),
        }
    }

    /// Reads the inode of the file `file_name` of the directory `dir`.
    pub fn get_file_info(&mut self, dir: &str, file_name: &str) -> (found: Result<Inode, FsError>)
        requires
            old(self).wf_core(),
        ensures
            *final(self) == *old(self),
            match found {
                Ok(inode) => old(self).spec_file_inode(dir.spec_bytes(), file_name.spec_bytes())
                    == Ok::<InodeView, FsError>(inode@) && inode.wf(),
                Err(e) => old(self).spec_file_inode(dir.spec_bytes(), file_name.spec_bytes())
                    == Err::<InodeView, FsError>(e),
            },
    {
        let (directory, _) = match self.find_directory(dir) {
            Ok(found) => found,
            Err(e) => {
                return Err(e);
            },
        };
        match directory.get_file(file_name) {
            Some(address) => self.get_inode(address),
            None => Err(FsError::NotFound),
        }
    }

    /// Appends the payload of the file `file_name` of the directory `dir` to `w` and
    /// returns its CRC-32. A failure leaves `w` as it was.
    pub fn get_file_data(&mut self, dir: &str, file_name: &str, w: &mut Vec<u8>) -> (read: Result<
        u32,
        FsError,
    >)
        requires
            old(self).wf_core(),
        ensures
            *final(self) == *old(self),
            match read {
                Ok(sum) => {
                    &&& old(self).spec_file_data(dir.spec_bytes(), file_name.spec_bytes()) is Ok
                    &&& final(w)@ == old(w)@ + old(self).spec_file_data(
                        dir.spec_bytes(),
                        file_name.spec_bytes(),
                    )->Ok_0
                    &&& sum == crc32(
                        old(self).spec_file_data(dir.spec_bytes(), file_name.spec_bytes())->Ok_0,
                    )
                },
                Err(e) => {
                    &&& old(self).spec_file_data(dir.spec_bytes(), file_name.spec_bytes()) == Err::<
                        Seq<u8>,
                        FsError,
                    >(e)
                    &&& final(w)@ == old(w)@
                },
            },
    {
        let inode = match self.get_file_info(dir, file_name) {
            Ok(inode) => inode,
            Err(e) => {
                return Err(e);
            },
        };
        self.read_inode_data(&inode, w)
    }

    /// The superblock.
    pub fn superblock(&self) -> (superblock: &Superblock)
        ensures
            *superblock == self.superblock,
    {
        &self.superblock
    }

    /// Makes an image with one group and an empty directory index, obfuscated with
    /// `secret`. Fails with `InvalidArgument` exactly when `secret` is empty.
    pub fn init(secret: &str) -> (made: Result<FS, FsError>)
        ensures
            match made {
                Ok(fs) => {
                    &&& secret.spec_bytes().len() > 0
                    &&& fs.wf()
                    &&& fs.counters_agree()
                    &&& fs.lookup_table@ == keystream(secret.spec_bytes(), 4096)
                    &&& fs.groups@.len() == 1
                    &&& fs.superblock.group_count == 1
                    &&& fs.superblock.file_count == 0
                    &&& fs.superblock.free_blocks == 32767
                    &&& fs.spec_bits() == seq![spec_clear_bitmap().update(0, true)]
                    &&& fs.spec_stored_inode(2).data is Raw
                    &&& fs.spec_index() == Ok::<Seq<(Seq<u8>, u32)>, FsError>(Seq::empty())
                    &&& fs.consistent()
                    &&& fs.spec_directories() == Set::<Seq<u8>>::empty()
                    &&& fs.spec_files() == Map::<(Seq<u8>, Seq<u8>), Seq<u8>>::empty()
                },
                Err(e) => e == FsError::InvalidArgument && secret.spec_bytes().len() == 0,
            },
    {
        let secret_bytes = secret.as_bytes();
        if secret_bytes.len() == 0 {
            return Err(FsError::InvalidArgument);
        }
        let lookup_table = create_lookup_table(secret_bytes, BLOCK_SIZE);
        let mut group = Group::init();
        let ghost empty = group@;
        group.force_allocate_at(0);
        let mut groups: Vec<Group> = Vec::new();
        groups.push(group);
        let mut fs = FS { superblock: Superblock::new(), image: Vec::new(), groups, lookup_table };
        fs.truncate();
        let mut index = DirectoryIndex::init();
        let bytes = index.serialize();
        let mut inode = Inode::new(ROOT_INODE_INDEX);
        proof {
            lemma_address_round_trip(0, 0);
        }
        fs.save_inode(&mut inode);
        proof {
            lemma_auto_spec_u32_to_from_le_bytes();
            lemma_auto_spec_u64_to_from_le_bytes();
            assert(spec_entries_bytes(Seq::<(Seq<u8>, u32)>::empty(), true).len() == 0);
            assert(bytes@.len() == 12);
        }
        let written = fs.write_inode_data(&mut inode, bytes.as_slice(), bytes.len() as u64);
        assert(written.is_ok());
        let ghost written_image = fs.image@;
        let ghost written_bits = fs.spec_bits();
        fs.sync();
        proof {
            let table = fs.lookup_table@;
            assert(spec_block(fs.image@, 2) == spec_block(written_image, 2));
            assert(spec_inode_at(fs.image@, 1, 2) == Ok::<InodeView, FsError>(inode@));
            assert(spec_payload(fs.image@, table, inode@) =~= spec_payload(
                written_image,
                table,
                inode@,
            ));
            let entries = Seq::<(Seq<u8>, u32)>::empty();
            lemma_read_serialized_record(entries, true);
            assert(fs.spec_index() == Ok::<Seq<(Seq<u8>, u32)>, FsError>(entries));
            // one group with the block of the index taken and every other block free
            let bitmap = fs.spec_bits()[0];
            assert(fs.spec_bits() =~= seq![bitmap]);
            assert(empty =~= spec_clear_bitmap());
            assert(bitmap =~= empty.update(0, true)) by {
                assert forall|k: int| 0 <= k < 32768 implies bitmap[k] == empty.update(0, true)[k] by {
                    lemma_address_round_trip(0, k);
                    let b = spec_public_address(0, k);
                    assert(is_block_of_image(1, b));
                    assert(is_allocated(written_bits, b) == written_bits[0][k]);
                    assert(data_blocks(inode@.data) =~= Seq::<int>::empty());
                }
            }
            lemma_count_zeros_all_clear(empty);
            lemma_count_zeros_update(empty, 0, true);
            assert(seq![bitmap].drop_last() =~= Seq::<Seq<bool>>::empty());
            assert(spec_free_blocks(seq![bitmap]) == count_zeros(bitmap)) by {
                reveal_with_fuel(spec_free_blocks, 2);
            }
            lemma_root_bit(fs.spec_bits());
            lemma_initial(&fs);
        }
        Ok(fs)
    }

    /// Opens an image, obfuscated with `secret`: reads the superblock and the bitmaps
    /// and checks them against each other.
    ///
    /// Fails with `InvalidArgument` when `secret` is empty; otherwise with
    /// `CorruptSuperblock` when the superblock does not verify or names no group or
    /// more than 31, with `IoFailure` when the image is shorter than its groups, and
    /// with `CorruptSuperblock` when the image is longer than its groups, when the
    /// counters of the superblock are not those of the bitmaps, or when the block of
    /// the directory index is not allocated.
    pub fn new(image: Vec<u8>, secret: &str) -> (opened: Result<FS, FsError>)
        ensures
            match opened {
                Ok(fs) => {
                    &&& secret.spec_bytes().len() > 0
                    &&& spec_open(image@) == Ok::<Superblock, FsError>(fs.superblock)
                    &&& fs.wf()
                    &&& fs.image@ == image@
                    &&& fs.lookup_table@ == keystream(secret.spec_bytes(), 4096)
                },
                Err(e) => if secret.spec_bytes().len() == 0 {
                    e == FsError::InvalidArgument
                } else {
                    spec_open(image@) == Err::<Superblock, FsError>(e)
                },
            },
    {
        let secret_bytes = secret.as_bytes();
        if secret_bytes.len() == 0 {
            return Err(FsError::InvalidArgument);
        }
        let superblock = match Superblock::deserialize_from(image.as_slice()) {
            Ok(superblock) => superblock,
            Err(e) => {
                return Err(e);
            },
        };
        if superblock.group_count < 1 || superblock.group_count > MAX_GROUPS {
            return Err(FsError::CorruptSuperblock);
        }
        let expected: u32 = 4096 + superblock.group_count * 134_221_824;
        if image.len() < expected as usize {
            return Err(FsError::IoFailure);
        }
        if image.len() > expected as usize {
            return Err(FsError::CorruptSuperblock);
        }
        let mut groups: Vec<Group> = Vec::new();
        let mut g: u32 = 0;
        while g < superblock.group_count
            invariant
                g <= superblock.group_count <= 31,
                image@.len() == spec_image_len(superblock.group_count as int),
                groups@.len() == g,
                forall|i: int| 0 <= i < g ==> (#[trigger] groups@[i]).wf(),
                forall|i: int|
                    0 <= i < g ==> (#[trigger] groups@[i])@ == unpacked(
                        image@.subrange(
                            spec_group_seek_position(i),
                            spec_group_seek_position(i) + 4096,
                        ),
                    ),
            decreases superblock.group_count - g,
        {
            match Group::deserialize_from(image.as_slice(), g) {
                Ok(group) => {
                    groups.push(group);
                },
                Err(e) => {
                    assert(false);
                    return Err(e);
                },
            }
            g += 1;
        }
        let lookup_table = create_lookup_table(secret_bytes, BLOCK_SIZE);
        let fs = FS { superblock, image, groups, lookup_table };
        proof {
            assert(fs.spec_bits() =~= spec_image_bits(image@, superblock.group_count as int));
        }
        let free = fs.count_free_blocks();
        if superblock.block_count != superblock.group_count * BLOCKS_PER_GROUP
            || superblock.free_blocks != free || !fs.groups[0].is_allocated(0) {
            return Err(FsError::CorruptSuperblock);
        }
        proof {
            lemma_superblock_parse_serialized(superblock, image@.subrange(51, image@.len() as int));
            assert(image@.subrange(0, 51) =~= superblock.spec_serialize()) by {
                lemma_parsed_superblock_bytes(image@);
            }
            assert forall|i: int| 0 <= i < fs.groups@.len() implies fs.image@.subrange(
                spec_group_seek_position(i),
                spec_group_seek_position(i) + 4096,
            ) == packed(#[trigger] fs.groups@[i]@) by {
                lemma_pack_unpacked(
                    image@.subrange(spec_group_seek_position(i), spec_group_seek_position(i) + 4096),
                );
            }
        }
        Ok(fs)
    }

    /// Whether every block that is allocated in `before` is allocated here too and has
    /// the same bytes, in an image that is not shorter.
    pub open spec fn keeps_allocated(&self, before: &FS) -> bool {
        &&& self.groups@.len() >= before.groups@.len()
        &&& self.image@.len() >= before.image@.len()
        &&& forall|b: int| #[trigger]
            is_allocated(before.spec_bits(), b) ==> is_allocated(self.spec_bits(), b)
                && spec_block(self.image@, b) == spec_block(before.image@, b)
    }

    /// Whether the same blocks are allocated here as in `before`.
    pub open spec fn same_allocation(&self, before: &FS) -> bool {
        forall|b: int| #[trigger]
            is_allocated(self.spec_bits(), b) == is_allocated(before.spec_bits(), b)
    }

    /// Whether this state, if `before` was consistent, is consistent too and has the
    /// directories and the files of `before`.
    pub open spec fn holds_what(&self, before: &FS) -> bool {
        before.consistent() ==> self.consistent() && self.spec_directories()
            == before.spec_directories() && self.spec_files() == before.spec_files()
    }

    /// Whether this state is `before`: the same bitmaps, image and superblock.
    pub open spec fn same_state(&self, before: &FS) -> bool {
        &&& self.spec_bits() == before.spec_bits()
        &&& self.image@ == before.image@
        &&& self.superblock == before.superblock
        &&& self.lookup_table == before.lookup_table
    }

    /// The inode stored at `block_index`, where one is stored there.
    pub open spec fn spec_stored_inode(&self, block_index: int) -> InodeView {
        spec_inode_at(self.image@, self.groups@.len() as int, block_index)->Ok_0
    }

    /// Whether the directory `path` can be read here, at the address that it had in
    /// `before`.
    pub open spec fn listed_after(&self, before: &FS, path: Seq<u8>) -> bool {
        &&& self.spec_directory(path) is Ok
        &&& self.spec_directory(path)->Ok_0.1 == before.spec_directory(path)->Ok_0.1
    }

    /// Whether this is how the directory `path` was made in the consistent image
    /// `before`: its inode stands in the free block with the lowest address and holds
    /// the empty directory itself, and the blocks allocated now are that block, those
    /// of the index as it is stored now, and those that were allocated and held no
    /// payload of the index; so many blocks are free.
    pub open spec fn made_directory(&self, before: &FS, path: Seq<u8>) -> bool {
        let made = self.spec_inode(ObjectRef::Directory(path));
        &&& made is Ok
        &&& self.spec_directory(path) is Ok
        &&& self.spec_directory(path)->Ok_0.1 == spec_allocated_block(before.spec_bits())
        &&& made->Ok_0.block_index == spec_allocated_block(before.spec_bits())
        &&& made->Ok_0.size == 12
        &&& made->Ok_0.data is Raw
        &&& allocated_as(
            before.spec_bits(),
            self.spec_bits(),
            before.spec_stored_inode(2),
            made->Ok_0,
            self.spec_stored_inode(2),
        )
        &&& self.spec_index() is Ok
        &&& as_map(self.spec_index()->Ok_0) == as_map(before.spec_index()->Ok_0).insert(
            path,
            made->Ok_0.block_index,
        )
        &&& spec_record_len(self.spec_index()->Ok_0, true) == spec_record_len(
            before.spec_index()->Ok_0,
            true,
        ) + spec_entry_len(path.len() as int, true)
        &&& data_blocks(self.spec_stored_inode(2).data).len() == spec_payload_blocks(
            spec_record_len(before.spec_index()->Ok_0, true) + spec_entry_len(path.len() as int, true),
        )
        &&& spec_free_blocks(self.spec_bits()) + 1 + spec_held(self.spec_stored_inode(2))
            == spec_free_blocks(before.spec_bits()) + spec_held(before.spec_stored_inode(2)) + 32768 * (
        self.groups@.len() - before.groups@.len())
    }

    /// Whether this is how a payload of `len` bytes was stored as the file `name` of
    /// the directory `path` in the consistent image `before`. A file that was there
    /// keeps its inode block, and its old payload blocks are released before the new
    /// ones are claimed; the blocks allocated now are those of the file and those that
    /// were allocated and held no payload of it. The inode of a new file stands in the
    /// free block with the lowest address; the blocks allocated now are those of the
    /// file, those of the directory as it is stored now, and those that were allocated
    /// and held no payload of the directory. Either way the payload is inside the
    /// inode exactly when it is at most 4047 bytes long, and else in blocks claimed
    /// first-fit, and the free blocks are counted accordingly.
    pub open spec fn stored_file(&self, before: &FS, path: Seq<u8>, name: Seq<u8>, len: int) -> bool {
        let stored = self.spec_file_inode(path, name);
        let directory = ObjectRef::Directory(path);
        &&& stored is Ok
        &&& if as_map(before.spec_directory(path)->Ok_0.0).contains_key(name) {
            let old_inode = before.spec_file_inode(path, name)->Ok_0;
            &&& self.spec_directory(path) == before.spec_directory(path)
            &&& is_stored_as(before.spec_bits(), old_inode, len, stored->Ok_0)
            &&& allocated_as(before.spec_bits(), self.spec_bits(), old_inode, stored->Ok_0, stored->Ok_0)
            &&& spec_free_blocks(self.spec_bits()) + spec_held(stored->Ok_0) == spec_free_blocks(
                before.spec_bits(),
            ) + spec_held(old_inode) + 32768 * (self.groups@.len() - before.groups@.len())
        } else {
            &&& stored->Ok_0.block_index == spec_allocated_block(before.spec_bits())
            &&& is_stored_as(
                spec_bits_after_allocation(before.spec_bits()),
                spec_fresh_inode(spec_allocated_block(before.spec_bits())),
                len,
                stored->Ok_0,
            )
            &&& self.spec_inode(directory) is Ok
            &&& self.listed_after(before, path)
            &&& as_map(self.spec_directory(path)->Ok_0.0) == as_map(
                before.spec_directory(path)->Ok_0.0,
            ).insert(name, stored->Ok_0.block_index)
            &&& spec_record_len(self.spec_directory(path)->Ok_0.0, false) == spec_record_len(
                before.spec_directory(path)->Ok_0.0,
                false,
            ) + spec_entry_len(name.len() as int, false)
            &&& allocated_as(
                before.spec_bits(),
                self.spec_bits(),
                before.spec_inode(directory)->Ok_0,
                stored->Ok_0,
                self.spec_inode(directory)->Ok_0,
            )
            &&& data_blocks(self.spec_inode(directory)->Ok_0.data).len() == spec_payload_blocks(
                spec_record_len(before.spec_directory(path)->Ok_0.0, false) + spec_entry_len(
                    name.len() as int,
                    false,
                ),
            )
            &&& spec_free_blocks(self.spec_bits()) + spec_held(stored->Ok_0) + spec_held(
                self.spec_inode(directory)->Ok_0,
            ) == spec_free_blocks(before.spec_bits()) + spec_held(before.spec_inode(directory)->Ok_0)
                + 32768 * (self.groups@.len() - before.groups@.len())
        }
    }

    /// Whether this is how the file `name` of the directory `path` was removed from
    /// the consistent image `before`: the blocks allocated now are those that did not
    /// belong to the file and either belong to the directory as it is stored now or
    /// were allocated and held no payload of the directory; so many blocks are free.
    pub open spec fn removed_file(&self, before: &FS, path: Seq<u8>, name: Seq<u8>) -> bool {
        let directory = ObjectRef::Directory(path);
        &&& self.spec_inode(directory) is Ok
        &&& self.listed_after(before, path)
        &&& as_map(self.spec_directory(path)->Ok_0.0) == as_map(
            before.spec_directory(path)->Ok_0.0,
        ).remove(name)
        &&& spec_record_len(self.spec_directory(path)->Ok_0.0, false) == spec_record_len(
            before.spec_directory(path)->Ok_0.0,
            false,
        ) - spec_entry_len(name.len() as int, false)
        &&& allocated_without(
            before.spec_bits(),
            self.spec_bits(),
            before.spec_inode(directory)->Ok_0,
            self.spec_inode(directory)->Ok_0,
            before.spec_file_inode(path, name)->Ok_0,
        )
        &&& data_blocks(self.spec_inode(directory)->Ok_0.data).len() == spec_payload_blocks(
            spec_record_len(before.spec_directory(path)->Ok_0.0, false) - spec_entry_len(
                name.len() as int,
                false,
            ),
        )
        &&& spec_free_blocks(self.spec_bits()) + spec_held(self.spec_inode(directory)->Ok_0)
            == spec_free_blocks(before.spec_bits()) + spec_held(before.spec_inode(directory)->Ok_0)
            + spec_held(before.spec_file_inode(path, name)->Ok_0) + 32768 * (self.groups@.len()
            - before.groups@.len())
    }

    /// What making the directory `path` comes to: the error with which it fails, or
    /// the bitmaps afterwards. It fails where the index cannot be read or lists the
    /// path; where no block can be had for the inode of the directory; and where the
    /// longer index cannot be stored. Else the inode of the directory takes the free
    /// block with the lowest address, and the index is stored again.
    pub open spec fn spec_create_directory(&self, path: Seq<u8>) -> Result<Seq<Seq<bool>>, FsError> {
        match self.spec_index() {
            Err(e) => Err(e),
            Ok(entries) => if as_map(entries).contains_key(path) {
                Err(FsError::AlreadyExists)
            } else {
                match spec_creation(self.spec_bits(), 12) {
                    Err(e) => Err(e),
                    Ok(made) => match spec_rewrite(
                        made,
                        self.spec_stored_inode(2),
                        spec_record_len(entries, true) + spec_entry_len(path.len() as int, true),
                    ) {
                        Err(e) => Err(e),
                        Ok(bits) => Ok(spec_with_root(bits)),
                    },
                }
            },
        }
    }

    /// What storing a payload of `len` bytes as the file `name` of the directory `path`
    /// comes to: the error with which it fails, or the bitmaps afterwards. It fails
    /// where the directory cannot be read. For a file that is there, it fails where
    /// the inode of the file cannot be read or the payload cannot be stored for it. For
    /// a new file, it fails where no block can be had for its inode, where its payload
    /// cannot be stored, and where the longer directory cannot be stored.
    pub open spec fn spec_add_file(&self, path: Seq<u8>, name: Seq<u8>, len: int) -> Result<
        Seq<Seq<bool>>,
        FsError,
    > {
        match self.spec_directory(path) {
            Err(e) => Err(e),
            Ok((entries, address)) => if as_map(entries).contains_key(name) {
                match spec_inode_at(
                    self.image@,
                    self.groups@.len() as int,
                    as_map(entries)[name] as int,
                ) {
                    Err(e) => Err(e),
                    Ok(file_inode) => match spec_rewrite(self.spec_bits(), file_inode, len) {
                        Err(e) => Err(e),
                        Ok(bits) => Ok(spec_with_root(bits)),
                    },
                }
            } else {
                match spec_creation(self.spec_bits(), len) {
                    Err(e) => Err(e),
                    Ok(made) => match spec_rewrite(
                        made,
                        self.spec_stored_inode(address as int),
                        spec_record_len(entries, false) + spec_entry_len(name.len() as int, false),
                    ) {
                        Err(e) => Err(e),
                        Ok(bits) => Ok(spec_with_root(bits)),
                    },
                }
            },
        }
    }

    /// What removing the file `name` from the directory `path` comes to: the error
    /// with which it fails, or the bitmaps afterwards. It fails where the directory or
    /// the inode of the file cannot be read or the directory does not list the file,
    /// and where the shorter directory cannot be stored. Else the directory is stored
    /// again and the blocks of the file are freed.
    pub open spec fn spec_remove_file(&self, path: Seq<u8>, name: Seq<u8>) -> Result<
        Seq<Seq<bool>>,
        FsError,
    > {
        match self.spec_file_inode(path, name) {
            Err(e) => Err(e),
            Ok(file_inode) => {
                let entries = self.spec_directory(path)->Ok_0.0;
                let address = self.spec_directory(path)->Ok_0.1;
                match spec_rewrite(
                    self.spec_bits(),
                    self.spec_stored_inode(address as int),
                    spec_record_len(entries, false) - spec_entry_len(name.len() as int, false),
                ) {
                    Err(e) => Err(e),
                    Ok(bits) => Ok(spec_with_root(spec_bits_without(bits, file_inode))),
                }
            },
        }
    }

    /// Number of groups after the directory `path` was made, or could not be made.
    pub open spec fn spec_groups_after_create_directory(&self, path: Seq<u8>) -> int {
        match self.spec_index() {
            Err(_) => self.groups@.len() as int,
            Ok(entries) => if as_map(entries).contains_key(path) {
                self.groups@.len() as int
            } else {
                match spec_creation(self.spec_bits(), 12) {
                    Err(_) => spec_groups_after_creation(self.spec_bits(), 12),
                    Ok(made) => spec_groups_after_write(
                        made,
                        self.spec_stored_inode(2),
                        spec_record_len(entries, true) + spec_entry_len(path.len() as int, true),
                    ),
                }
            },
        }
    }

    /// Number of groups after a payload of `len` bytes was stored as the file `name`
    /// of the directory `path`, or could not be stored.
    pub open spec fn spec_groups_after_add_file(&self, path: Seq<u8>, name: Seq<u8>, len: int) -> int {
        match self.spec_directory(path) {
            Err(_) => self.groups@.len() as int,
            Ok((entries, address)) => if as_map(entries).contains_key(name) {
                match spec_inode_at(
                    self.image@,
                    self.groups@.len() as int,
                    as_map(entries)[name] as int,
                ) {
                    Err(_) => self.groups@.len() as int,
                    Ok(file_inode) => spec_groups_after_write(self.spec_bits(), file_inode, len),
                }
            } else {
                match spec_creation(self.spec_bits(), len) {
                    Err(_) => spec_groups_after_creation(self.spec_bits(), len),
                    Ok(made) => spec_groups_after_write(
                        made,
                        self.spec_stored_inode(address as int),
                        spec_record_len(entries, false) + spec_entry_len(name.len() as int, false),
                    ),
                }
            },
        }
    }

    /// Number of groups after the file `name` was removed from the directory `path`,
    /// or could not be removed.
    pub open spec fn spec_groups_after_remove_file(&self, path: Seq<u8>, name: Seq<u8>) -> int {
        match self.spec_file_inode(path, name) {
            Err(_) => self.groups@.len() as int,
            Ok(_) => spec_groups_after_write(
                self.spec_bits(),
                self.spec_stored_inode(self.spec_directory(path)->Ok_0.1 as int),
                spec_record_len(self.spec_directory(path)->Ok_0.0, false) - spec_entry_len(
                    name.len() as int,
                    false,
                ),
            ),
        }
    }

    /// Appends a group to the image and writes the superblock and the bitmaps. Fails
    /// with `CapacityExhausted`, leaving everything as it was, exactly when the image
    /// has 31 groups already.
    pub fn add_group(&mut self, group: Group) -> (done: Result<(), FsError>)
        requires
            old(self).wf(),
            group.wf(),
        ensures
            final(self).wf(),
            final(self).counters_agree(),
            final(self).lookup_table == old(self).lookup_table,
            final(self).image@.len() >= old(self).image@.len(),
            final(self).superblock.file_count == old(self).superblock.file_count,
            final(self).holds_what(old(self)),
            match done {
                Ok(_) => {
                    &&& old(self).groups@.len() < 31
                    &&& final(self).groups@.len() == old(self).groups@.len() + 1
                    &&& final(self).spec_bits() == old(self).spec_bits().push(group@)
                    &&& final(self).keeps_allocated(old(self))
                },
                Err(e) => {
                    &&& e == FsError::CapacityExhausted
                    &&& old(self).groups@.len() == 31
                    &&& final(self).groups == old(self).groups
                    &&& final(self).image == old(self).image
                    &&& final(self).superblock == old(self).superblock
                },
            },
    {
        let ghost before = *self;
        match self.push_group(group) {
            Ok(_) => {},
            Err(e) => {
                return Err(e);
            },
        }
        let ghost pushed = *self;
        self.sync();
        proof {
            lemma_root_bit(before.spec_bits());
            assert(pushed.spec_bits()[0] == before.spec_bits()[0]);
            lemma_root_bit(pushed.spec_bits());
            lemma_sync_keeps(&pushed, self);
            lemma_group_added(&before, &pushed, self, group@);
        }
        Ok(())
    }

    /// Makes the directory `dir`, empty, and returns it.
    ///
    /// Fails with the error of reading the directory index, if that fails, and with
    /// `AlreadyExists` where the index has the directory; the filesystem is then as it
    /// was. Otherwise `spec_create_directory` says whether it fails, with which error,
    /// and which blocks are allocated afterwards: it fails where no block is free and
    /// no group can be appended, and where the longer index cannot be stored. A
    /// failure leaves the allocation as it was and every allocated block with its
    /// bytes; groups that were appended stay, with every block free.
    ///
    /// In a consistent image the directory is added, empty, with its inode in the free
    /// block with the lowest address, the other directories and the files stay as they
    /// are, and the image stays consistent.
    pub fn create_directory(&mut self, dir: &str) -> (made: Result<Directory, FsError>)
        requires
            old(self).wf(),
        ensures
            final(self).wf(),
            final(self).counters_agree(),
            final(self).lookup_table == old(self).lookup_table,
            final(self).groups@.len() >= old(self).groups@.len(),
            final(self).image@.len() >= old(self).image@.len(),
            final(self).superblock.file_count == old(self).superblock.file_count,
            final(self).groups@.len() == old(self).spec_groups_after_create_directory(
                dir.spec_bytes(),
            ),
            old(self).spec_create_directory(dir.spec_bytes()) == (match made {
                Ok(_) => Ok::<Seq<Seq<bool>>, FsError>(final(self).spec_bits()),
                Err(e) => Err::<Seq<Seq<bool>>, FsError>(e),
            }),
            old(self).spec_index() is Err || as_map(old(self).spec_index()->Ok_0).contains_key(
                dir.spec_bytes(),
            ) ==> final(self).same_state(old(self)),
            match made {
                Ok(directory) => {
                    &&& old(self).spec_index() is Ok
                    &&& !as_map(old(self).spec_index()->Ok_0).contains_key(dir.spec_bytes())
                    &&& directory.wf()
                    &&& directory@ == Map::<Seq<u8>, u32>::empty()
                    &&& old(self).consistent() ==> {
                        &&& final(self).consistent()
                        &&& final(self).spec_directories() == old(self).spec_directories().insert(
                            dir.spec_bytes(),
                        )
                        &&& final(self).spec_files() == old(self).spec_files()
                        &&& final(self).spec_directory(dir.spec_bytes()) is Ok
                        &&& final(self).spec_directory(dir.spec_bytes())->Ok_0.0 == Seq::<
                            (Seq<u8>, u32),
                        >::empty()
                        &&& final(self).made_directory(old(self), dir.spec_bytes())
                    }
                },
                Err(e) => {
                    &&& old(self).spec_index() is Err ==> old(self).spec_index() == Err::<
                        Seq<(Seq<u8>, u32)>,
                        FsError,
                    >(e)
                    &&& old(self).spec_index() is Ok ==> (e == FsError::AlreadyExists <==> as_map(
                        old(self).spec_index()->Ok_0,
                    ).contains_key(dir.spec_bytes()))
                    &&& old(self).spec_index() is Ok ==> e == FsError::AlreadyExists || e
                        == FsError::CapacityExhausted || e == FsError::FragmentationExhausted
                    &&& final(self).keeps_allocated(old(self))
                    &&& final(self).same_allocation(old(self))
                    &&& final(self).holds_what(old(self))
                },
            },
    {
        let ghost before = *self;
        let mut index = match self.get_directory_index() {
            Ok(index) => index,
            Err(e) => {
                assert(self.keeps_allocated(&before));
                return Err(e);
            },
        };
        if index.find_dir(dir).is_some() {
            assert(self.keeps_allocated(&before));
            return Err(FsError::AlreadyExists);
        }
        let mut index_inode = match self.get_inode(ROOT_INODE_INDEX) {
            Ok(inode) => inode,
            Err(e) => {
                assert(false);
                return Err(e);
            },
        };
        let ghost old_index_inode = index_inode@;
        let ghost old_entries = index.directories.spec_entries();
        let mut directory = Directory::init();
        let bytes = directory.serialize();
        proof {
            lemma_record_len(directory.files.spec_entries(), directory.checksum, false);
            assert(bytes@.len() == 12);
        }
        let inode = match self.create_object(bytes.as_slice()) {
            Ok(inode) => inode,
            Err(e) => {
                let ghost failed = *self;
                self.sync();
                proof {
                    lemma_root_bit(before.spec_bits());
                    assert(is_allocated(failed.spec_bits(), 2));
                    lemma_sync_keeps(&failed, self);
                    lemma_failure_kept(&before, &failed, self);
                }
                return Err(e);
            },
        };
        let ghost made = *self;
        let created_entry = index.create_dir(dir, inode.block_index);
        assert(created_entry.is_some());
        let index_bytes = index.serialize();
        proof {
            lemma_record_len(index.directories.spec_entries(), index.checksum, true);
            lemma_regions_valid_grows(
                old_index_inode.data,
                before.groups@.len() as int,
                made.groups@.len() as int,
            );
        }
        match self.write_inode_data(&mut index_inode, index_bytes.as_slice(), index_bytes.len() as u64) {
            Ok(_) => {},
            Err(e) => {
                let ghost failed = *self;
                self.release_inode_blocks(&inode);
                let ghost released = *self;
                self.sync();
                proof {
                    lemma_rolled_back(&before, &made, &failed, &released, inode@);
                    lemma_root_bit(before.spec_bits());
                    assert(is_allocated(released.spec_bits(), 2));
                    lemma_sync_keeps(&released, self);
                    lemma_failure_kept(&before, &released, self);
                }
                return Err(e);
            },
        }
        let ghost linked = *self;
        self.sync();
        proof {
            if before.consistent() {
                index.directories.lemma_lengths();
                lemma_directory_created(
                    &before,
                    &made,
                    &linked,
                    self,
                    dir.spec_bytes(),
                    inode@,
                    old_index_inode,
                    index_inode@,
                    index.directories.spec_entries(),
                );
                lemma_created_bits(&before, &made, inode@);
                lemma_creation_allocates(
                    before.spec_bits(),
                    made.spec_bits(),
                    linked.spec_bits(),
                    inode@,
                    old_index_inode,
                    index_inode@,
                );
                lemma_sync_keeps(&linked, self);
            }
        }
        Ok(Directory::init())
    }

    /// Stores `data`, which is `data_len` bytes long, as the file `file_name` of the
    /// directory `dir`, in place of what the file held if it was there.
    ///
    /// Fails with `InvalidArgument` exactly when `data` is not `data_len` bytes long;
    /// otherwise with the error of reading the directory or the inode of the file, if
    /// that fails; the filesystem is then as it was. Otherwise `spec_add_file` says
    /// whether it fails, with which error, and which blocks are allocated afterwards:
    /// it fails where the blocks for the payload, for a new inode or for the longer
    /// directory cannot be had. A failure leaves the allocation as it was and every
    /// allocated block with its bytes; groups that were appended stay, with every block
    /// free.
    ///
    /// In a consistent image the file then holds `data`, stored as `stored_file` says,
    /// the directories and the other files stay as they are, and the image stays
    /// consistent.
    pub fn add_file(&mut self, dir: &str, file_name: &str, data: &[u8], data_len: u64) -> (done: Result<
        (),
        FsError,
    >)
        requires
            old(self).wf(),
        ensures
            final(self).wf(),
            final(self).counters_agree(),
            final(self).lookup_table == old(self).lookup_table,
            final(self).groups@.len() >= old(self).groups@.len(),
            final(self).image@.len() >= old(self).image@.len(),
            data@.len() != data_len ==> done == Err::<(), FsError>(FsError::InvalidArgument),
            data@.len() == data_len ==> final(self).groups@.len() == old(
                self,
            ).spec_groups_after_add_file(
                dir.spec_bytes(),
                file_name.spec_bytes(),
                data@.len() as int,
            ),
            data@.len() == data_len ==> old(self).spec_add_file(
                dir.spec_bytes(),
                file_name.spec_bytes(),
                data@.len() as int,
            ) == (match done {
                Ok(_) => Ok::<Seq<Seq<bool>>, FsError>(final(self).spec_bits()),
                Err(e) => Err::<Seq<Seq<bool>>, FsError>(e),
            }),
            data@.len() != data_len || old(self).spec_directory(dir.spec_bytes()) is Err || (as_map(
                old(self).spec_directory(dir.spec_bytes())->Ok_0.0,
            ).contains_key(file_name.spec_bytes()) && old(self).spec_file_inode(
                dir.spec_bytes(),
                file_name.spec_bytes(),
            ) is Err) ==> final(self).same_state(old(self)),
            match done {
                Ok(_) => {
                    &&& data@.len() == data_len
                    &&& old(self).spec_directory(dir.spec_bytes()) is Ok
                    &&& final(self).superblock.file_count == spec_count_after_add(
                        old(self).superblock.file_count,
                        as_map(old(self).spec_directory(dir.spec_bytes())->Ok_0.0).contains_key(
                            file_name.spec_bytes(),
                        ),
                    )
                    &&& old(self).consistent() ==> {
                        &&& final(self).consistent()
                        &&& final(self).spec_directories() == old(self).spec_directories()
                        &&& final(self).spec_files() == old(self).spec_files().insert(
                            (dir.spec_bytes(), file_name.spec_bytes()),
                            data@,
                        )
                        &&& final(self).spec_file_data(dir.spec_bytes(), file_name.spec_bytes())
                            == Ok::<Seq<u8>, FsError>(data@)
                        &&& final(self).stored_file(
                            old(self),
                            dir.spec_bytes(),
                            file_name.spec_bytes(),
                            data@.len() as int,
                        )
                    }
                },
                Err(e) => {
                    &&& e == FsError::InvalidArgument <==> data@.len() != data_len
                    &&& final(self).superblock.file_count == old(self).superblock.file_count
                    &&& final(self).keeps_allocated(old(self))
                    &&& final(self).same_allocation(old(self))
                    &&& final(self).holds_what(old(self))
                },
            },
    {
        let ghost before = *self;
        if data.len() as u64 != data_len {
            assert(self.keeps_allocated(&before));
            return Err(FsError::InvalidArgument);
        }
        let (mut directory, directory_address) = match self.find_directory(dir) {
            Ok(found) => found,
            Err(e) => {
                assert(self.keeps_allocated(&before));
                return Err(e);
            },
        };
        let mut directory_inode = match self.get_inode(directory_address) {
            Ok(inode) => inode,
            Err(e) => {
                assert(false);
                return Err(e);
            },
        };
        let ghost old_directory_inode = directory_inode@;
        match directory.get_file(file_name) {
            Some(address) => {
                let mut file_inode = match self.get_inode(address) {
                    Ok(inode) => inode,
                    Err(e) => {
                        assert(self.keeps_allocated(&before));
                        return Err(e);
                    },
                };
                let ghost old_file_inode = file_inode@;
                let written = self.write_inode_data(&mut file_inode, data, data_len);
                let ghost after_write = *self;
                self.sync();
                match written {
                    Ok(_) => {
                        proof {
                            if before.consistent() {
                                lemma_file_overwritten(
                                    &before,
                                    &after_write,
                                    self,
                                    dir.spec_bytes(),
                                    file_name.spec_bytes(),
                                    file_inode@,
                                );
                                lemma_file_reads(self, dir.spec_bytes(), file_name.spec_bytes());
                                lemma_rewrite_allocates(
                                    before.spec_bits(),
                                    after_write.spec_bits(),
                                    old_file_inode,
                                    file_inode@,
                                );
                                lemma_sync_keeps(&after_write, self);
                            }
                        }
                        Ok(())
                    },
                    Err(e) => {
                        proof {
                            lemma_root_bit(before.spec_bits());
                            assert(is_allocated(after_write.spec_bits(), 2));
                            lemma_sync_keeps(&after_write, self);
                            lemma_failure_kept(&before, &after_write, self);
                        }
                        Err(e)
                    },
                }
            },
            None => {
                let file_inode = match self.create_object(data) {
                    Ok(inode) => inode,
                    Err(e) => {
                        let ghost failed = *self;
                        self.sync();
                        proof {
                            lemma_root_bit(before.spec_bits());
                            assert(is_allocated(failed.spec_bits(), 2));
                            lemma_sync_keeps(&failed, self);
                            lemma_failure_kept(&before, &failed, self);
                        }
                        return Err(e);
                    },
                };
                let ghost counted = *self;
                let count = self.superblock.file_count;
                if count < u32::MAX {
                    self.superblock.file_count = count + 1;
                }
                let ghost made = *self;
                assert(made.spec_bits() == counted.spec_bits());
                assert(created(&before, &made, file_inode@));
                let added = directory.add_file(file_name, file_inode.block_index);
                assert(added.is_ok());
                let bytes = directory.serialize();
                proof {
                    lemma_record_len(directory.files.spec_entries(), directory.checksum, false);
                    lemma_regions_valid_grows(
                        old_directory_inode.data,
                        before.groups@.len() as int,
                        made.groups@.len() as int,
                    );
                }
                match self.write_inode_data(&mut directory_inode, bytes.as_slice(), bytes.len() as u64) {
                    Ok(_) => {},
                    Err(e) => {
                        let ghost stopped = *self;
                        self.superblock.file_count = count;
                        let ghost failed = *self;
                        assert(failed.spec_bits() == stopped.spec_bits());
                        assert(failed.keeps_allocated(&made));
                        assert(failed.same_allocation(&made));
                        self.release_inode_blocks(&file_inode);
                        let ghost released = *self;
                        self.sync();
                        proof {
                            lemma_rolled_back(&before, &made, &failed, &released, file_inode@);
                            lemma_root_bit(before.spec_bits());
                            assert(is_allocated(released.spec_bits(), 2));
                            lemma_sync_keeps(&released, self);
                            lemma_failure_kept(&before, &released, self);
                        }
                        return Err(e);
                    },
                }
                let ghost linked = *self;
                self.sync();
                proof {
                    if before.consistent() {
                        directory.files.lemma_lengths();
                        lemma_file_created(
                            &before,
                            &made,
                            &linked,
                            self,
                            dir.spec_bytes(),
                            file_name.spec_bytes(),
                            file_inode@,
                            old_directory_inode,
                            directory_inode@,
                            directory.files.spec_entries(),
                        );
                        lemma_file_reads(self, dir.spec_bytes(), file_name.spec_bytes());
                        lemma_created_bits(&before, &made, file_inode@);
                        lemma_creation_allocates(
                            before.spec_bits(),
                            made.spec_bits(),
                            linked.spec_bits(),
                            file_inode@,
                            old_directory_inode,
                            directory_inode@,
                        );
                        lemma_sync_keeps(&linked, self);
                    }
                }
                Ok(())
            },
        }
    }

    /// Removes the file `file_name` from the directory `dir` and frees its blocks.
    ///
    /// Fails with the error of reading the directory or the inode of the file, if that
    /// fails, `NotFound` included; the filesystem is then as it was. Otherwise
    /// `spec_remove_file` says whether it fails, with which error, and which blocks are
    /// allocated afterwards: it fails where the blocks for the shorter directory
    /// cannot be had. A failure leaves the allocation as it was and every allocated
    /// block with its bytes; groups that were appended stay, with every block free.
    /// After a removal, no block of the file is allocated, but for the block of the
    /// directory index.
    ///
    /// In a consistent image the file is gone, the directories and the other files
    /// stay as they are, and the image stays consistent.
    pub fn remove_file(&mut self, dir: &str, file_name: &str) -> (done: Result<(), FsError>)
        requires
            old(self).wf(),
        ensures
            final(self).wf(),
            final(self).counters_agree(),
            final(self).lookup_table == old(self).lookup_table,
            final(self).groups@.len() >= old(self).groups@.len(),
            final(self).image@.len() >= old(self).image@.len(),
            final(self).groups@.len() == old(self).spec_groups_after_remove_file(
                dir.spec_bytes(),
                file_name.spec_bytes(),
            ),
            old(self).spec_remove_file(dir.spec_bytes(), file_name.spec_bytes()) == (match done {
                Ok(_) => Ok::<Seq<Seq<bool>>, FsError>(final(self).spec_bits()),
                Err(e) => Err::<Seq<Seq<bool>>, FsError>(e),
            }),
            old(self).spec_file_inode(dir.spec_bytes(), file_name.spec_bytes()) is Err
                ==> final(self).same_state(old(self)),
            match done {
                Ok(_) => {
                    &&& old(self).spec_file_inode(dir.spec_bytes(), file_name.spec_bytes()) is Ok
                    &&& final(self).superblock.file_count == (if old(self).superblock.file_count
                        > 0 {
                        old(self).superblock.file_count - 1
                    } else {
                        0
                    })
                    &&& forall|b: int|
                        owns(
                            old(self).spec_file_inode(
                                dir.spec_bytes(),
                                file_name.spec_bytes(),
                            )->Ok_0,
                            b,
                        ) && b != 2 ==> !(#[trigger] is_allocated(final(self).spec_bits(), b))
                    &&& old(self).consistent() ==> {
                        &&& final(self).consistent()
                        &&& final(self).spec_directories() == old(self).spec_directories()
                        &&& final(self).spec_files() == old(self).spec_files().remove(
                            (dir.spec_bytes(), file_name.spec_bytes()),
                        )
                        &&& forall|b: int|
                            owns(
                                old(self).spec_file_inode(
                                    dir.spec_bytes(),
                                    file_name.spec_bytes(),
                                )->Ok_0,
                                b,
                            ) ==> !(#[trigger] is_allocated(final(self).spec_bits(), b))
                        &&& final(self).removed_file(
                            old(self),
                            dir.spec_bytes(),
                            file_name.spec_bytes(),
                        )
                    }
                },
                Err(e) => {
                    &&& old(self).spec_file_inode(dir.spec_bytes(), file_name.spec_bytes()) is Err
                        ==> old(self).spec_file_inode(dir.spec_bytes(), file_name.spec_bytes())
                        == Err::<InodeView, FsError>(e)
                    &&& old(self).spec_file_inode(dir.spec_bytes(), file_name.spec_bytes()) is Ok
                        ==> e == FsError::CapacityExhausted || e == FsError::FragmentationExhausted
                    &&& final(self).superblock.file_count == old(self).superblock.file_count
                    &&& final(self).keeps_allocated(old(self))
                    &&& final(self).same_allocation(old(self))
                    &&& final(self).holds_what(old(self))
                },
            },
    {
        let ghost before = *self;
        let (mut directory, directory_address) = match self.find_directory(dir) {
            Ok(found) => found,
            Err(e) => {
                assert(self.keeps_allocated(&before));
                return Err(e);
            },
        };
        let mut directory_inode = match self.get_inode(directory_address) {
            Ok(inode) => inode,
            Err(e) => {
                assert(false);
                return Err(e);
            },
        };
        let ghost old_directory_inode = directory_inode@;
        let file_inode = match directory.get_file(file_name) {
            Some(address) => match self.get_inode(address) {
                Ok(inode) => inode,
                Err(e) => {
                    assert(self.keeps_allocated(&before));
                    return Err(e);
                },
            },
            None => {
                assert(self.keeps_allocated(&before));
                return Err(FsError::NotFound);
            },
        };
        let removed = directory.remove_file(file_name);
        assert(removed.is_ok());
        let bytes = directory.serialize();
        proof {
            lemma_record_len(directory.files.spec_entries(), directory.checksum, false);
        }
        let written = self.write_inode_data(&mut directory_inode, bytes.as_slice(), bytes.len() as u64);
        let ghost unlinked = *self;
        match written {
            Ok(_) => {},
            Err(e) => {
                self.sync();
                proof {
                    lemma_root_bit(before.spec_bits());
                    assert(is_allocated(unlinked.spec_bits(), 2));
                    lemma_sync_keeps(&unlinked, self);
                    lemma_failure_kept(&before, &unlinked, self);
                }
                return Err(e);
            },
        }
        proof {
            lemma_regions_valid_grows(
                file_inode@.data,
                before.groups@.len() as int,
                self.groups@.len() as int,
            );
        }
        self.release_inode_blocks(&file_inode);
        let ghost released = *self;
        proof {
            let kept = unlinked.spec_bits();
            let freed = released.spec_bits();
            assert forall|g: int| 0 <= g < kept.len() implies (#[trigger] kept[g]).len() == 32768 by {
                assert(unlinked.groups@[g].wf());
            }
            assert forall|g: int| 0 <= g < freed.len() implies (#[trigger] freed[g]).len() == 32768 by {
                assert(released.groups@[g].wf());
            }
            lemma_bits_without(unlinked.spec_bits(), released.spec_bits(), file_inode@);
            assert(rows_full(unlinked.spec_bits()));
        }
        assert forall|b: int| owns(file_inode@, b) implies !(#[trigger] is_allocated(
            released.spec_bits(),
            b,
        )) by {}
        if self.superblock.file_count > 0 {
            self.superblock.file_count = self.superblock.file_count - 1;
        }
        let ghost counted = *self;
        self.sync();
        proof {
            assert forall|b: int| owns(file_inode@, b) && b != 2 implies !(#[trigger] is_allocated(
                self.spec_bits(),
                b,
            )) by {
                if is_block_of_image(self.groups@.len() as int, b) {
                    lemma_address_of_coordinates(b);
                    assert(!is_allocated(released.spec_bits(), b));
                    lemma_address_round_trip(0, 0);
                }
            }
            if before.consistent() {
                lemma_file_not_index(&before, dir.spec_bytes(), file_name.spec_bytes());
                directory.files.lemma_lengths();
                lemma_file_removed(
                    &before,
                    &unlinked,
                    &counted,
                    self,
                    dir.spec_bytes(),
                    file_name.spec_bytes(),
                    old_directory_inode,
                    directory_inode@,
                    directory.files.spec_entries(),
                );
                lemma_removal_allocates(
                    before.spec_bits(),
                    unlinked.spec_bits(),
                    counted.spec_bits(),
                    old_directory_inode,
                    directory_inode@,
                    file_inode@,
                );
                lemma_removal_count(unlinked.spec_bits(), file_inode@);
                lemma_sync_keeps(&counted, self);
            }
        }
        Ok(())
    }
}

/// The number of files after one was stored: one more for a new file, as far as the
/// counter goes, and the same for a file that was there.
pub open spec fn spec_count_after_add(count: u32, present: bool) -> u32 {
    if present || count == u32::MAX {
        count
    } else {
        (count + 1) as u32
    }
}

/// The bitmaps that an image of `group_count` groups holds.
pub open spec fn spec_image_bits(image: Seq<u8>, group_count: int) -> Seq<Seq<bool>> {
    Seq::new(
        group_count as nat,
        |g: int|
            unpacked(
                image.subrange(spec_group_seek_position(g), spec_group_seek_position(g) + 4096),
            ),
    )
}

/// What opening an image checks, in order: the superblock must verify and name
/// between 1 and 31 groups (`CorruptSuperblock`); the image must not be shorter than
/// those groups (`IoFailure`) nor longer, its counters must be those of its bitmaps,
/// and the block of the directory index must be allocated (`CorruptSuperblock`).
pub open spec fn spec_open(image: Seq<u8>) -> Result<Superblock, FsError> {
    match Superblock::spec_deserialize(image) {
        None => Err(FsError::CorruptSuperblock),
        Some(superblock) => {
            let bits = spec_image_bits(image, superblock.group_count as int);
            if superblock.group_count < 1 || superblock.group_count > 31 {
                Err(FsError::CorruptSuperblock)
            } else if image.len() < spec_image_len(superblock.group_count as int) {
                Err(FsError::IoFailure)
            } else if image.len() > spec_image_len(superblock.group_count as int)
                || superblock.block_count != 32768 * superblock.group_count
                || superblock.free_blocks != spec_free_blocks(bits) || !bits[0][0] {
                Err(FsError::CorruptSuperblock)
            } else {
                Ok(superblock)
            }
        },
    }
}

/// Bytes that parse as a superblock start with the serialised form of that superblock.
pub proof fn lemma_parsed_superblock_bytes(bytes: Seq<u8>)
    requires
        Superblock::spec_parse(bytes) is Some,
    ensures
        bytes.subrange(0, 51) == Superblock::spec_parse(bytes)->Some_0.spec_serialize(),
{
    lemma_auto_spec_u32_to_from_le_bytes();
    lemma_auto_spec_u64_to_from_le_bytes();
    let s = Superblock::spec_parse(bytes)->Some_0;
    let whole = s.spec_serialize();
    assert(spec_u32_to_le_bytes(s.fs_version) == bytes.subrange(7, 11));
    assert(spec_u32_to_le_bytes(s.block_size) == bytes.subrange(11, 15));
    assert(spec_u32_to_le_bytes(s.group_count) == bytes.subrange(15, 19));
    assert(spec_u32_to_le_bytes(s.block_count) == bytes.subrange(19, 23));
    assert(spec_u32_to_le_bytes(s.free_blocks) == bytes.subrange(23, 27));
    assert(spec_u32_to_le_bytes(s.file_count) == bytes.subrange(27, 31));
    assert(spec_u64_to_le_bytes(s.created) == bytes.subrange(31, 39));
    assert(spec_u64_to_le_bytes(s.modified) == bytes.subrange(39, 47));
    assert(spec_u32_to_le_bytes(s.checksum) == bytes.subrange(47, 51));
    assert(bytes.subrange(0, 51) =~= whole);
}

} // verus!
