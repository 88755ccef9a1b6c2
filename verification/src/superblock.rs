//! The superblock: the global header of an image, stored at its start.

use vstd::prelude::*;
use vstd::bytes::*;
use crate::codec::{get_u32, get_u64, put_u32, put_u64, spec_get_u32, spec_get_u64};
use crate::error::FsError;
use crate::layout::{BLOCK_SIZE, FS_VERSION};
use crate::util::{calculate_checksum, crc32, now};

verus! {

/// Number of bytes of a serialised superblock.
pub const SUPERBLOCK_LEN: usize = 51;

/// The seven bytes that every superblock starts with: `*bitfs*`.
pub open spec fn magic_bytes() -> Seq<u8> {
    seq![0x2au8, 0x62u8, 0x69u8, 0x74u8, 0x66u8, 0x73u8, 0x2au8]
}

/// The global header of an image.
#[derive(Debug, Clone, Copy, PartialEq, Eq, Structural)]
pub struct Superblock {
    /// Version of the format.
    pub fs_version: u32,
    /// Size of a block in bytes.
    pub block_size: u32,
    /// Number of groups.
    pub group_count: u32,
    /// Number of data blocks of all groups.
    pub block_count: u32,
    /// Number of free data blocks.
    pub free_blocks: u32,
    /// Number of files.
    pub file_count: u32,
    /// When the image was made, in seconds since the Unix epoch.
    pub created: u64,
    /// When the image was last changed, in seconds since the Unix epoch.
    pub modified: u64,
    /// CRC-32 of the serialised superblock with this field set to 0.
    pub checksum: u32,
}

impl Superblock {
    /// The serialised form of the superblock with `checksum` in place of its checksum:
    /// the magic, then the fields in order, each little-endian at its fixed width.
    pub open spec fn spec_bytes_with(&self, checksum: u32) -> Seq<u8> {
        magic_bytes() + spec_u32_to_le_bytes(self.fs_version) + spec_u32_to_le_bytes(
            self.block_size,
        ) + spec_u32_to_le_bytes(self.group_count) + spec_u32_to_le_bytes(self.block_count)
            + spec_u32_to_le_bytes(self.free_blocks) + spec_u32_to_le_bytes(self.file_count)
            + spec_u64_to_le_bytes(self.created) + spec_u64_to_le_bytes(self.modified)
            + spec_u32_to_le_bytes(checksum)
    }

    /// The serialised form of the superblock.
    pub open spec fn spec_serialize(&self) -> Seq<u8> {
        self.spec_bytes_with(self.checksum)
    }

    /// The checksum that belongs to the superblock's other fields.
    pub open spec fn spec_checksum(&self) -> u32 {
        crc32(self.spec_bytes_with(0))
    }

    /// Whether the superblock is of this format and carries the checksum of its fields.
    pub open spec fn wf(&self) -> bool {
        &&& self.fs_version == 1
        &&& self.block_size == 4096
        &&& self.checksum == self.spec_checksum()
    }

    /// The fields that `bytes` hold, if `bytes` start with the magic and are long
    /// enough for a superblock.
    pub open spec fn spec_parse(bytes: Seq<u8>) -> Option<Superblock> {
        if bytes.len() >= 51 && bytes.subrange(0, 7) == magic_bytes() {
            Some(
                Superblock {
                    fs_version: spec_get_u32(bytes, 7).unwrap(),
                    block_size: spec_get_u32(bytes, 11).unwrap(),
                    group_count: spec_get_u32(bytes, 15).unwrap(),
                    block_count: spec_get_u32(bytes, 19).unwrap(),
                    free_blocks: spec_get_u32(bytes, 23).unwrap(),
                    file_count: spec_get_u32(bytes, 27).unwrap(),
                    created: spec_get_u64(bytes, 31).unwrap(),
                    modified: spec_get_u64(bytes, 39).unwrap(),
                    checksum: spec_get_u32(bytes, 47).unwrap(),
                },
            )
        } else {
            None
        }
    }

    /// The superblock that `bytes` start with, if they hold one that is well formed.
    pub open spec fn spec_deserialize(bytes: Seq<u8>) -> Option<Superblock> {
        match Self::spec_parse(bytes) {
            Some(superblock) => if superblock.wf() { Some(superblock) } else { None },
            None => None,
        }
    }

    /// The superblock of an image that has no group yet, stamped with the current time.
    pub fn new() -> (superblock: Self)
        ensures
            superblock.fs_version == 1,
            superblock.block_size == 4096,
            superblock.group_count == 0,
            superblock.block_count == 1,
            superblock.free_blocks == 0,
            superblock.file_count == 0,
            superblock.checksum == 0,
    {
        Self {
            fs_version: FS_VERSION,
            block_size: BLOCK_SIZE,
            group_count: 0,
            block_count: 1,
            free_blocks: 0,
            file_count: 0,
            created: now(),
            modified: now(),
            checksum: 0,
        }
    }

    /// Stamps the superblock with the current time. The checksum is left as it was.
    pub fn update_modified(&mut self)
        ensures
            *final(self) == (Superblock { modified: final(self).modified, ..*old(self) }),
    {
        self.stamp_modified(now());
    }

    /// Stamps the superblock as last changed at `seconds` since the Unix epoch. The
    /// checksum is left as it was.
    pub fn stamp_modified(&mut self, seconds: u64)
        ensures
            *final(self) == (Superblock { modified: seconds, ..*old(self) }),
    {
        self.modified = seconds;
    }

    /// The bytes of the superblock with `checksum` in place of its checksum.
    fn bytes_with(&self, checksum: u32) -> (bytes: Vec<u8>)
        ensures
            bytes@ == self.spec_bytes_with(checksum),
            bytes@.len() == 51,
    {
        let mut bytes: Vec<u8> = Vec::new();
        bytes.push(0x2a);
        bytes.push(0x62);
        bytes.push(0x69);
        bytes.push(0x74);
        bytes.push(0x66);
        bytes.push(0x73);
        bytes.push(0x2a);
        assert(bytes@ =~= magic_bytes());
        put_u32(&mut bytes, self.fs_version);
        put_u32(&mut bytes, self.block_size);
        put_u32(&mut bytes, self.group_count);
        put_u32(&mut bytes, self.block_count);
        put_u32(&mut bytes, self.free_blocks);
        put_u32(&mut bytes, self.file_count);
        put_u64(&mut bytes, self.created);
        put_u64(&mut bytes, self.modified);
        put_u32(&mut bytes, checksum);
        proof {
            lemma_auto_spec_u32_to_from_le_bytes();
            lemma_auto_spec_u64_to_from_le_bytes();
        }
        bytes
    }

    /// Sets the checksum to that of the other fields.
    pub fn checksum(&mut self)
        ensures
            *final(self) == (Superblock { checksum: old(self).spec_checksum(), ..*old(self) }),
            final(self).checksum == final(self).spec_checksum(),
    {
        let bytes = self.bytes_with(0);
        self.checksum = calculate_checksum(bytes.as_slice());
    }

    /// Whether the checksum is that of the other fields.
    pub fn verify_checksum(&mut self) -> (ok: bool)
        ensures
            *final(self) == *old(self),
            ok == (old(self).checksum == old(self).spec_checksum()),
    {
        let bytes = self.bytes_with(0);
        self.checksum == calculate_checksum(bytes.as_slice())
    }

    /// Sets the checksum and returns the serialised superblock.
    pub fn serialize(&mut self) -> (bytes: Vec<u8>)
        ensures
            *final(self) == (Superblock { checksum: old(self).spec_checksum(), ..*old(self) }),
            bytes@ == final(self).spec_serialize(),
            bytes@.len() == 51,
    {
        self.checksum();
        self.bytes_with(self.checksum)
    }

    /// Sets the checksum and appends the serialised superblock to `w`.
    pub fn serialize_into(&mut self, w: &mut Vec<u8>)
        ensures
            *final(self) == (Superblock { checksum: old(self).spec_checksum(), ..*old(self) }),
            final(w)@ == old(w)@ + final(self).spec_serialize(),
    {
        let mut bytes = self.serialize();
        w.append(&mut bytes);
    }

    /// Reads a superblock from the start of `r`. Fails with `CorruptSuperblock` exactly
    /// when `r` is too short, does not start with the magic, is of another version or
    /// block size, or carries a checksum that is not that of its fields.
    pub fn deserialize_from(r: &[u8]) -> (loaded: Result<Self, FsError>)
        ensures
            match loaded {
                Ok(superblock) => Self::spec_deserialize(r@) == Some(superblock),
                Err(e) => e == FsError::CorruptSuperblock && Self::spec_deserialize(r@).is_none(),
            },
    {
        if r.len() < SUPERBLOCK_LEN {
            return Err(FsError::CorruptSuperblock);
        }
        if r[0] != 0x2a || r[1] != 0x62 || r[2] != 0x69 || r[3] != 0x74 || r[4] != 0x66 || r[5]
            != 0x73 || r[6] != 0x2a {
            assert(r@.subrange(0, 7)[0] == r@[0]);
            assert(r@.subrange(0, 7)[1] == r@[1]);
            assert(r@.subrange(0, 7)[2] == r@[2]);
            assert(r@.subrange(0, 7)[3] == r@[3]);
            assert(r@.subrange(0, 7)[4] == r@[4]);
            assert(r@.subrange(0, 7)[5] == r@[5]);
            assert(r@.subrange(0, 7)[6] == r@[6]);
            return Err(FsError::CorruptSuperblock);
        }
        assert(r@.subrange(0, 7) =~= magic_bytes());
        let mut superblock = Superblock {
            fs_version: get_u32(r, 7).unwrap(),
            block_size: get_u32(r, 11).unwrap(),
            group_count: get_u32(r, 15).unwrap(),
            block_count: get_u32(r, 19).unwrap(),
            free_blocks: get_u32(r, 23).unwrap(),
            file_count: get_u32(r, 27).unwrap(),
            created: get_u64(r, 31).unwrap(),
            modified: get_u64(r, 39).unwrap(),
            checksum: get_u32(r, 47).unwrap(),
        };
        if superblock.fs_version != FS_VERSION || superblock.block_size != BLOCK_SIZE {
            return Err(FsError::CorruptSuperblock);
        }
        if !superblock.verify_checksum() {
            return Err(FsError::CorruptSuperblock);
        }
        Ok(superblock)
    }
}

/// A serialised superblock is 51 bytes long and parses back to the superblock it was
/// made from, whatever follows it.
pub proof fn lemma_superblock_parse_serialized(superblock: Superblock, rest: Seq<u8>)
    ensures
        superblock.spec_serialize().len() == 51,
        Superblock::spec_parse(superblock.spec_serialize() + rest) == Some(superblock),
{
    lemma_auto_spec_u32_to_from_le_bytes();
    lemma_auto_spec_u64_to_from_le_bytes();
    let s = superblock;
    let f0 = magic_bytes();
    let f1 = f0 + spec_u32_to_le_bytes(s.fs_version);
    let f2 = f1 + spec_u32_to_le_bytes(s.block_size);
    let f3 = f2 + spec_u32_to_le_bytes(s.group_count);
    let f4 = f3 + spec_u32_to_le_bytes(s.block_count);
    let f5 = f4 + spec_u32_to_le_bytes(s.free_blocks);
    let f6 = f5 + spec_u32_to_le_bytes(s.file_count);
    let f7 = f6 + spec_u64_to_le_bytes(s.created);
    let f8 = f7 + spec_u64_to_le_bytes(s.modified);
    let f9 = f8 + spec_u32_to_le_bytes(s.checksum);
    let whole = f9 + rest;
    assert(f9 == s.spec_serialize());
    assert(whole.subrange(0, 7) =~= magic_bytes());
    assert(whole.subrange(7, 11) =~= spec_u32_to_le_bytes(s.fs_version));
    assert(whole.subrange(11, 15) =~= spec_u32_to_le_bytes(s.block_size));
    assert(whole.subrange(15, 19) =~= spec_u32_to_le_bytes(s.group_count));
    assert(whole.subrange(19, 23) =~= spec_u32_to_le_bytes(s.block_count));
    assert(whole.subrange(23, 27) =~= spec_u32_to_le_bytes(s.free_blocks));
    assert(whole.subrange(27, 31) =~= spec_u32_to_le_bytes(s.file_count));
    assert(whole.subrange(31, 39) =~= spec_u64_to_le_bytes(s.created));
    assert(whole.subrange(39, 47) =~= spec_u64_to_le_bytes(s.modified));
    assert(whole.subrange(47, 51) =~= spec_u32_to_le_bytes(s.checksum));
}

/// Reading back a well-formed superblock that was serialised gives that superblock.
pub proof fn lemma_superblock_round_trip(superblock: Superblock, rest: Seq<u8>)
    requires
        superblock.wf(),
    ensures
        Superblock::spec_deserialize(superblock.spec_serialize() + rest) == Some(superblock),
{
    lemma_superblock_parse_serialized(superblock, rest);
}

} // verus!
