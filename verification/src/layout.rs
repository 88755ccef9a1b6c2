//! Sizes of the image layout and the arithmetic that relates block addresses, byte
//! offsets and (group, bit) coordinates.

use vstd::prelude::*;

verus! {

/// Version of the image format.
pub const FS_VERSION: u32 = 1;

/// Address of the inode that holds the directory index.
pub const ROOT_INODE_INDEX: u32 = 2;

/// Largest payload, in bytes, that is stored inside its inode.
pub const INODE_CAPACITY: usize = 4047;

/// Largest number of regions that one inode references.
pub const INODE_MAX_REGION: usize = 500;

/// Size of a block in bytes.
pub const BLOCK_SIZE: u32 = 4096;

/// Number of data blocks in a group: one per bit of the group's bitmap block.
pub const BLOCKS_PER_GROUP: u32 = 32768;

/// Number of blocks that a group spans in the image: its bitmap block and its data blocks.
pub const GROUP_SPAN: u32 = 32769;

/// Number of bytes that a group spans in the image.
pub const GROUP_BYTES: u32 = 134_221_824;

/// Largest number of groups whose image length still fits the 32-bit byte offsets.
pub const MAX_GROUPS: u32 = 31;

/// Number of blocks in an image of `MAX_GROUPS` groups, the superblock included.
pub const MAX_BLOCKS: u32 = 1_015_840;

/// Byte offset of the block with address `block_index`.
pub open spec fn spec_block_seek_position(block_index: int) -> int {
    block_index * 4096
}

/// Byte offset of the bitmap block of group `group_index`.
pub open spec fn spec_group_seek_position(group_index: int) -> int {
    4096 + group_index * 134_221_824
}

/// Block address of bit `bitmap_index` of group `group_index`.
pub open spec fn spec_public_address(group_index: int, bitmap_index: int) -> int {
    group_index * 32769 + bitmap_index + 2
}

/// Whether `block_index` is the address of a data block, that is, of a bit of some group.
pub open spec fn is_data_address(block_index: int) -> bool {
    block_index >= 2 && (block_index - 2) % 32769 < 32768
}

/// Group that owns the data block with address `block_index`.
pub open spec fn spec_group_of(block_index: int) -> int {
    (block_index - 2) / 32769
}

/// Bit, within its group, of the data block with address `block_index`.
pub open spec fn spec_bit_of(block_index: int) -> int {
    (block_index - 2) % 32769
}

} // verus!
