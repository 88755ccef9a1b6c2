//! What an image holds, as functions of its bytes: the inode at an address, the
//! payload of an inode, the directory index, the directories and the files.

use vstd::prelude::*;
use crate::bitmap::count_zeros;
use crate::directory::spec_read_record;
use crate::error::FsError;
use crate::inode::{DataView, InodeView};
use crate::layout::{is_data_address, spec_bit_of, spec_group_of};
use crate::names::as_map;
use crate::store::{in_region, lemma_flatten_contains, lemma_valid_region_block, regions_valid, spec_block, spec_flatten, spec_image_len, spec_read_blocks};
use crate::util::xor_bytes;

verus! {

/// Whether `block_index` is the address of a data block of an image of `group_count`
/// groups.
pub open spec fn is_block_of_image(group_count: int, block_index: int) -> bool {
    is_data_address(block_index) && spec_group_of(block_index) < group_count
}

/// Whether the data block with address `block_index` is allocated in the bitmaps.
pub open spec fn is_allocated(bits: Seq<Seq<bool>>, block_index: int) -> bool {
    is_block_of_image(bits.len() as int, block_index) && bits[spec_group_of(block_index)][spec_bit_of(
        block_index,
    )]
}

/// Number of free blocks of all the bitmaps.
pub open spec fn spec_free_blocks(bits: Seq<Seq<bool>>) -> nat
    decreases bits.len(),
{
    if bits.len() == 0 {
        0
    } else {
        spec_free_blocks(bits.drop_last()) + count_zeros(bits.last())
    }
}

/// Whether the regions of `data`, if it has any, are valid in an image of
/// `group_count` groups.
pub open spec fn data_valid(data: DataView, group_count: int) -> bool {
    match data {
        DataView::Raw(_) => true,
        DataView::DirectPointers(regions) => regions_valid(regions, group_count),
    }
}

/// The blocks that hold the payload of `data`, in payload order.
pub open spec fn data_blocks(data: DataView) -> Seq<int> {
    match data {
        DataView::Raw(_) => Seq::empty(),
        DataView::DirectPointers(regions) => spec_flatten(regions),
    }
}

/// Whether `block_index` is the block of `inode` or one of the blocks of its payload.
pub open spec fn owns(inode: InodeView, block_index: int) -> bool {
    block_index == inode.block_index || data_blocks(inode.data).contains(block_index)
}

/// The inode stored at `block_index`. It is `IoFailure` where `block_index` is no
/// data block of the image, and `ChecksumMismatch` where the block does not hold an
/// inode, holds one that names another block as its own, or holds one whose regions
/// are not valid.
pub open spec fn spec_inode_at(image: Seq<u8>, group_count: int, block_index: int) -> Result<
    InodeView,
    FsError,
> {
    if !is_block_of_image(group_count, block_index) {
        Err(FsError::IoFailure)
    } else {
        match InodeView::spec_parse(spec_block(image, block_index)) {
            None => Err(FsError::ChecksumMismatch),
            Some(inode) => if inode.block_index == block_index && data_valid(
                inode.data,
                group_count,
            ) {
                Ok(inode)
            } else {
                Err(FsError::ChecksumMismatch)
            },
        }
    }
}

/// The payload of `inode`: the bytes inside it, or the bytes in its blocks, decoded
/// with the keystream table.
pub open spec fn spec_payload(image: Seq<u8>, table: Seq<u8>, inode: InodeView) -> Seq<u8> {
    match inode.data {
        DataView::Raw(bytes) => xor_bytes(bytes, table),
        DataView::DirectPointers(regions) => spec_read_blocks(
            image,
            table,
            spec_flatten(regions),
            inode.size as int,
        ),
    }
}

/// The payload of the object whose inode is stored at `block_index`.
pub open spec fn spec_payload_at(image: Seq<u8>, table: Seq<u8>, group_count: int, block_index: int) -> Result<
    Seq<u8>,
    FsError,
> {
    match spec_inode_at(image, group_count, block_index) {
        Ok(inode) => Ok(spec_payload(image, table, inode)),
        Err(e) => Err(e),
    }
}

/// The entries that the payload of the object at `block_index` holds as a serialised
/// map; `ChecksumMismatch` where the payload is no serialised sorted map with its own
/// checksum.
pub open spec fn spec_entries_at(
    image: Seq<u8>,
    table: Seq<u8>,
    group_count: int,
    block_index: int,
    tagged: bool,
) -> Result<Seq<(Seq<u8>, u32)>, FsError> {
    match spec_payload_at(image, table, group_count, block_index) {
        Ok(payload) => match spec_read_record(payload, tagged) {
            Some(entries) => Ok(entries),
            None => Err(FsError::ChecksumMismatch),
        },
        Err(e) => Err(e),
    }
}

/// The entries of the directory index, which is the payload of the inode at address 2.
pub open spec fn spec_index(image: Seq<u8>, table: Seq<u8>, group_count: int) -> Result<
    Seq<(Seq<u8>, u32)>,
    FsError,
> {
    spec_entries_at(image, table, group_count, 2, true)
}

/// The entries of the directory `path` and the address of its inode; `NotFound` where
/// the index has no such directory.
pub open spec fn spec_directory(image: Seq<u8>, table: Seq<u8>, group_count: int, path: Seq<u8>) -> Result<
    (Seq<(Seq<u8>, u32)>, u32),
    FsError,
> {
    match spec_index(image, table, group_count) {
        Err(e) => Err(e),
        Ok(index) => if as_map(index).contains_key(path) {
            let address = as_map(index)[path];
            match spec_entries_at(image, table, group_count, address as int, false) {
                Ok(entries) => Ok((entries, address)),
                Err(e) => Err(e),
            }
        } else {
            Err(FsError::NotFound)
        },
    }
}

/// The inode of the file `name` of the directory `path`; `NotFound` where there is no
/// such directory or no such file in it.
pub open spec fn spec_file_inode(
    image: Seq<u8>,
    table: Seq<u8>,
    group_count: int,
    path: Seq<u8>,
    name: Seq<u8>,
) -> Result<InodeView, FsError> {
    match spec_directory(image, table, group_count, path) {
        Err(e) => Err(e),
        Ok((entries, _)) => if as_map(entries).contains_key(name) {
            spec_inode_at(image, group_count, as_map(entries)[name] as int)
        } else {
            Err(FsError::NotFound)
        },
    }
}

/// The payload of the file `name` of the directory `path`.
pub open spec fn spec_file_data(
    image: Seq<u8>,
    table: Seq<u8>,
    group_count: int,
    path: Seq<u8>,
    name: Seq<u8>,
) -> Result<Seq<u8>, FsError> {
    match spec_file_inode(image, table, group_count, path, name) {
        Ok(inode) => Ok(spec_payload(image, table, inode)),
        Err(e) => Err(e),
    }
}


/// A stored object, named by the way it is reached.
pub enum ObjectRef {
    /// The directory index.
    Index,
    /// The directory with this path.
    Directory(Seq<u8>),
    /// The file with this name in the directory with this path.
    File(Seq<u8>, Seq<u8>),
}

/// Whether the image refers to the object: the index is always referred to, a
/// directory where the index lists it, a file where its directory lists it.
pub open spec fn ref_live(image: Seq<u8>, table: Seq<u8>, group_count: int, object: ObjectRef) -> bool {
    match object {
        ObjectRef::Index => true,
        ObjectRef::Directory(path) => spec_index(image, table, group_count) is Ok && as_map(
            spec_index(image, table, group_count)->Ok_0,
        ).contains_key(path),
        ObjectRef::File(path, name) => spec_directory(image, table, group_count, path) is Ok
            && as_map(spec_directory(image, table, group_count, path)->Ok_0.0).contains_key(name),
    }
}

/// The inode of the object.
pub open spec fn ref_inode(image: Seq<u8>, table: Seq<u8>, group_count: int, object: ObjectRef) -> Result<
    InodeView,
    FsError,
> {
    match object {
        ObjectRef::Index => spec_inode_at(image, group_count, 2),
        ObjectRef::Directory(path) => match spec_index(image, table, group_count) {
            Ok(index) => spec_inode_at(image, group_count, as_map(index)[path] as int),
            Err(e) => Err(e),
        },
        ObjectRef::File(path, name) => spec_file_inode(image, table, group_count, path, name),
    }
}

/// Whether the object can be read as what it is: the index and a directory as a map
/// with its checksum, a file as an inode.
pub open spec fn ref_readable(image: Seq<u8>, table: Seq<u8>, group_count: int, object: ObjectRef) -> bool {
    match object {
        ObjectRef::Index => spec_index(image, table, group_count) is Ok,
        ObjectRef::Directory(path) => spec_directory(image, table, group_count, path) is Ok,
        ObjectRef::File(path, name) => spec_file_inode(image, table, group_count, path, name) is Ok,
    }
}

/// Whether the blocks of `inode` are allocated and all different.
#[verifier::opaque]
pub open spec fn object_sound(bits: Seq<Seq<bool>>, inode: InodeView) -> bool {
    &&& forall|b: int| #[trigger] owns(inode, b) ==> is_allocated(bits, b)
    &&& data_blocks(inode.data).no_duplicates()
    &&& !data_blocks(inode.data).contains(inode.block_index as int)
}

/// Whether no block belongs to both inodes.
#[verifier::opaque]
pub open spec fn disjoint(first: InodeView, second: InodeView) -> bool {
    forall|b: int| !(#[trigger] owns(first, b) && owns(second, b))
}

/// The paths of the directories of the image.
pub open spec fn spec_directories(image: Seq<u8>, table: Seq<u8>, group_count: int) -> Set<Seq<u8>> {
    Set::new(|path: Seq<u8>| ref_live(image, table, group_count, ObjectRef::Directory(path)))
}

/// The payloads of the files of the image, by path of the directory and name of the
/// file.
pub open spec fn spec_files(image: Seq<u8>, table: Seq<u8>, group_count: int) -> Map<
    (Seq<u8>, Seq<u8>),
    Seq<u8>,
> {
    Map::new(
        |key: (Seq<u8>, Seq<u8>)| ref_live(image, table, group_count, ObjectRef::File(key.0, key.1)),
        |key: (Seq<u8>, Seq<u8>)| spec_file_data(image, table, group_count, key.0, key.1)->Ok_0,
    )
}

/// An inode whose blocks have the same bytes in another image, which may have more
/// groups, is the same inode with the same payload there.
pub proof fn lemma_frame_object(
    image: Seq<u8>,
    later: Seq<u8>,
    table: Seq<u8>,
    group_count: int,
    later_count: int,
    block_index: int,
)
    requires
        spec_inode_at(image, group_count, block_index) is Ok,
        group_count <= later_count,
        image.len() == spec_image_len(group_count),
        later.len() == spec_image_len(later_count),
        forall|b: int| #[trigger]
            owns(spec_inode_at(image, group_count, block_index)->Ok_0, b) ==> spec_block(later, b)
                == spec_block(image, b),
    ensures
        spec_inode_at(later, later_count, block_index) == spec_inode_at(
            image,
            group_count,
            block_index,
        ),
        spec_payload(later, table, spec_inode_at(image, group_count, block_index)->Ok_0)
            == spec_payload(image, table, spec_inode_at(image, group_count, block_index)->Ok_0),
        spec_payload_at(later, table, later_count, block_index) == spec_payload_at(
            image,
            table,
            group_count,
            block_index,
        ),
{
    let inode = spec_inode_at(image, group_count, block_index)->Ok_0;
    assert(owns(inode, block_index));
    match inode.data {
        DataView::Raw(_) => {},
        DataView::DirectPointers(regions) => {
            assert forall|j: int| 0 <= j < regions.len() implies {
                &&& (#[trigger] regions[j]).1 >= 1
                &&& is_data_address(regions[j].0 as int)
                &&& spec_group_of(regions[j].0 as int) < later_count
                &&& spec_bit_of(regions[j].0 as int) + regions[j].1 <= 32768
            } by {
                assert(regions[j].1 >= 1);
            }
            let blocks = spec_flatten(regions);
            let before = spec_read_blocks(image, table, blocks, inode.size as int);
            let after = spec_read_blocks(later, table, blocks, inode.size as int);
            assert forall|i: int| 0 <= i < before.len() implies before[i] == after[i] by {
                let k = i / 4096;
                let b = blocks[k];
                assert(blocks.contains(b));
                assert(owns(inode, b));
                lemma_flatten_contains(regions, b);
                let j = choose|j: int| 0 <= j < regions.len() && in_region(regions, j, b);
                lemma_valid_region_block(regions, group_count, j, b);
                assert(spec_block(later, b)[i % 4096] == spec_block(image, b)[i % 4096]);
            }
            assert(before =~= after);
        },
    }
}

} // verus!
