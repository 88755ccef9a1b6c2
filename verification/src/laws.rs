//! Why the operations keep an image consistent: what stays as it was when blocks that
//! belong to other objects are left alone.

use vstd::prelude::*;
use crate::bitmap::lemma_unpack_packed;
use crate::directory::{lemma_read_serialized_record, spec_read_record, spec_record_bytes, spec_record_checksum, spec_record_len};
use crate::error::FsError;
use crate::fs::{FS, spec_image_bits, spec_open};
use crate::group::lemma_address_of_coordinates;
use crate::inode::{DataView, InodeView};
use crate::layout::spec_group_of;
use crate::model::{data_blocks, disjoint, is_allocated, is_block_of_image, lemma_frame_object, object_sound, ObjectRef, owns, ref_inode, ref_live, ref_readable, spec_directory, spec_file_data, spec_file_inode, spec_index, spec_inode_at, spec_payload};
use crate::names::{as_map, is_sorted, lemma_empty_map, spec_entry_len};
use crate::payload::rewritten;
use crate::plan::{lemma_small_creation, spec_can_allocate};
use crate::store::spec_block;
use crate::superblock::{lemma_superblock_parse_serialized, lemma_superblock_round_trip, Superblock};
use crate::volume::lemma_sync_keeps;

verus! {

impl FS {
    /// Whether this image refers to the object.
    pub open spec fn spec_live(&self, object: ObjectRef) -> bool {
        ref_live(self.image@, self.lookup_table@, self.groups@.len() as int, object)
    }

    /// The inode of the object in this image.
    pub open spec fn spec_inode(&self, object: ObjectRef) -> Result<InodeView, FsError> {
        ref_inode(self.image@, self.lookup_table@, self.groups@.len() as int, object)
    }

    /// Whether the object can be read in this image.
    pub open spec fn spec_readable(&self, object: ObjectRef) -> bool {
        ref_readable(self.image@, self.lookup_table@, self.groups@.len() as int, object)
    }

    /// Whether the image is consistent: every object that it refers to can be read,
    /// has its blocks allocated and all different, and shares no block with another
    /// object.
    #[verifier::opaque]
    pub open spec fn consistent(&self) -> bool {
        &&& forall|object: ObjectRef| #[trigger]
            self.spec_live(object) ==> self.spec_readable(object) && object_sound(
                self.spec_bits(),
                self.spec_inode(object)->Ok_0,
            )
        &&& forall|first: ObjectRef, second: ObjectRef|
            #![trigger self.spec_live(first), self.spec_live(second)]
            self.spec_live(first) && self.spec_live(second) && first != second ==> disjoint(
                self.spec_inode(first)->Ok_0,
                self.spec_inode(second)->Ok_0,
            )
    }

    /// Whether the blocks of `inode` have the same bytes here as in `before` and are
    /// allocated here.
    pub open spec fn keeps_object(&self, before: &FS, inode: InodeView) -> bool {
        forall|b: int| #[trigger]
            owns(inode, b) ==> spec_block(self.image@, b) == spec_block(before.image@, b)
                && is_allocated(self.spec_bits(), b)
    }

    /// Whether this is a later state of `before`, with the same keystream table and no
    /// fewer groups, in which every object that `before` refers to kept its blocks.
    pub open spec fn keeps_live(&self, before: &FS) -> bool {
        &&& before.wf_core()
        &&& self.wf_core()
        &&& self.lookup_table == before.lookup_table
        &&& self.groups@.len() >= before.groups@.len()
        &&& forall|object: ObjectRef| #[trigger]
            before.spec_live(object) ==> self.keeps_object(
                before,
                before.spec_inode(object)->Ok_0,
            )
    }

    /// Whether `inode` is stored here, with its blocks allocated and all different,
    /// and shares no block with an object that the image refers to.
    pub open spec fn spare(&self, inode: InodeView) -> bool {
        &&& spec_inode_at(self.image@, self.groups@.len() as int, inode.block_index as int)
            == Ok::<InodeView, FsError>(inode)
        &&& object_sound(self.spec_bits(), inode)
        &&& forall|object: ObjectRef| #[trigger]
            self.spec_live(object) ==> disjoint(self.spec_inode(object)->Ok_0, inode)
    }
}

/// An object that a consistent image refers to can be read, and its blocks are
/// allocated and all different.
pub proof fn lemma_live_inode(fs: &FS, object: ObjectRef)
    requires
        fs.consistent(),
        fs.spec_live(object),
    ensures
        fs.spec_readable(object),
        fs.spec_inode(object) is Ok,
        object_sound(fs.spec_bits(), fs.spec_inode(object)->Ok_0),
{
    reveal(FS::consistent);
}

/// Two objects that a consistent image refers to share no block.
pub proof fn lemma_live_disjoint(fs: &FS, first: ObjectRef, second: ObjectRef)
    requires
        fs.consistent(),
        fs.spec_live(first),
        fs.spec_live(second),
        first != second,
    ensures
        disjoint(fs.spec_inode(first)->Ok_0, fs.spec_inode(second)->Ok_0),
{
    reveal(FS::consistent);
}

/// An image is consistent where every object that it refers to can be read and has
/// its blocks allocated and all different, and no two of them share a block.
pub proof fn lemma_consistent(fs: &FS)
    requires
        forall|object: ObjectRef| #[trigger]
            fs.spec_live(object) ==> fs.spec_readable(object) && object_sound(
                fs.spec_bits(),
                fs.spec_inode(object)->Ok_0,
            ),
        forall|first: ObjectRef, second: ObjectRef|
            #![trigger fs.spec_live(first), fs.spec_live(second)]
            fs.spec_live(first) && fs.spec_live(second) && first != second ==> disjoint(
                fs.spec_inode(first)->Ok_0,
                fs.spec_inode(second)->Ok_0,
            ),
    ensures
        fs.consistent(),
{
    reveal(FS::consistent);
}

/// The index of an image whose index inode kept its blocks is the index as it was.
pub proof fn lemma_index_kept(before: &FS, after: &FS)
    requires
        before.wf_core(),
        after.wf_core(),
        after.lookup_table == before.lookup_table,
        after.groups@.len() >= before.groups@.len(),
        before.spec_index() is Ok,
        after.keeps_object(before, before.spec_inode(ObjectRef::Index)->Ok_0),
    ensures
        after.spec_index() == before.spec_index(),
        after.spec_inode(ObjectRef::Index) == before.spec_inode(ObjectRef::Index),
{
    lemma_frame_object(
        before.image@,
        after.image@,
        before.lookup_table@,
        before.groups@.len() as int,
        after.groups@.len() as int,
        2,
    );
}

/// A directory whose inode kept its blocks, in an image with the same index, is the
/// directory as it was.
pub proof fn lemma_directory_kept(before: &FS, after: &FS, path: Seq<u8>)
    requires
        before.wf_core(),
        after.wf_core(),
        after.lookup_table == before.lookup_table,
        after.groups@.len() >= before.groups@.len(),
        after.spec_index() is Ok,
        as_map(after.spec_index()->Ok_0).contains_key(path),
        before.spec_directory(path) is Ok,
        as_map(after.spec_index()->Ok_0)[path] == as_map(before.spec_index()->Ok_0)[path],
        after.keeps_object(before, before.spec_inode(ObjectRef::Directory(path))->Ok_0),
    ensures
        after.spec_directory(path) == before.spec_directory(path),
        after.spec_inode(ObjectRef::Directory(path)) == before.spec_inode(
            ObjectRef::Directory(path),
        ),
{
    let index = before.spec_index()->Ok_0;
    let address = as_map(index)[path] as int;
    lemma_frame_object(
        before.image@,
        after.image@,
        before.lookup_table@,
        before.groups@.len() as int,
        after.groups@.len() as int,
        address,
    );
}

/// A file whose inode kept its blocks, at the same address, is the file as it was.
pub proof fn lemma_file_kept(before: &FS, after: &FS, path: Seq<u8>, name: Seq<u8>)
    requires
        before.wf_core(),
        after.wf_core(),
        after.lookup_table == before.lookup_table,
        after.groups@.len() >= before.groups@.len(),
        before.spec_file_inode(path, name) is Ok,
        after.spec_directory(path) is Ok,
        as_map(after.spec_directory(path)->Ok_0.0).contains_key(name),
        as_map(after.spec_directory(path)->Ok_0.0)[name] == as_map(
            before.spec_directory(path)->Ok_0.0,
        )[name],
        after.keeps_object(before, before.spec_file_inode(path, name)->Ok_0),
    ensures
        after.spec_file_inode(path, name) == before.spec_file_inode(path, name),
        after.spec_file_data(path, name) == before.spec_file_data(path, name),
{
    let entries = before.spec_directory(path)->Ok_0.0;
    let address = as_map(entries)[name] as int;
    lemma_frame_object(
        before.image@,
        after.image@,
        before.lookup_table@,
        before.groups@.len() as int,
        after.groups@.len() as int,
        address,
    );
}

/// Sharing no block does not depend on the order of the two inodes.
pub proof fn lemma_disjoint_symmetric(first: InodeView, second: InodeView)
    requires
        disjoint(first, second),
    ensures
        disjoint(second, first),
{
    reveal(disjoint);
}

/// Where every allocated block kept its bit and its bytes, every object kept its
/// blocks.
pub proof fn lemma_keeps_allocated_live(before: &FS, after: &FS)
    requires
        before.wf_core(),
        after.wf_core(),
        after.lookup_table == before.lookup_table,
        before.consistent(),
        after.keeps_allocated(before),
    ensures
        after.keeps_live(before),
{
    assert forall|object: ObjectRef| #[trigger] before.spec_live(object) implies after.keeps_object(
        before,
        before.spec_inode(object)->Ok_0,
    ) by {
        lemma_live_inode(before, object);
        reveal(object_sound);
        let inode = before.spec_inode(object)->Ok_0;
        assert forall|b: int| #[trigger] owns(inode, b) implies spec_block(after.image@, b)
            == spec_block(before.image@, b) && is_allocated(after.spec_bits(), b) by {
            assert(is_allocated(before.spec_bits(), b));
        }
    }
}

/// An inode whose blocks are allocated and all different, and are allocated in a later
/// state too, has its blocks allocated and all different there.
pub proof fn lemma_kept_sound(before: &FS, after: &FS, inode: InodeView)
    requires
        object_sound(before.spec_bits(), inode),
        after.keeps_object(before, inode),
    ensures
        object_sound(after.spec_bits(), inode),
{
    reveal(object_sound);
}

/// In a later state in which every object kept its blocks, a directory reads as it
/// did.
pub proof fn lemma_unchanged_directory(before: &FS, after: &FS, path: Seq<u8>)
    requires
        before.consistent(),
        after.keeps_live(before),
    ensures
        after.spec_index() == before.spec_index(),
        after.spec_inode(ObjectRef::Index) == before.spec_inode(ObjectRef::Index),
        after.spec_directory(path) == before.spec_directory(path),
        before.spec_live(ObjectRef::Directory(path)) ==> after.spec_inode(
            ObjectRef::Directory(path),
        ) == before.spec_inode(ObjectRef::Directory(path)),
{
    assert(before.spec_live(ObjectRef::Index));
    lemma_live_inode(before, ObjectRef::Index);
    lemma_index_kept(before, after);
    if before.spec_live(ObjectRef::Directory(path)) {
        lemma_live_inode(before, ObjectRef::Directory(path));
        lemma_directory_kept(before, after, path);
    }
}

/// In a later state in which every object kept its blocks, a file has the inode and
/// the payload that it had.
pub proof fn lemma_unchanged_file(before: &FS, after: &FS, path: Seq<u8>, name: Seq<u8>)
    requires
        before.consistent(),
        after.keeps_live(before),
    ensures
        after.spec_directory(path) == before.spec_directory(path),
        after.spec_file_inode(path, name) == before.spec_file_inode(path, name),
        after.spec_file_data(path, name) == before.spec_file_data(path, name),
{
    lemma_unchanged_directory(before, after, path);
    if before.spec_live(ObjectRef::File(path, name)) {
        lemma_live_inode(before, ObjectRef::File(path, name));
        lemma_file_kept(before, after, path, name);
    }
}

/// In a later state in which every object kept its blocks, the image refers to an
/// object exactly if it did, and the object has the inode that it had, with its
/// blocks allocated.
pub proof fn lemma_unchanged_object(before: &FS, after: &FS, object: ObjectRef)
    requires
        before.consistent(),
        after.keeps_live(before),
    ensures
        after.spec_live(object) == before.spec_live(object),
        before.spec_live(object) ==> {
            &&& after.spec_inode(object) == before.spec_inode(object)
            &&& after.spec_readable(object)
            &&& object_sound(after.spec_bits(), after.spec_inode(object)->Ok_0)
        },
{
    match object {
        ObjectRef::Index => {
            lemma_unchanged_directory(before, after, Seq::empty());
        },
        ObjectRef::Directory(path) => {
            lemma_unchanged_directory(before, after, path);
        },
        ObjectRef::File(path, name) => {
            lemma_unchanged_file(before, after, path, name);
        },
    }
    if before.spec_live(object) {
        lemma_live_inode(before, object);
        let inode = before.spec_inode(object)->Ok_0;
        assert(after.spec_inode(object) == before.spec_inode(object));
        assert(after.keeps_object(before, inode));
        lemma_kept_sound(before, after, inode);
    }
}

/// A later state in which every object kept its blocks is consistent if the earlier
/// one was.
pub proof fn lemma_unchanged_consistent(before: &FS, after: &FS)
    requires
        before.consistent(),
        after.keeps_live(before),
    ensures
        after.consistent(),
{
    assert forall|object: ObjectRef| #[trigger]
        after.spec_live(object) implies after.spec_readable(object) && object_sound(
        after.spec_bits(),
        after.spec_inode(object)->Ok_0,
    ) by {
        lemma_unchanged_object(before, after, object);
    }
    assert forall|first: ObjectRef, second: ObjectRef|
        #![trigger after.spec_live(first), after.spec_live(second)]
        after.spec_live(first) && after.spec_live(second) && first != second implies disjoint(
        after.spec_inode(first)->Ok_0,
        after.spec_inode(second)->Ok_0,
    ) by {
        lemma_unchanged_object(before, after, first);
        lemma_unchanged_object(before, after, second);
        lemma_live_disjoint(before, first, second);
    }
    lemma_consistent(after);
}

/// A later state in which every object kept its blocks has the directories and the
/// files that the earlier one had.
pub proof fn lemma_unchanged_contents(before: &FS, after: &FS)
    requires
        before.consistent(),
        after.keeps_live(before),
    ensures
        after.spec_directories() == before.spec_directories(),
        after.spec_files() == before.spec_files(),
{
    assert forall|path: Seq<u8>|
        after.spec_directories().contains(path) == before.spec_directories().contains(path) by {
        lemma_unchanged_object(before, after, ObjectRef::Directory(path));
    }
    assert(after.spec_directories() =~= before.spec_directories());
    assert forall|key: (Seq<u8>, Seq<u8>)|
        after.spec_files().dom().contains(key) == before.spec_files().dom().contains(key) by {
        lemma_unchanged_object(before, after, ObjectRef::File(key.0, key.1));
    }
    assert forall|key: (Seq<u8>, Seq<u8>)| #[trigger]
        after.spec_files().dom().contains(key) implies after.spec_files()[key]
        == before.spec_files()[key] by {
        lemma_unchanged_file(before, after, key.0, key.1);
    }
    assert(after.spec_files() =~= before.spec_files());
}

/// An inode that was written into blocks that were free, in a state that kept every
/// allocated block, is spare there.
pub proof fn lemma_created_spare(before: &FS, after: &FS, inode: InodeView)
    requires
        before.wf_core(),
        after.wf_core(),
        after.lookup_table == before.lookup_table,
        before.consistent(),
        after.keeps_allocated(before),
        spec_inode_at(after.image@, after.groups@.len() as int, inode.block_index as int) == Ok::<
            InodeView,
            FsError,
        >(inode),
        object_sound(after.spec_bits(), inode),
        forall|b: int| #[trigger] owns(inode, b) ==> !is_allocated(before.spec_bits(), b),
    ensures
        after.keeps_live(before),
        after.consistent(),
        after.spare(inode),
{
    lemma_keeps_allocated_live(before, after);
    lemma_unchanged_consistent(before, after);
    assert forall|object: ObjectRef| #[trigger] after.spec_live(object) implies disjoint(
        after.spec_inode(object)->Ok_0,
        inode,
    ) by {
        lemma_unchanged_object(before, after, object);
        lemma_live_inode(before, object);
        reveal(object_sound);
        reveal(disjoint);
        let other = before.spec_inode(object)->Ok_0;
        assert forall|b: int| !(#[trigger] owns(other, b) && owns(inode, b)) by {
            if owns(other, b) {
                assert(is_allocated(before.spec_bits(), b));
            }
        }
    }
}

/// After an object was rewritten, every other object that the image referred to has
/// kept its blocks and shares no block with the rewritten object.
pub proof fn lemma_rewrite_other(
    before: &FS,
    after: &FS,
    target: ObjectRef,
    new_inode: InodeView,
    object: ObjectRef,
)
    requires
        before.consistent(),
        before.spec_live(target),
        before.spec_live(object),
        object != target,
        rewritten(before, after, before.spec_inode(target)->Ok_0, new_inode),
    ensures
        after.keeps_object(before, before.spec_inode(object)->Ok_0),
        disjoint(before.spec_inode(object)->Ok_0, new_inode),
        disjoint(new_inode, before.spec_inode(object)->Ok_0),
        object_sound(after.spec_bits(), before.spec_inode(object)->Ok_0),
{
    lemma_live_inode(before, object);
    lemma_live_inode(before, target);
    lemma_live_disjoint(before, object, target);
    reveal(rewritten);
    reveal(object_sound);
    reveal(disjoint);
    let other = before.spec_inode(object)->Ok_0;
    let old_inode = before.spec_inode(target)->Ok_0;
    assert forall|b: int| #[trigger] owns(other, b) implies spec_block(after.image@, b)
        == spec_block(before.image@, b) && is_allocated(after.spec_bits(), b) && !owns(
        new_inode,
        b,
    ) by {
        assert(is_allocated(before.spec_bits(), b));
        assert(!owns(old_inode, b));
    }
}

/// After a spare inode and then an object were written, the spare inode is still
/// stored, with its payload and its blocks, and shares no block with the rewritten
/// object.
pub proof fn lemma_rewrite_spare(
    before: &FS,
    after: &FS,
    target: ObjectRef,
    new_inode: InodeView,
    spare: InodeView,
)
    requires
        before.wf_core(),
        after.wf_core(),
        after.lookup_table == before.lookup_table,
        before.consistent(),
        before.spec_live(target),
        before.spare(spare),
        rewritten(before, after, before.spec_inode(target)->Ok_0, new_inode),
    ensures
        after.keeps_object(before, spare),
        disjoint(spare, new_inode),
        disjoint(new_inode, spare),
        object_sound(after.spec_bits(), spare),
        spec_inode_at(after.image@, after.groups@.len() as int, spare.block_index as int) == Ok::<
            InodeView,
            FsError,
        >(spare),
        spec_payload(after.image@, after.lookup_table@, spare) == spec_payload(
            before.image@,
            before.lookup_table@,
            spare,
        ),
{
    lemma_live_inode(before, target);
    reveal(rewritten);
    reveal(object_sound);
    reveal(disjoint);
    let old_inode = before.spec_inode(target)->Ok_0;
    assert(disjoint(old_inode, spare));
    assert forall|b: int| #[trigger] owns(spare, b) implies spec_block(after.image@, b)
        == spec_block(before.image@, b) && is_allocated(after.spec_bits(), b) && !owns(
        new_inode,
        b,
    ) by {
        assert(is_allocated(before.spec_bits(), b));
        assert(!owns(old_inode, b));
    }
    lemma_frame_object(
        before.image@,
        after.image@,
        before.lookup_table@,
        before.groups@.len() as int,
        after.groups@.len() as int,
        spare.block_index as int,
    );
}

/// Whether `after` is `before` with the object `target` rewritten as `new_inode`, at
/// the address it had: the rest of the image is as `rewritten` says, and the new inode
/// is stored with its blocks allocated and all different.
pub open spec fn rewrote(before: &FS, after: &FS, target: ObjectRef, new_inode: InodeView) -> bool {
    &&& before.wf_core()
    &&& after.wf_core()
    &&& after.lookup_table == before.lookup_table
    &&& after.groups@.len() >= before.groups@.len()
    &&& before.consistent()
    &&& before.spec_live(target)
    &&& rewritten(before, after, before.spec_inode(target)->Ok_0, new_inode)
    &&& new_inode.block_index == before.spec_inode(target)->Ok_0.block_index
    &&& spec_inode_at(after.image@, after.groups@.len() as int, new_inode.block_index as int)
        == Ok::<InodeView, FsError>(new_inode)
    &&& object_sound(after.spec_bits(), new_inode)
}

/// Whether `entries` are sorted entries whose serialised form, with its checksum, is
/// the payload of `inode` in `fs`.
#[verifier::opaque]
pub open spec fn holds_entries(fs: &FS, inode: InodeView, entries: Seq<(Seq<u8>, u32)>, tagged: bool) -> bool {
    &&& is_sorted(entries)
    &&& entries.len() <= u64::MAX
    &&& forall|i: int| 0 <= i < entries.len() ==> (#[trigger] entries[i]).0.len() <= u64::MAX
    &&& spec_payload(fs.image@, fs.lookup_table@, inode) == spec_record_bytes(
        entries,
        spec_record_checksum(entries, tagged),
        tagged,
    )
}

/// After anything but the index was rewritten, the index is what it was, and so is
/// the address of every directory.
pub proof fn lemma_rewrite_index_kept(before: &FS, after: &FS, target: ObjectRef, new_inode: InodeView)
    requires
        rewrote(before, after, target, new_inode),
        target != ObjectRef::Index,
    ensures
        after.spec_index() == before.spec_index(),
        before.spec_index() is Ok,
        after.spec_inode(ObjectRef::Index) == before.spec_inode(ObjectRef::Index),
        disjoint(before.spec_inode(ObjectRef::Index)->Ok_0, new_inode),
        object_sound(after.spec_bits(), before.spec_inode(ObjectRef::Index)->Ok_0),
{
    assert(before.spec_live(ObjectRef::Index));
    lemma_live_inode(before, ObjectRef::Index);
    lemma_rewrite_other(before, after, target, new_inode, ObjectRef::Index);
    lemma_index_kept(before, after);
}

/// After the directory `path` was rewritten with new entries, it reads as those
/// entries, at the address it had.
pub proof fn lemma_rewritten_directory(
    before: &FS,
    after: &FS,
    path: Seq<u8>,
    new_inode: InodeView,
    entries: Seq<(Seq<u8>, u32)>,
)
    requires
        rewrote(before, after, ObjectRef::Directory(path), new_inode),
        holds_entries(after, new_inode, entries, false),
    ensures
        after.spec_index() == before.spec_index(),
        before.spec_directory(path) is Ok,
        after.spec_directory(path) == Ok::<(Seq<(Seq<u8>, u32)>, u32), FsError>(
            (entries, before.spec_directory(path)->Ok_0.1),
        ),
        after.spec_inode(ObjectRef::Directory(path)) == Ok::<InodeView, FsError>(new_inode),
{
    reveal(holds_entries);
    lemma_rewrite_index_kept(before, after, ObjectRef::Directory(path), new_inode);
    lemma_live_inode(before, ObjectRef::Directory(path));
    lemma_read_serialized_record(entries, false);
}

/// After the directory `path` was rewritten, another directory reads as it did.
pub proof fn lemma_rewrite_other_directory(
    before: &FS,
    after: &FS,
    path: Seq<u8>,
    new_inode: InodeView,
    other: Seq<u8>,
)
    requires
        rewrote(before, after, ObjectRef::Directory(path), new_inode),
        other != path,
    ensures
        after.spec_directory(other) == before.spec_directory(other),
        before.spec_live(ObjectRef::Directory(other)) ==> {
            &&& after.spec_inode(ObjectRef::Directory(other)) == before.spec_inode(
                ObjectRef::Directory(other),
            )
            &&& disjoint(before.spec_inode(ObjectRef::Directory(other))->Ok_0, new_inode)
            &&& object_sound(
                after.spec_bits(),
                before.spec_inode(ObjectRef::Directory(other))->Ok_0,
            )
        },
{
    lemma_rewrite_index_kept(before, after, ObjectRef::Directory(path), new_inode);
    if before.spec_live(ObjectRef::Directory(other)) {
        lemma_live_inode(before, ObjectRef::Directory(other));
        lemma_rewrite_other(
            before,
            after,
            ObjectRef::Directory(path),
            new_inode,
            ObjectRef::Directory(other),
        );
        lemma_directory_kept(before, after, other);
    }
}

/// After an object was rewritten, a file that the image referred to before, and whose
/// directory lists it at the same address afterwards, has the inode and the payload
/// that it had.
pub proof fn lemma_rewrite_file_kept(
    before: &FS,
    after: &FS,
    target: ObjectRef,
    new_inode: InodeView,
    path: Seq<u8>,
    name: Seq<u8>,
)
    requires
        rewrote(before, after, target, new_inode),
        before.spec_live(ObjectRef::File(path, name)),
        target != ObjectRef::File(path, name),
        after.spec_directory(path) is Ok,
        as_map(after.spec_directory(path)->Ok_0.0).contains_key(name),
        as_map(after.spec_directory(path)->Ok_0.0)[name] == as_map(
            before.spec_directory(path)->Ok_0.0,
        )[name],
    ensures
        after.spec_live(ObjectRef::File(path, name)),
        after.spec_file_inode(path, name) == before.spec_file_inode(path, name),
        after.spec_file_data(path, name) == before.spec_file_data(path, name),
        before.spec_file_inode(path, name) is Ok,
        disjoint(before.spec_file_inode(path, name)->Ok_0, new_inode),
        object_sound(after.spec_bits(), before.spec_file_inode(path, name)->Ok_0),
{
    lemma_live_inode(before, ObjectRef::File(path, name));
    lemma_rewrite_other(before, after, target, new_inode, ObjectRef::File(path, name));
    lemma_file_kept(before, after, path, name);
}

/// After the payload of the file `name` of the directory `path` was rewritten, every
/// object of the image is what it was, but for that file.
pub proof fn lemma_file_rewritten_object(
    before: &FS,
    after: &FS,
    path: Seq<u8>,
    name: Seq<u8>,
    new_inode: InodeView,
    object: ObjectRef,
)
    requires
        rewrote(before, after, ObjectRef::File(path, name), new_inode),
    ensures
        after.spec_live(object) == before.spec_live(object),
        after.spec_live(object) ==> {
            &&& after.spec_readable(object)
            &&& object_sound(after.spec_bits(), after.spec_inode(object)->Ok_0)
            &&& after.spec_inode(object) == (if object == ObjectRef::File(path, name) {
                Ok::<InodeView, FsError>(new_inode)
            } else {
                before.spec_inode(object)
            })
            &&& object != ObjectRef::File(path, name) ==> disjoint(
                before.spec_inode(object)->Ok_0,
                new_inode,
            )
        },
{
    let target = ObjectRef::File(path, name);
    lemma_rewrite_index_kept(before, after, target, new_inode);
    lemma_live_inode(before, target);
    match object {
        ObjectRef::Index => {},
        ObjectRef::Directory(other) => {
            if before.spec_live(object) {
                lemma_live_inode(before, object);
                lemma_rewrite_other(before, after, target, new_inode, object);
                lemma_directory_kept(before, after, other);
            }
        },
        ObjectRef::File(other, other_name) => {
            if before.spec_live(ObjectRef::Directory(other)) {
                lemma_live_inode(before, ObjectRef::Directory(other));
                lemma_rewrite_other(before, after, target, new_inode, ObjectRef::Directory(other));
                lemma_directory_kept(before, after, other);
            }
            if before.spec_live(object) {
                if object != target {
                    lemma_rewrite_file_kept(before, after, target, new_inode, other, other_name);
                } else {
                    assert(other =~= path && other_name =~= name);
                }
            }
        },
    }
}

/// Storing a new payload in a file that is there keeps the image consistent, leaves
/// its directories and its other files as they were, and makes the payload the
/// payload of the file.
pub proof fn lemma_file_rewritten(
    before: &FS,
    after: &FS,
    path: Seq<u8>,
    name: Seq<u8>,
    new_inode: InodeView,
)
    requires
        rewrote(before, after, ObjectRef::File(path, name), new_inode),
    ensures
        after.consistent(),
        after.spec_directories() == before.spec_directories(),
        after.spec_files() == before.spec_files().insert(
            (path, name),
            spec_payload(after.image@, after.lookup_table@, new_inode),
        ),
{
    let target = ObjectRef::File(path, name);
    assert forall|object: ObjectRef| #[trigger]
        after.spec_live(object) implies after.spec_readable(object) && object_sound(
        after.spec_bits(),
        after.spec_inode(object)->Ok_0,
    ) by {
        lemma_file_rewritten_object(before, after, path, name, new_inode, object);
    }
    assert forall|first: ObjectRef, second: ObjectRef|
        #![trigger after.spec_live(first), after.spec_live(second)]
        after.spec_live(first) && after.spec_live(second) && first != second implies disjoint(
        after.spec_inode(first)->Ok_0,
        after.spec_inode(second)->Ok_0,
    ) by {
        lemma_file_rewritten_object(before, after, path, name, new_inode, first);
        lemma_file_rewritten_object(before, after, path, name, new_inode, second);
        if first != target && second != target {
            lemma_live_disjoint(before, first, second);
        } else if first == target {
            lemma_disjoint_symmetric(before.spec_inode(second)->Ok_0, new_inode);
        }
    }
    lemma_consistent(after);
    assert forall|other: Seq<u8>|
        after.spec_directories().contains(other) == before.spec_directories().contains(other) by {
        lemma_file_rewritten_object(
            before,
            after,
            path,
            name,
            new_inode,
            ObjectRef::Directory(other),
        );
    }
    assert(after.spec_directories() =~= before.spec_directories());
    let wanted = before.spec_files().insert(
        (path, name),
        spec_payload(after.image@, after.lookup_table@, new_inode),
    );
    assert forall|key: (Seq<u8>, Seq<u8>)|
        after.spec_files().dom().contains(key) == wanted.dom().contains(key) by {
        lemma_file_rewritten_object(before, after, path, name, new_inode, ObjectRef::File(key.0, key.1));
    }
    assert forall|key: (Seq<u8>, Seq<u8>)| #[trigger]
        after.spec_files().dom().contains(key) implies after.spec_files()[key] == wanted[key] by {
        lemma_file_rewritten_object(before, after, path, name, new_inode, ObjectRef::File(key.0, key.1));
        if key == (path, name) {
        } else {
            assert(ObjectRef::File(key.0, key.1) != target);
            lemma_file_rewritten_data(before, after, path, name, new_inode, key.0, key.1);
        }
    }
    assert(after.spec_files() =~= wanted);
}

/// After the payload of a file was rewritten, another file has the payload it had.
pub proof fn lemma_file_rewritten_data(
    before: &FS,
    after: &FS,
    path: Seq<u8>,
    name: Seq<u8>,
    new_inode: InodeView,
    other: Seq<u8>,
    other_name: Seq<u8>,
)
    requires
        rewrote(before, after, ObjectRef::File(path, name), new_inode),
        before.spec_live(ObjectRef::File(other, other_name)),
        ObjectRef::File(other, other_name) != ObjectRef::File(path, name),
    ensures
        after.spec_file_data(other, other_name) == before.spec_file_data(other, other_name),
{
    let target = ObjectRef::File(path, name);
    lemma_rewrite_index_kept(before, after, target, new_inode);
    if before.spec_live(ObjectRef::Directory(other)) {
        lemma_live_inode(before, ObjectRef::Directory(other));
        lemma_rewrite_other(before, after, target, new_inode, ObjectRef::Directory(other));
        lemma_directory_kept(before, after, other);
    }
    lemma_rewrite_file_kept(before, after, target, new_inode, other, other_name);
}

/// After a directory was rewritten with one more entry, which names a spare inode,
/// every object of the image is what it was, but for the directory, and the spare
/// inode is the new file.
pub proof fn lemma_file_linked_object(
    before: &FS,
    after: &FS,
    path: Seq<u8>,
    name: Seq<u8>,
    new_inode: InodeView,
    entries: Seq<(Seq<u8>, u32)>,
    spare: InodeView,
    object: ObjectRef,
)
    requires
        rewrote(before, after, ObjectRef::Directory(path), new_inode),
        holds_entries(after, new_inode, entries, false),
        !as_map(before.spec_directory(path)->Ok_0.0).contains_key(name),
        as_map(entries) == as_map(before.spec_directory(path)->Ok_0.0).insert(
            name,
            spare.block_index,
        ),
        before.spare(spare),
    ensures
        after.spec_live(object) == (before.spec_live(object) || object == ObjectRef::File(
            path,
            name,
        )),
        after.spec_live(object) ==> {
            &&& after.spec_readable(object)
            &&& object_sound(after.spec_bits(), after.spec_inode(object)->Ok_0)
            &&& after.spec_inode(object) == (if object == ObjectRef::Directory(path) {
                Ok::<InodeView, FsError>(new_inode)
            } else if object == ObjectRef::File(path, name) {
                Ok::<InodeView, FsError>(spare)
            } else {
                before.spec_inode(object)
            })
            &&& object != ObjectRef::Directory(path) && object != ObjectRef::File(path, name)
                ==> disjoint(before.spec_inode(object)->Ok_0, new_inode)
        },
{
    let target = ObjectRef::Directory(path);
    lemma_rewrite_index_kept(before, after, target, new_inode);
    lemma_rewritten_directory(before, after, path, new_inode, entries);
    lemma_live_inode(before, target);
    if before.spec_live(object) {
        lemma_live_inode(before, object);
    }
    match object {
        ObjectRef::Index => {},
        ObjectRef::Directory(other) => {
            if other != path {
                lemma_rewrite_other_directory(before, after, path, new_inode, other);
            } else {
                assert(object == target);
            }
        },
        ObjectRef::File(other, other_name) => {
            if other != path {
                lemma_rewrite_other_directory(before, after, path, new_inode, other);
                if before.spec_live(object) {
                    lemma_rewrite_file_kept(before, after, target, new_inode, other, other_name);
                }
            } else if other_name != name {
                if before.spec_live(object) {
                    lemma_rewrite_file_kept(before, after, target, new_inode, other, other_name);
                }
            } else {
                assert(object == ObjectRef::File(path, name));
                lemma_rewrite_spare(before, after, target, new_inode, spare);
            }
        },
    }
}

/// Storing a new file, by writing its inode into free blocks and then its directory
/// with one more entry, keeps the image consistent, leaves its directories and its
/// other files as they were, and makes the payload of the inode the payload of the
/// file.
pub proof fn lemma_file_linked(
    before: &FS,
    after: &FS,
    path: Seq<u8>,
    name: Seq<u8>,
    new_inode: InodeView,
    entries: Seq<(Seq<u8>, u32)>,
    spare: InodeView,
)
    requires
        rewrote(before, after, ObjectRef::Directory(path), new_inode),
        holds_entries(after, new_inode, entries, false),
        !as_map(before.spec_directory(path)->Ok_0.0).contains_key(name),
        as_map(entries) == as_map(before.spec_directory(path)->Ok_0.0).insert(
            name,
            spare.block_index,
        ),
        before.spare(spare),
    ensures
        after.consistent(),
        after.spec_directories() == before.spec_directories(),
        after.spec_files() == before.spec_files().insert(
            (path, name),
            spec_payload(before.image@, before.lookup_table@, spare),
        ),
{
    let target = ObjectRef::Directory(path);
    let file = ObjectRef::File(path, name);
    lemma_rewrite_spare(before, after, target, new_inode, spare);
    assert forall|object: ObjectRef| #[trigger]
        after.spec_live(object) implies after.spec_readable(object) && object_sound(
        after.spec_bits(),
        after.spec_inode(object)->Ok_0,
    ) by {
        lemma_file_linked_object(before, after, path, name, new_inode, entries, spare, object);
    }
    assert forall|first: ObjectRef, second: ObjectRef|
        #![trigger after.spec_live(first), after.spec_live(second)]
        after.spec_live(first) && after.spec_live(second) && first != second implies disjoint(
        after.spec_inode(first)->Ok_0,
        after.spec_inode(second)->Ok_0,
    ) by {
        lemma_file_linked_object(before, after, path, name, new_inode, entries, spare, first);
        lemma_file_linked_object(before, after, path, name, new_inode, entries, spare, second);
        let plain_first = first != target && first != file;
        let plain_second = second != target && second != file;
        if plain_first && plain_second {
            lemma_live_disjoint(before, first, second);
        } else if plain_second {
            if first == target {
                lemma_disjoint_symmetric(before.spec_inode(second)->Ok_0, new_inode);
            } else {
                assert(before.spec_live(second));
                lemma_disjoint_symmetric(before.spec_inode(second)->Ok_0, spare);
            }
        } else if plain_first {
            assert(before.spec_live(first));
        }
    }
    lemma_consistent(after);
    assert forall|other: Seq<u8>|
        after.spec_directories().contains(other) == before.spec_directories().contains(other) by {
        lemma_file_linked_object(
            before,
            after,
            path,
            name,
            new_inode,
            entries,
            spare,
            ObjectRef::Directory(other),
        );
    }
    assert(after.spec_directories() =~= before.spec_directories());
    let wanted = before.spec_files().insert(
        (path, name),
        spec_payload(before.image@, before.lookup_table@, spare),
    );
    assert forall|key: (Seq<u8>, Seq<u8>)|
        after.spec_files().dom().contains(key) == wanted.dom().contains(key) by {
        lemma_file_linked_object(
            before,
            after,
            path,
            name,
            new_inode,
            entries,
            spare,
            ObjectRef::File(key.0, key.1),
        );
    }
    assert forall|key: (Seq<u8>, Seq<u8>)| #[trigger]
        after.spec_files().dom().contains(key) implies after.spec_files()[key] == wanted[key] by {
        lemma_file_linked_object(
            before,
            after,
            path,
            name,
            new_inode,
            entries,
            spare,
            ObjectRef::File(key.0, key.1),
        );
        if key != (path, name) {
            lemma_rewritten_directory(before, after, path, new_inode, entries);
            if key.0 != path {
                lemma_rewrite_other_directory(before, after, path, new_inode, key.0);
            }
            lemma_rewrite_file_kept(before, after, target, new_inode, key.0, key.1);
        }
    }
    assert(after.spec_files() =~= wanted);
}

/// After a directory was rewritten with one entry less, every object of the image is
/// what it was, but for the directory and the file that it no longer lists.
pub proof fn lemma_file_unlinked_object(
    before: &FS,
    after: &FS,
    path: Seq<u8>,
    name: Seq<u8>,
    new_inode: InodeView,
    entries: Seq<(Seq<u8>, u32)>,
    object: ObjectRef,
)
    requires
        rewrote(before, after, ObjectRef::Directory(path), new_inode),
        holds_entries(after, new_inode, entries, false),
        as_map(before.spec_directory(path)->Ok_0.0).contains_key(name),
        as_map(entries) == as_map(before.spec_directory(path)->Ok_0.0).remove(name),
    ensures
        after.spec_live(object) == (before.spec_live(object) && object != ObjectRef::File(
            path,
            name,
        )),
        after.spec_live(object) ==> {
            &&& after.spec_readable(object)
            &&& object_sound(after.spec_bits(), after.spec_inode(object)->Ok_0)
            &&& after.spec_inode(object) == (if object == ObjectRef::Directory(path) {
                Ok::<InodeView, FsError>(new_inode)
            } else {
                before.spec_inode(object)
            })
            &&& object != ObjectRef::Directory(path) ==> disjoint(
                before.spec_inode(object)->Ok_0,
                new_inode,
            )
        },
{
    let target = ObjectRef::Directory(path);
    lemma_rewrite_index_kept(before, after, target, new_inode);
    lemma_rewritten_directory(before, after, path, new_inode, entries);
    lemma_live_inode(before, target);
    if before.spec_live(object) {
        lemma_live_inode(before, object);
    }
    match object {
        ObjectRef::Index => {},
        ObjectRef::Directory(other) => {
            if other != path {
                lemma_rewrite_other_directory(before, after, path, new_inode, other);
            } else {
                assert(object == target);
            }
        },
        ObjectRef::File(other, other_name) => {
            if other != path {
                lemma_rewrite_other_directory(before, after, path, new_inode, other);
                if before.spec_live(object) {
                    lemma_rewrite_file_kept(before, after, target, new_inode, other, other_name);
                }
            } else if other_name != name {
                if before.spec_live(object) {
                    lemma_rewrite_file_kept(before, after, target, new_inode, other, other_name);
                }
            } else {
                assert(object == ObjectRef::File(path, name));
            }
        },
    }
}

/// Rewriting a directory with one entry less keeps the image consistent, leaves its
/// directories and its other files as they were, and leaves the inode of the file
/// that is no longer listed spare.
pub proof fn lemma_file_unlinked(
    before: &FS,
    after: &FS,
    path: Seq<u8>,
    name: Seq<u8>,
    new_inode: InodeView,
    entries: Seq<(Seq<u8>, u32)>,
)
    requires
        rewrote(before, after, ObjectRef::Directory(path), new_inode),
        holds_entries(after, new_inode, entries, false),
        as_map(before.spec_directory(path)->Ok_0.0).contains_key(name),
        as_map(entries) == as_map(before.spec_directory(path)->Ok_0.0).remove(name),
    ensures
        after.consistent(),
        after.spec_directories() == before.spec_directories(),
        after.spec_files() == before.spec_files().remove((path, name)),
        before.spec_file_inode(path, name) is Ok,
        after.spare(before.spec_file_inode(path, name)->Ok_0),
{
    let target = ObjectRef::Directory(path);
    assert forall|object: ObjectRef| #[trigger]
        after.spec_live(object) implies after.spec_readable(object) && object_sound(
        after.spec_bits(),
        after.spec_inode(object)->Ok_0,
    ) by {
        lemma_file_unlinked_object(before, after, path, name, new_inode, entries, object);
    }
    assert forall|first: ObjectRef, second: ObjectRef|
        #![trigger after.spec_live(first), after.spec_live(second)]
        after.spec_live(first) && after.spec_live(second) && first != second implies disjoint(
        after.spec_inode(first)->Ok_0,
        after.spec_inode(second)->Ok_0,
    ) by {
        lemma_file_unlinked_object(before, after, path, name, new_inode, entries, first);
        lemma_file_unlinked_object(before, after, path, name, new_inode, entries, second);
        if first != target && second != target {
            lemma_live_disjoint(before, first, second);
        } else if first == target {
            lemma_disjoint_symmetric(before.spec_inode(second)->Ok_0, new_inode);
        }
    }
    lemma_consistent(after);
    assert forall|other: Seq<u8>|
        after.spec_directories().contains(other) == before.spec_directories().contains(other) by {
        lemma_file_unlinked_object(
            before,
            after,
            path,
            name,
            new_inode,
            entries,
            ObjectRef::Directory(other),
        );
    }
    assert(after.spec_directories() =~= before.spec_directories());
    let wanted = before.spec_files().remove((path, name));
    assert forall|key: (Seq<u8>, Seq<u8>)|
        after.spec_files().dom().contains(key) == wanted.dom().contains(key) by {
        lemma_file_unlinked_object(
            before,
            after,
            path,
            name,
            new_inode,
            entries,
            ObjectRef::File(key.0, key.1),
        );
    }
    assert forall|key: (Seq<u8>, Seq<u8>)| #[trigger]
        after.spec_files().dom().contains(key) implies after.spec_files()[key] == wanted[key] by {
        lemma_file_unlinked_object(
            before,
            after,
            path,
            name,
            new_inode,
            entries,
            ObjectRef::File(key.0, key.1),
        );
        lemma_rewritten_directory(before, after, path, new_inode, entries);
        if key.0 != path {
            lemma_rewrite_other_directory(before, after, path, new_inode, key.0);
        }
        lemma_rewrite_file_kept(before, after, target, new_inode, key.0, key.1);
    }
    assert(after.spec_files() =~= wanted);
    lemma_file_unlinked_spare(before, after, path, name, new_inode, entries);
}

/// After a directory was rewritten with one entry less, the inode of the file that is
/// no longer listed is spare.
pub proof fn lemma_file_unlinked_spare(
    before: &FS,
    after: &FS,
    path: Seq<u8>,
    name: Seq<u8>,
    new_inode: InodeView,
    entries: Seq<(Seq<u8>, u32)>,
)
    requires
        rewrote(before, after, ObjectRef::Directory(path), new_inode),
        holds_entries(after, new_inode, entries, false),
        as_map(before.spec_directory(path)->Ok_0.0).contains_key(name),
        as_map(entries) == as_map(before.spec_directory(path)->Ok_0.0).remove(name),
    ensures
        before.spec_file_inode(path, name) is Ok,
        after.spare(before.spec_file_inode(path, name)->Ok_0),
{
    let target = ObjectRef::Directory(path);
    let file = ObjectRef::File(path, name);
    lemma_live_inode(before, target);
    assert(before.spec_live(file));
    lemma_live_inode(before, file);
    let gone = before.spec_file_inode(path, name)->Ok_0;
    lemma_rewrite_other(before, after, target, new_inode, file);
    lemma_frame_object(
        before.image@,
        after.image@,
        before.lookup_table@,
        before.groups@.len() as int,
        after.groups@.len() as int,
        gone.block_index as int,
    );
    assert forall|object: ObjectRef| #[trigger] after.spec_live(object) implies disjoint(
        after.spec_inode(object)->Ok_0,
        gone,
    ) by {
        lemma_file_unlinked_object(before, after, path, name, new_inode, entries, object);
        if object != target {
            lemma_live_disjoint(before, object, file);
        }
    }
}

/// Freeing the blocks of a spare inode keeps every object that the image refers to.
pub proof fn lemma_spare_discarded(before: &FS, after: &FS, spare: InodeView)
    requires
        before.wf_core(),
        after.wf_core(),
        after.lookup_table == before.lookup_table,
        after.groups@.len() == before.groups@.len(),
        after.image@ == before.image@,
        before.consistent(),
        forall|object: ObjectRef| #[trigger]
            before.spec_live(object) ==> disjoint(before.spec_inode(object)->Ok_0, spare),
        forall|b: int| #[trigger]
            is_allocated(before.spec_bits(), b) && !owns(spare, b) ==> is_allocated(
                after.spec_bits(),
                b,
            ),
    ensures
        after.keeps_live(before),
        after.consistent(),
        after.spec_directories() == before.spec_directories(),
        after.spec_files() == before.spec_files(),
{
    assert forall|object: ObjectRef| #[trigger] before.spec_live(object) implies after.keeps_object(
        before,
        before.spec_inode(object)->Ok_0,
    ) by {
        lemma_live_inode(before, object);
        reveal(object_sound);
        reveal(disjoint);
        let inode = before.spec_inode(object)->Ok_0;
        assert(disjoint(inode, spare));
        assert forall|b: int| #[trigger] owns(inode, b) implies spec_block(after.image@, b)
            == spec_block(before.image@, b) && is_allocated(after.spec_bits(), b) by {
            assert(is_allocated(before.spec_bits(), b));
            assert(!owns(spare, b));
        }
    }
    lemma_unchanged_consistent(before, after);
    lemma_unchanged_contents(before, after);
}

/// After the index was rewritten with new entries, it reads as those entries.
pub proof fn lemma_rewritten_index(
    before: &FS,
    after: &FS,
    new_inode: InodeView,
    entries: Seq<(Seq<u8>, u32)>,
)
    requires
        rewrote(before, after, ObjectRef::Index, new_inode),
        holds_entries(after, new_inode, entries, true),
    ensures
        before.spec_index() is Ok,
        after.spec_index() == Ok::<Seq<(Seq<u8>, u32)>, FsError>(entries),
        after.spec_inode(ObjectRef::Index) == Ok::<InodeView, FsError>(new_inode),
{
    reveal(holds_entries);
    lemma_live_inode(before, ObjectRef::Index);
    lemma_read_serialized_record(entries, true);
}

/// After the index was rewritten with one more entry, which names a spare inode that
/// holds an empty directory, every object of the image is what it was, but for the
/// index, and the spare inode is the new directory.
pub proof fn lemma_directory_linked_object(
    before: &FS,
    after: &FS,
    path: Seq<u8>,
    new_inode: InodeView,
    entries: Seq<(Seq<u8>, u32)>,
    spare: InodeView,
    object: ObjectRef,
)
    requires
        rewrote(before, after, ObjectRef::Index, new_inode),
        holds_entries(after, new_inode, entries, true),
        !as_map(before.spec_index()->Ok_0).contains_key(path),
        as_map(entries) == as_map(before.spec_index()->Ok_0).insert(path, spare.block_index),
        before.spare(spare),
        spec_read_record(spec_payload(before.image@, before.lookup_table@, spare), false) == Some(
            Seq::<(Seq<u8>, u32)>::empty(),
        ),
    ensures
        after.spec_live(object) == (before.spec_live(object) || object == ObjectRef::Directory(
            path,
        )),
        after.spec_directory(path) == Ok::<(Seq<(Seq<u8>, u32)>, u32), FsError>(
            (Seq::<(Seq<u8>, u32)>::empty(), spare.block_index),
        ),
        after.spec_live(object) ==> {
            &&& after.spec_readable(object)
            &&& object_sound(after.spec_bits(), after.spec_inode(object)->Ok_0)
            &&& after.spec_inode(object) == (if object == ObjectRef::Index {
                Ok::<InodeView, FsError>(new_inode)
            } else if object == ObjectRef::Directory(path) {
                Ok::<InodeView, FsError>(spare)
            } else {
                before.spec_inode(object)
            })
            &&& object != ObjectRef::Index && object != ObjectRef::Directory(path) ==> disjoint(
                before.spec_inode(object)->Ok_0,
                new_inode,
            )
        },
        match object {
            ObjectRef::File(other, other_name) => after.spec_file_data(other, other_name)
                == before.spec_file_data(other, other_name),
            _ => true,
        },
{
    let target = ObjectRef::Index;
    lemma_rewritten_index(before, after, new_inode, entries);
    lemma_rewrite_spare(before, after, target, new_inode, spare);
    lemma_empty_map();
    if before.spec_live(object) {
        lemma_live_inode(before, object);
    }
    match object {
        ObjectRef::Index => {},
        ObjectRef::Directory(other) => {
            if other != path {
                if before.spec_live(object) {
                    lemma_rewrite_other(before, after, target, new_inode, object);
                    lemma_directory_kept(before, after, other);
                }
            } else {
                assert(object == ObjectRef::Directory(path));
            }
        },
        ObjectRef::File(other, other_name) => {
            if other != path {
                let directory = ObjectRef::Directory(other);
                if before.spec_live(directory) {
                    lemma_live_inode(before, directory);
                    lemma_rewrite_other(before, after, target, new_inode, directory);
                    lemma_directory_kept(before, after, other);
                    if before.spec_live(object) {
                        lemma_rewrite_file_kept(before, after, target, new_inode, other, other_name);
                    }
                }
            }
        },
    }
}

/// Making a directory, by writing an inode with an empty directory into free blocks
/// and then the index with one more entry, keeps the image consistent, adds the
/// directory, empty, and leaves the other directories and the files as they were.
pub proof fn lemma_directory_linked(
    before: &FS,
    after: &FS,
    path: Seq<u8>,
    new_inode: InodeView,
    entries: Seq<(Seq<u8>, u32)>,
    spare: InodeView,
)
    requires
        rewrote(before, after, ObjectRef::Index, new_inode),
        holds_entries(after, new_inode, entries, true),
        !as_map(before.spec_index()->Ok_0).contains_key(path),
        as_map(entries) == as_map(before.spec_index()->Ok_0).insert(path, spare.block_index),
        before.spare(spare),
        spec_read_record(spec_payload(before.image@, before.lookup_table@, spare), false) == Some(
            Seq::<(Seq<u8>, u32)>::empty(),
        ),
    ensures
        after.consistent(),
        after.spec_directories() == before.spec_directories().insert(path),
        after.spec_files() == before.spec_files(),
        after.spec_directory(path) == Ok::<(Seq<(Seq<u8>, u32)>, u32), FsError>(
            (Seq::<(Seq<u8>, u32)>::empty(), spare.block_index),
        ),
{
    let target = ObjectRef::Index;
    let directory = ObjectRef::Directory(path);
    lemma_rewrite_spare(before, after, target, new_inode, spare);
    lemma_directory_linked_object(before, after, path, new_inode, entries, spare, target);
    assert forall|object: ObjectRef| #[trigger]
        after.spec_live(object) implies after.spec_readable(object) && object_sound(
        after.spec_bits(),
        after.spec_inode(object)->Ok_0,
    ) by {
        lemma_directory_linked_object(before, after, path, new_inode, entries, spare, object);
    }
    assert forall|first: ObjectRef, second: ObjectRef|
        #![trigger after.spec_live(first), after.spec_live(second)]
        after.spec_live(first) && after.spec_live(second) && first != second implies disjoint(
        after.spec_inode(first)->Ok_0,
        after.spec_inode(second)->Ok_0,
    ) by {
        lemma_directory_linked_object(before, after, path, new_inode, entries, spare, first);
        lemma_directory_linked_object(before, after, path, new_inode, entries, spare, second);
        let plain_first = first != target && first != directory;
        let plain_second = second != target && second != directory;
        if plain_first && plain_second {
            lemma_live_disjoint(before, first, second);
        } else if plain_second {
            if first == target {
                lemma_disjoint_symmetric(before.spec_inode(second)->Ok_0, new_inode);
            } else {
                assert(before.spec_live(second));
                lemma_disjoint_symmetric(before.spec_inode(second)->Ok_0, spare);
            }
        } else if plain_first {
            assert(before.spec_live(first));
        }
    }
    lemma_consistent(after);
    let wanted = before.spec_directories().insert(path);
    assert forall|other: Seq<u8>| after.spec_directories().contains(other) == wanted.contains(
        other,
    ) by {
        lemma_directory_linked_object(
            before,
            after,
            path,
            new_inode,
            entries,
            spare,
            ObjectRef::Directory(other),
        );
    }
    assert(after.spec_directories() =~= wanted);
    assert forall|key: (Seq<u8>, Seq<u8>)|
        after.spec_files().dom().contains(key) == before.spec_files().dom().contains(key) by {
        lemma_directory_linked_object(
            before,
            after,
            path,
            new_inode,
            entries,
            spare,
            ObjectRef::File(key.0, key.1),
        );
    }
    assert forall|key: (Seq<u8>, Seq<u8>)| #[trigger]
        after.spec_files().dom().contains(key) implies after.spec_files()[key]
        == before.spec_files()[key] by {
        lemma_directory_linked_object(
            before,
            after,
            path,
            new_inode,
            entries,
            spare,
            ObjectRef::File(key.0, key.1),
        );
    }
    assert(after.spec_files() =~= before.spec_files());
}

/// Whether no block of `inode` is allocated in `fs`.
pub open spec fn is_fresh(fs: &FS, inode: InodeView) -> bool {
    forall|b: int| #[trigger] owns(inode, b) ==> !is_allocated(fs.spec_bits(), b)
}

/// Whether `after` is `before` with one more object, `inode`, written into blocks that
/// were free: every block that was allocated kept its bit and its bytes, and no other
/// block is allocated than those and the blocks of the object.
pub open spec fn created(before: &FS, after: &FS, inode: InodeView) -> bool {
    &&& before.wf_core()
    &&& after.wf_core()
    &&& after.lookup_table == before.lookup_table
    &&& after.keeps_allocated(before)
    &&& is_fresh(before, inode)
    &&& spec_inode_at(after.image@, after.groups@.len() as int, inode.block_index as int) == Ok::<
        InodeView,
        FsError,
    >(inode)
    &&& object_sound(after.spec_bits(), inode)
    &&& forall|b: int| #[trigger]
        is_allocated(after.spec_bits(), b) ==> owns(inode, b) || is_allocated(before.spec_bits(), b)
}

/// Whether `after` is `before` with the superblock and the bitmaps written into the
/// image: the same groups with the same bitmaps, but that the block of the directory
/// index is allocated, and data blocks with the same bytes.
pub open spec fn synced(before: &FS, after: &FS) -> bool {
    &&& before.wf_core()
    &&& after.wf_core()
    &&& after.lookup_table == before.lookup_table
    &&& after.groups@.len() == before.groups@.len()
    &&& after.image@.len() == before.image@.len()
    &&& after.spec_bits() == before.spec_bits().update(0, before.spec_bits()[0].update(0, true))
    &&& forall|b: int|
        is_block_of_image(before.groups@.len() as int, b) ==> #[trigger] spec_block(after.image@, b)
            == spec_block(before.image@, b)
}

/// The block of the directory index of a consistent image is allocated.
pub proof fn lemma_root_allocated(fs: &FS)
    requires
        fs.consistent(),
    ensures
        is_allocated(fs.spec_bits(), 2),
{
    assert(fs.spec_live(ObjectRef::Index));
    lemma_live_inode(fs, ObjectRef::Index);
    reveal(object_sound);
    assert(owns(fs.spec_inode(ObjectRef::Index)->Ok_0, 2));
}

/// Writing the superblock and the bitmaps of a consistent image into it leaves it
/// consistent, with the directories and files that it had.
pub proof fn lemma_synced(before: &FS, after: &FS)
    requires
        synced(before, after),
        before.consistent(),
    ensures
        after.keeps_live(before),
        after.consistent(),
        after.spec_directories() == before.spec_directories(),
        after.spec_files() == before.spec_files(),
{
    lemma_root_allocated(before);
    lemma_sync_keeps(before, after);
    lemma_keeps_allocated_live(before, after);
    lemma_unchanged_consistent(before, after);
    lemma_unchanged_contents(before, after);
}

/// A state that kept every allocated block of a consistent state is consistent, with
/// the directories and files that the earlier state had.
pub proof fn lemma_kept(before: &FS, after: &FS)
    requires
        before.wf_core(),
        after.wf_core(),
        after.lookup_table == before.lookup_table,
        after.keeps_allocated(before),
        before.consistent(),
    ensures
        after.keeps_live(before),
        after.consistent(),
        after.spec_directories() == before.spec_directories(),
        after.spec_files() == before.spec_files(),
{
    lemma_keeps_allocated_live(before, after);
    lemma_unchanged_consistent(before, after);
    lemma_unchanged_contents(before, after);
}

/// After an object was created, the allocated blocks are those that were allocated
/// and its own, none of which was allocated.
pub proof fn lemma_created_bits(before: &FS, after: &FS, inode: InodeView)
    requires
        created(before, after, inode),
    ensures
        forall|b: int| #[trigger] owns(inode, b) ==> !is_allocated(before.spec_bits(), b),
        forall|b: int| #[trigger]
            is_allocated(after.spec_bits(), b) == (owns(inode, b) || is_allocated(
                before.spec_bits(),
                b,
            )),
{
    reveal(object_sound);
}

/// An object that was created in a consistent image is spare there.
pub proof fn lemma_created(before: &FS, after: &FS, inode: InodeView)
    requires
        created(before, after, inode),
        before.consistent(),
    ensures
        after.keeps_live(before),
        after.consistent(),
        after.spare(inode),
        after.spec_directories() == before.spec_directories(),
        after.spec_files() == before.spec_files(),
{
    lemma_created_spare(before, after, inode);
    lemma_unchanged_contents(before, after);
}

/// Freeing the blocks of an object that was created, after a write that failed,
/// leaves every allocation and every allocated block as before the object was
/// created.
pub proof fn lemma_rolled_back(before: &FS, made: &FS, failed: &FS, released: &FS, inode: InodeView)
    requires
        created(before, made, inode),
        failed.wf_core(),
        failed.keeps_allocated(made),
        failed.same_allocation(made),
        released.wf_core(),
        released.image@ == failed.image@,
        released.groups@.len() == failed.groups@.len(),
        forall|b: int|
            is_block_of_image(failed.groups@.len() as int, b) ==> #[trigger] is_allocated(
                released.spec_bits(),
                b,
            ) == (is_allocated(failed.spec_bits(), b) && !owns(inode, b)),
    ensures
        released.keeps_allocated(before),
        released.same_allocation(before),
{
    assert forall|b: int| #[trigger]
        is_allocated(released.spec_bits(), b) == is_allocated(before.spec_bits(), b) by {
        assert(is_allocated(failed.spec_bits(), b) == is_allocated(made.spec_bits(), b));
        if is_allocated(before.spec_bits(), b) {
            assert(is_allocated(made.spec_bits(), b));
            assert(!owns(inode, b));
        }
        if is_allocated(released.spec_bits(), b) {
            assert(is_block_of_image(failed.groups@.len() as int, b));
        }
    }
    assert forall|b: int| #[trigger] is_allocated(before.spec_bits(), b) implies is_allocated(
        released.spec_bits(),
        b,
    ) && spec_block(released.image@, b) == spec_block(before.image@, b) by {
        assert(is_allocated(made.spec_bits(), b));
    }
}

/// The payload of an inode that holds a serialised map reads as the entries of the
/// map.
pub proof fn lemma_holds_entries(fs: &FS, inode: InodeView, entries: Seq<(Seq<u8>, u32)>, tagged: bool)
    requires
        is_sorted(entries),
        entries.len() <= usize::MAX,
        forall|i: int| 0 <= i < entries.len() ==> (#[trigger] entries[i]).0.len() <= usize::MAX,
        spec_payload(fs.image@, fs.lookup_table@, inode) == spec_record_bytes(
            entries,
            spec_record_checksum(entries, tagged),
            tagged,
        ),
    ensures
        holds_entries(fs, inode, entries, tagged),
        spec_read_record(spec_payload(fs.image@, fs.lookup_table@, inode), tagged) == Some(entries),
{
    reveal(holds_entries);
    lemma_read_serialized_record(entries, tagged);
}

/// Whether `after` is `before` with a free block allocated and a new inode without
/// payload written to it.
pub open spec fn allocated_one(before: &FS, after: &FS, inode: InodeView) -> bool {
    &&& after.groups@.len() >= before.groups@.len()
    &&& after.image@.len() >= before.image@.len()
    &&& inode.data == DataView::Raw(Seq::<u8>::empty())
    &&& is_block_of_image(after.groups@.len() as int, inode.block_index as int)
    &&& !is_allocated(before.spec_bits(), inode.block_index as int)
    &&& forall|b: int|
        is_block_of_image(after.groups@.len() as int, b) ==> #[trigger] is_allocated(
            after.spec_bits(),
            b,
        ) == (b == inode.block_index || is_allocated(before.spec_bits(), b))
    &&& forall|b: int|
        0 <= b && b * 4096 + 4096 <= before.image@.len() && b != inode.block_index
            ==> #[trigger] spec_block(after.image@, b) == spec_block(before.image@, b)
}

/// An inode that was allocated and then written with its payload is a created object.
pub proof fn lemma_object_written(
    before: &FS,
    allocated: &FS,
    after: &FS,
    fresh: InodeView,
    inode: InodeView,
)
    requires
        before.wf_core(),
        allocated.wf_core(),
        after.wf_core(),
        allocated.lookup_table == before.lookup_table,
        after.lookup_table == before.lookup_table,
        allocated_one(before, allocated, fresh),
        rewritten(allocated, after, fresh, inode),
        inode.block_index == fresh.block_index,
        spec_inode_at(after.image@, after.groups@.len() as int, inode.block_index as int) == Ok::<
            InodeView,
            FsError,
        >(inode),
        object_sound(after.spec_bits(), inode),
    ensures
        created(before, after, inode),
{
    reveal(rewritten);
    assert(data_blocks(fresh.data) =~= Seq::<int>::empty());
    assert forall|b: int| #[trigger] is_allocated(before.spec_bits(), b) implies is_allocated(
        after.spec_bits(),
        b,
    ) && spec_block(after.image@, b) == spec_block(before.image@, b) by {
        lemma_address_of_coordinates(b);
        assert(is_block_of_image(allocated.groups@.len() as int, b));
        assert(is_allocated(allocated.spec_bits(), b));
        assert(!owns(fresh, b));
        assert(spec_block(allocated.image@, b) == spec_block(before.image@, b));
    }
    assert forall|b: int| #[trigger] owns(inode, b) implies !is_allocated(before.spec_bits(), b) by {
        if is_allocated(before.spec_bits(), b) {
            lemma_address_of_coordinates(b);
            assert(is_block_of_image(allocated.groups@.len() as int, b));
            assert(is_allocated(allocated.spec_bits(), b));
        }
    }
    assert forall|b: int| #[trigger] is_allocated(after.spec_bits(), b) implies owns(inode, b)
        || is_allocated(before.spec_bits(), b) by {
        if !owns(inode, b) {
            assert(is_allocated(allocated.spec_bits(), b));
            assert(is_block_of_image(allocated.groups@.len() as int, b));
        }
    }
}

/// Freeing the block of an inode that was allocated, after a write that failed,
/// leaves every allocation and every allocated block as before the allocation.
pub proof fn lemma_allocation_undone(
    before: &FS,
    allocated: &FS,
    failed: &FS,
    released: &FS,
    fresh: InodeView,
)
    requires
        before.wf_core(),
        allocated.wf_core(),
        failed.wf_core(),
        released.wf_core(),
        allocated_one(before, allocated, fresh),
        failed.keeps_allocated(allocated),
        failed.same_allocation(allocated),
        released.image@ == failed.image@,
        released.groups@.len() == failed.groups@.len(),
        forall|b: int|
            is_block_of_image(failed.groups@.len() as int, b) ==> #[trigger] is_allocated(
                released.spec_bits(),
                b,
            ) == (is_allocated(failed.spec_bits(), b) && !owns(fresh, b)),
    ensures
        released.keeps_allocated(before),
        released.same_allocation(before),
{
    assert(data_blocks(fresh.data) =~= Seq::<int>::empty());
    assert forall|b: int| #[trigger]
        is_allocated(released.spec_bits(), b) == is_allocated(before.spec_bits(), b) by {
        assert(is_allocated(failed.spec_bits(), b) == is_allocated(allocated.spec_bits(), b));
        if is_allocated(before.spec_bits(), b) || is_allocated(released.spec_bits(), b) {
            lemma_address_of_coordinates(b);
            assert(is_block_of_image(allocated.groups@.len() as int, b));
            assert(is_block_of_image(failed.groups@.len() as int, b));
        }
    }
    assert forall|b: int| #[trigger] is_allocated(before.spec_bits(), b) implies is_allocated(
        released.spec_bits(),
        b,
    ) && spec_block(released.image@, b) == spec_block(before.image@, b) by {
        lemma_address_of_coordinates(b);
        assert(is_block_of_image(allocated.groups@.len() as int, b));
        assert(is_allocated(allocated.spec_bits(), b));
        assert(spec_block(allocated.image@, b) == spec_block(before.image@, b));
    }
}

/// A failed operation that left every allocation and every allocated block as it was,
/// and then wrote the superblock and the bitmaps, kept what the image held.
pub proof fn lemma_failure_kept(before: &FS, failed: &FS, after: &FS)
    requires
        before.wf_core(),
        failed.wf_core(),
        after.wf_core(),
        failed.lookup_table == before.lookup_table,
        after.lookup_table == before.lookup_table,
        failed.keeps_allocated(before),
        failed.same_allocation(before),
        after.keeps_allocated(failed),
        after.same_allocation(failed),
    ensures
        after.keeps_allocated(before),
        after.same_allocation(before),
        after.holds_what(before),
{
    assert forall|b: int| #[trigger] is_allocated(before.spec_bits(), b) implies is_allocated(
        after.spec_bits(),
        b,
    ) && spec_block(after.image@, b) == spec_block(before.image@, b) by {
        assert(is_allocated(failed.spec_bits(), b));
    }
    assert forall|b: int| #[trigger]
        is_allocated(after.spec_bits(), b) == is_allocated(before.spec_bits(), b) by {
        assert(is_allocated(failed.spec_bits(), b) == is_allocated(before.spec_bits(), b));
    }
    if before.consistent() {
        lemma_kept(before, after);
    }
}

/// What storing a new payload in a file that is there, and then writing the superblock
/// and the bitmaps, does to a consistent image.
pub proof fn lemma_file_overwritten(
    before: &FS,
    written: &FS,
    after: &FS,
    path: Seq<u8>,
    name: Seq<u8>,
    new_inode: InodeView,
)
    requires
        before.consistent(),
        before.wf_core(),
        written.wf_core(),
        written.lookup_table == before.lookup_table,
        written.groups@.len() >= before.groups@.len(),
        before.spec_file_inode(path, name) is Ok,
        rewritten(before, written, before.spec_file_inode(path, name)->Ok_0, new_inode),
        new_inode.block_index == before.spec_file_inode(path, name)->Ok_0.block_index,
        spec_inode_at(written.image@, written.groups@.len() as int, new_inode.block_index as int)
            == Ok::<InodeView, FsError>(new_inode),
        object_sound(written.spec_bits(), new_inode),
        synced(written, after),
    ensures
        after.consistent(),
        after.spec_directories() == before.spec_directories(),
        after.spec_files() == before.spec_files().insert(
            (path, name),
            spec_payload(written.image@, written.lookup_table@, new_inode),
        ),
        after.spec_file_inode(path, name) == Ok::<InodeView, FsError>(new_inode),
        is_allocated(written.spec_bits(), 2),
        object_sound(before.spec_bits(), before.spec_file_inode(path, name)->Ok_0),
        after.spec_directory(path) == before.spec_directory(path),
{
    let file = ObjectRef::File(path, name);
    let directory = ObjectRef::Directory(path);
    assert(before.spec_live(file));
    assert(before.spec_live(directory));
    lemma_live_inode(before, file);
    lemma_live_inode(before, directory);
    lemma_rewrite_index_kept(before, written, file, new_inode);
    lemma_rewrite_other(before, written, file, new_inode, directory);
    lemma_directory_kept(before, written, path);
    lemma_file_rewritten(before, written, path, name, new_inode);
    lemma_file_rewritten_object(before, written, path, name, new_inode, file);
    lemma_root_allocated(written);
    lemma_synced(written, after);
    lemma_unchanged_object(written, after, file);
    lemma_unchanged_directory(written, after, path);
}

/// What storing a new file does to a consistent image: its inode is created with the
/// payload, its directory is rewritten with one more entry, and the superblock and
/// the bitmaps are written.
pub proof fn lemma_file_created(
    before: &FS,
    made: &FS,
    linked: &FS,
    after: &FS,
    path: Seq<u8>,
    name: Seq<u8>,
    file_inode: InodeView,
    old_inode: InodeView,
    new_inode: InodeView,
    entries: Seq<(Seq<u8>, u32)>,
)
    requires
        before.consistent(),
        created(before, made, file_inode),
        before.spec_directory(path) is Ok,
        !as_map(before.spec_directory(path)->Ok_0.0).contains_key(name),
        spec_inode_at(
            before.image@,
            before.groups@.len() as int,
            before.spec_directory(path)->Ok_0.1 as int,
        ) == Ok::<InodeView, FsError>(old_inode),
        linked.wf_core(),
        linked.lookup_table == before.lookup_table,
        linked.groups@.len() >= made.groups@.len(),
        rewritten(made, linked, old_inode, new_inode),
        new_inode.block_index == old_inode.block_index,
        spec_inode_at(linked.image@, linked.groups@.len() as int, new_inode.block_index as int)
            == Ok::<InodeView, FsError>(new_inode),
        object_sound(linked.spec_bits(), new_inode),
        is_sorted(entries),
        entries.len() <= usize::MAX,
        forall|i: int| 0 <= i < entries.len() ==> (#[trigger] entries[i]).0.len() <= usize::MAX,
        spec_payload(linked.image@, linked.lookup_table@, new_inode) == spec_record_bytes(
            entries,
            spec_record_checksum(entries, false),
            false,
        ),
        as_map(entries) == as_map(before.spec_directory(path)->Ok_0.0).insert(
            name,
            file_inode.block_index,
        ),
        synced(linked, after),
    ensures
        after.consistent(),
        after.spec_directories() == before.spec_directories(),
        after.spec_files() == before.spec_files().insert(
            (path, name),
            spec_payload(made.image@, made.lookup_table@, file_inode),
        ),
        after.spec_file_inode(path, name) == Ok::<InodeView, FsError>(file_inode),
        before.spec_inode(ObjectRef::Directory(path)) == Ok::<InodeView, FsError>(old_inode),
        after.spec_inode(ObjectRef::Directory(path)) == Ok::<InodeView, FsError>(new_inode),
        object_sound(before.spec_bits(), old_inode),
        object_sound(made.spec_bits(), old_inode),
        is_allocated(linked.spec_bits(), 2),
        after.spec_directory(path) == Ok::<(Seq<(Seq<u8>, u32)>, u32), FsError>(
            (entries, before.spec_directory(path)->Ok_0.1),
        ),
{
    lemma_created(before, made, file_inode);
    let directory = ObjectRef::Directory(path);
    let file = ObjectRef::File(path, name);
    assert(before.spec_live(directory));
    lemma_live_inode(before, directory);
    lemma_unchanged_object(before, made, directory);
    lemma_unchanged_directory(before, made, path);
    lemma_holds_entries(linked, new_inode, entries, false);
    lemma_file_linked(made, linked, path, name, new_inode, entries, file_inode);
    lemma_file_linked_object(made, linked, path, name, new_inode, entries, file_inode, file);
    lemma_file_linked_object(made, linked, path, name, new_inode, entries, file_inode, directory);
    lemma_rewritten_directory(made, linked, path, new_inode, entries);
    lemma_root_allocated(linked);
    lemma_synced(linked, after);
    lemma_unchanged_object(linked, after, file);
    lemma_unchanged_object(linked, after, directory);
    lemma_unchanged_directory(linked, after, path);
}

/// What making a directory does to a consistent image: its inode is created with an
/// empty directory, the index is rewritten with one more entry, and the superblock and
/// the bitmaps are written.
pub proof fn lemma_directory_created(
    before: &FS,
    made: &FS,
    linked: &FS,
    after: &FS,
    path: Seq<u8>,
    directory_inode: InodeView,
    old_inode: InodeView,
    new_inode: InodeView,
    entries: Seq<(Seq<u8>, u32)>,
)
    requires
        before.consistent(),
        created(before, made, directory_inode),
        spec_payload(made.image@, made.lookup_table@, directory_inode) == spec_record_bytes(
            Seq::<(Seq<u8>, u32)>::empty(),
            spec_record_checksum(Seq::<(Seq<u8>, u32)>::empty(), false),
            false,
        ),
        before.spec_index() is Ok,
        !as_map(before.spec_index()->Ok_0).contains_key(path),
        spec_inode_at(before.image@, before.groups@.len() as int, 2) == Ok::<InodeView, FsError>(
            old_inode,
        ),
        linked.wf_core(),
        linked.lookup_table == before.lookup_table,
        linked.groups@.len() >= made.groups@.len(),
        rewritten(made, linked, old_inode, new_inode),
        new_inode.block_index == old_inode.block_index,
        spec_inode_at(linked.image@, linked.groups@.len() as int, new_inode.block_index as int)
            == Ok::<InodeView, FsError>(new_inode),
        object_sound(linked.spec_bits(), new_inode),
        is_sorted(entries),
        entries.len() <= usize::MAX,
        forall|i: int| 0 <= i < entries.len() ==> (#[trigger] entries[i]).0.len() <= usize::MAX,
        spec_payload(linked.image@, linked.lookup_table@, new_inode) == spec_record_bytes(
            entries,
            spec_record_checksum(entries, true),
            true,
        ),
        as_map(entries) == as_map(before.spec_index()->Ok_0).insert(
            path,
            directory_inode.block_index,
        ),
        synced(linked, after),
    ensures
        after.consistent(),
        after.spec_directories() == before.spec_directories().insert(path),
        after.spec_files() == before.spec_files(),
        after.spec_directory(path) is Ok,
        after.spec_directory(path)->Ok_0.0 == Seq::<(Seq<u8>, u32)>::empty(),
        after.spec_directory(path)->Ok_0.1 == directory_inode.block_index,
        after.spec_inode(ObjectRef::Directory(path)) == Ok::<InodeView, FsError>(directory_inode),
        after.spec_inode(ObjectRef::Index) == Ok::<InodeView, FsError>(new_inode),
        object_sound(before.spec_bits(), old_inode),
        object_sound(made.spec_bits(), old_inode),
        is_allocated(linked.spec_bits(), 2),
        after.spec_index() == Ok::<Seq<(Seq<u8>, u32)>, FsError>(entries),
{
    lemma_created(before, made, directory_inode);
    let directory = ObjectRef::Directory(path);
    assert(before.spec_live(ObjectRef::Index));
    lemma_live_inode(before, ObjectRef::Index);
    lemma_unchanged_object(before, made, ObjectRef::Index);
    lemma_unchanged_directory(before, made, path);
    lemma_holds_entries(linked, new_inode, entries, true);
    let nothing = Seq::<(Seq<u8>, u32)>::empty();
    lemma_holds_entries(made, directory_inode, nothing, false);
    lemma_directory_linked(made, linked, path, new_inode, entries, directory_inode);
    lemma_directory_linked_object(made, linked, path, new_inode, entries, directory_inode, directory);
    lemma_directory_linked_object(
        made,
        linked,
        path,
        new_inode,
        entries,
        directory_inode,
        ObjectRef::Index,
    );
    lemma_rewritten_index(made, linked, new_inode, entries);
    lemma_root_allocated(linked);
    lemma_synced(linked, after);
    lemma_unchanged_directory(linked, after, path);
    lemma_unchanged_object(linked, after, directory);
    lemma_unchanged_object(linked, after, ObjectRef::Index);
}

/// What removing a file does to a consistent image: its directory is rewritten with
/// one entry less, its blocks are freed, and the superblock and the bitmaps are
/// written.
pub proof fn lemma_file_removed(
    before: &FS,
    unlinked: &FS,
    released: &FS,
    after: &FS,
    path: Seq<u8>,
    name: Seq<u8>,
    old_inode: InodeView,
    new_inode: InodeView,
    entries: Seq<(Seq<u8>, u32)>,
)
    requires
        before.consistent(),
        before.wf_core(),
        before.spec_file_inode(path, name) is Ok,
        spec_inode_at(
            before.image@,
            before.groups@.len() as int,
            before.spec_directory(path)->Ok_0.1 as int,
        ) == Ok::<InodeView, FsError>(old_inode),
        unlinked.wf_core(),
        unlinked.lookup_table == before.lookup_table,
        unlinked.groups@.len() >= before.groups@.len(),
        rewritten(before, unlinked, old_inode, new_inode),
        new_inode.block_index == old_inode.block_index,
        spec_inode_at(unlinked.image@, unlinked.groups@.len() as int, new_inode.block_index as int)
            == Ok::<InodeView, FsError>(new_inode),
        object_sound(unlinked.spec_bits(), new_inode),
        is_sorted(entries),
        entries.len() <= usize::MAX,
        forall|i: int| 0 <= i < entries.len() ==> (#[trigger] entries[i]).0.len() <= usize::MAX,
        spec_payload(unlinked.image@, unlinked.lookup_table@, new_inode) == spec_record_bytes(
            entries,
            spec_record_checksum(entries, false),
            false,
        ),
        as_map(entries) == as_map(before.spec_directory(path)->Ok_0.0).remove(name),
        released.wf_core(),
        released.lookup_table == before.lookup_table,
        released.groups@.len() == unlinked.groups@.len(),
        released.image@ == unlinked.image@,
        forall|b: int|
            is_block_of_image(unlinked.groups@.len() as int, b) ==> #[trigger] is_allocated(
                released.spec_bits(),
                b,
            ) == (is_allocated(unlinked.spec_bits(), b) && !owns(
                before.spec_file_inode(path, name)->Ok_0,
                b,
            )),
        synced(released, after),
    ensures
        after.consistent(),
        after.spec_directories() == before.spec_directories(),
        after.spec_files() == before.spec_files().remove((path, name)),
        before.spec_inode(ObjectRef::Directory(path)) == Ok::<InodeView, FsError>(old_inode),
        after.spec_inode(ObjectRef::Directory(path)) == Ok::<InodeView, FsError>(new_inode),
        is_allocated(released.spec_bits(), 2),
        object_sound(before.spec_bits(), old_inode),
        object_sound(unlinked.spec_bits(), before.spec_file_inode(path, name)->Ok_0),
        after.spec_directory(path) == Ok::<(Seq<(Seq<u8>, u32)>, u32), FsError>(
            (entries, before.spec_directory(path)->Ok_0.1),
        ),
{
    let directory = ObjectRef::Directory(path);
    assert(before.spec_live(directory));
    lemma_live_inode(before, directory);
    lemma_holds_entries(unlinked, new_inode, entries, false);
    lemma_file_unlinked(before, unlinked, path, name, new_inode, entries);
    lemma_file_unlinked_object(before, unlinked, path, name, new_inode, entries, directory);
    let gone = before.spec_file_inode(path, name)->Ok_0;
    assert forall|b: int| #[trigger]
        is_allocated(unlinked.spec_bits(), b) && !owns(gone, b) implies is_allocated(
        released.spec_bits(),
        b,
    ) by {}
    lemma_rewritten_directory(before, unlinked, path, new_inode, entries);
    lemma_spare_discarded(unlinked, released, gone);
    lemma_root_allocated(released);
    lemma_unchanged_object(unlinked, released, directory);
    lemma_unchanged_directory(unlinked, released, path);
    lemma_synced(released, after);
    lemma_unchanged_object(released, after, directory);
    lemma_unchanged_directory(released, after, path);
}

/// An image whose index is empty, with an index inode that holds its payload itself in
/// a block that is allocated, is consistent and has no directory and no file.
pub proof fn lemma_initial(fs: &FS)
    requires
        fs.wf_core(),
        fs.spec_index() == Ok::<Seq<(Seq<u8>, u32)>, FsError>(Seq::empty()),
        fs.spec_inode(ObjectRef::Index)->Ok_0.data is Raw,
        is_allocated(fs.spec_bits(), 2),
    ensures
        fs.consistent(),
        fs.spec_directories() == Set::<Seq<u8>>::empty(),
        fs.spec_files() == Map::<(Seq<u8>, Seq<u8>), Seq<u8>>::empty(),
{
    lemma_empty_map();
    let inode = fs.spec_inode(ObjectRef::Index)->Ok_0;
    assert(data_blocks(inode.data) =~= Seq::<int>::empty());
    assert(object_sound(fs.spec_bits(), inode)) by {
        reveal(object_sound);
    }
    assert forall|object: ObjectRef| #[trigger] fs.spec_live(object) implies object
        == ObjectRef::Index by {}
    lemma_consistent(fs);
    assert(fs.spec_directories() =~= Set::<Seq<u8>>::empty());
    assert(fs.spec_files() =~= Map::<(Seq<u8>, Seq<u8>), Seq<u8>>::empty());
}

/// The image of a filesystem opens again: the checks of opening pass on it and find
/// its superblock and its bitmaps.
pub proof fn lemma_image_opens(fs: &FS)
    requires
        fs.wf(),
    ensures
        spec_open(fs.image@) == Ok::<Superblock, FsError>(fs.superblock),
        spec_image_bits(fs.image@, fs.groups@.len() as int) == fs.spec_bits(),
{
    let image = fs.image@;
    let rest = image.subrange(51, image.len() as int);
    assert(image =~= fs.superblock.spec_serialize() + rest) by {
        lemma_superblock_parse_serialized(fs.superblock, rest);
        assert(image.subrange(0, 51) == fs.superblock.spec_serialize());
    }
    lemma_superblock_round_trip(fs.superblock, rest);
    let loaded = spec_image_bits(image, fs.groups@.len() as int);
    assert forall|g: int| 0 <= g < fs.groups@.len() implies loaded[g] == fs.spec_bits()[g] by {
        assert(fs.groups@[g].wf());
        lemma_unpack_packed(fs.groups@[g]@);
    }
    assert(loaded =~= fs.spec_bits());
}

/// A filesystem that was opened from the image of another, with the same keystream
/// table, has the superblock and the bitmaps of the other, is consistent if the other
/// is, and holds the same directories and files.
pub proof fn lemma_reopened(fs: &FS, reopened: &FS)
    requires
        fs.wf(),
        reopened.wf(),
        reopened.image@ == fs.image@,
        reopened.lookup_table@ == fs.lookup_table@,
    ensures
        reopened.superblock == fs.superblock,
        reopened.spec_bits() == fs.spec_bits(),
        fs.consistent() ==> reopened.consistent(),
        reopened.spec_directories() == fs.spec_directories(),
        reopened.spec_files() == fs.spec_files(),
{
    lemma_image_opens(fs);
    lemma_image_opens(reopened);
    assert(reopened.groups@.len() == fs.groups@.len());
    assert(reopened.spec_bits() == fs.spec_bits());
    assert forall|object: ObjectRef|
        #![trigger reopened.spec_live(object)]
        #![trigger reopened.spec_inode(object)]
        reopened.spec_live(object) == fs.spec_live(object) && reopened.spec_inode(object)
            == fs.spec_inode(object) && reopened.spec_readable(object) == fs.spec_readable(
            object,
        ) by {}
    if fs.consistent() {
        assert forall|object: ObjectRef| #[trigger]
            reopened.spec_live(object) implies reopened.spec_readable(object) && object_sound(
            reopened.spec_bits(),
            reopened.spec_inode(object)->Ok_0,
        ) by {
            lemma_live_inode(fs, object);
        }
        assert forall|first: ObjectRef, second: ObjectRef|
            #![trigger reopened.spec_live(first), reopened.spec_live(second)]
            reopened.spec_live(first) && reopened.spec_live(second) && first
                != second implies disjoint(
            reopened.spec_inode(first)->Ok_0,
            reopened.spec_inode(second)->Ok_0,
        ) by {
            lemma_live_disjoint(fs, first, second);
        }
        lemma_consistent(reopened);
    }
    assert(reopened.spec_directories() =~= fs.spec_directories());
    assert(reopened.spec_files() =~= fs.spec_files());
}

/// A file that a consistent image holds reads as the payload that the image holds for
/// it.
pub proof fn lemma_file_reads(fs: &FS, path: Seq<u8>, name: Seq<u8>)
    requires
        fs.consistent(),
        fs.spec_files().contains_key((path, name)),
    ensures
        fs.spec_file_data(path, name) == Ok::<Seq<u8>, FsError>(fs.spec_files()[(path, name)]),
{
    assert(fs.spec_live(ObjectRef::File(path, name)));
    lemma_live_inode(fs, ObjectRef::File(path, name));
}

/// A file of a consistent image does not hold the block of the directory index.
pub proof fn lemma_file_not_index(fs: &FS, path: Seq<u8>, name: Seq<u8>)
    requires
        fs.consistent(),
        fs.spec_file_inode(path, name) is Ok,
    ensures
        !owns(fs.spec_file_inode(path, name)->Ok_0, 2),
{
    let file = ObjectRef::File(path, name);
    assert(fs.spec_live(file));
    assert(fs.spec_live(ObjectRef::Index));
    lemma_live_inode(fs, ObjectRef::Index);
    lemma_live_disjoint(fs, ObjectRef::Index, file);
    reveal(disjoint);
    assert(owns(fs.spec_inode(ObjectRef::Index)->Ok_0, 2));
}

/// Appending a group, and then writing the superblock and the bitmaps, keeps every
/// allocated block, and with it what a consistent image holds.
pub proof fn lemma_group_added(before: &FS, pushed: &FS, after: &FS, bitmap: Seq<bool>)
    requires
        before.wf_core(),
        pushed.wf_core(),
        after.wf_core(),
        pushed.lookup_table == before.lookup_table,
        after.lookup_table == before.lookup_table,
        pushed.spec_bits() == before.spec_bits().push(bitmap),
        pushed.image@.len() >= before.image@.len(),
        forall|p: int|
            0 <= p < before.image@.len() ==> pushed.image@[p] == before.image@[p],
        after.spec_bits() == pushed.spec_bits(),
        after.keeps_allocated(pushed),
    ensures
        after.keeps_allocated(before),
        after.holds_what(before),
{
    assert forall|b: int| #[trigger] is_allocated(before.spec_bits(), b) implies is_allocated(
        after.spec_bits(),
        b,
    ) && spec_block(after.image@, b) == spec_block(before.image@, b) by {
        lemma_address_of_coordinates(b);
        assert(pushed.spec_bits()[spec_group_of(b)] == before.spec_bits()[spec_group_of(b)]);
        assert(is_allocated(pushed.spec_bits(), b));
        assert(spec_block(pushed.image@, b) =~= spec_block(before.image@, b));
    }
    if before.consistent() {
        lemma_kept(before, after);
    }
}

/// A directory can be made where the index can be read and does not list it, a block
/// is free or a group can be appended, and the longer index is at most 4047 bytes
/// long.
pub proof fn lemma_directory_fits(fs: &FS, path: Seq<u8>)
    requires
        fs.spec_index() is Ok,
        !as_map(fs.spec_index()->Ok_0).contains_key(path),
        spec_can_allocate(fs.spec_bits()),
        fs.wf_core(),
        spec_record_len(fs.spec_index()->Ok_0, true) + spec_entry_len(path.len() as int, true) <= 4047,
    ensures
        fs.spec_create_directory(path) is Ok,
{
    lemma_small_creation(fs.spec_bits(), 12);
}

/// A payload of at most 4047 bytes can be stored in a file that is there where its
/// directory and its inode can be read. It can be stored as a new file where the
/// directory can be read, a block is free or a group can be appended, and the longer
/// directory is at most 4047 bytes long.
pub proof fn lemma_file_fits(fs: &FS, path: Seq<u8>, name: Seq<u8>, len: int)
    requires
        len <= 4047,
        fs.wf_core(),
        fs.spec_directory(path) is Ok,
        if as_map(fs.spec_directory(path)->Ok_0.0).contains_key(name) {
            fs.spec_file_inode(path, name) is Ok
        } else {
            spec_can_allocate(fs.spec_bits()) && spec_record_len(fs.spec_directory(path)->Ok_0.0, false)
                + spec_entry_len(name.len() as int, false) <= 4047
        },
    ensures
        fs.spec_add_file(path, name, len) is Ok,
{
    if !as_map(fs.spec_directory(path)->Ok_0.0).contains_key(name) {
        lemma_small_creation(fs.spec_bits(), len);
    }
}

/// A file can be removed where its inode can be read and the shorter directory is at
/// most 4047 bytes long.
pub proof fn lemma_removal_fits(fs: &FS, path: Seq<u8>, name: Seq<u8>)
    requires
        fs.spec_file_inode(path, name) is Ok,
        spec_record_len(fs.spec_directory(path)->Ok_0.0, false) - spec_entry_len(
            name.len() as int,
            false,
        ) <= 4047,
    ensures
        fs.spec_remove_file(path, name) is Ok,
{
}

} // verus!
