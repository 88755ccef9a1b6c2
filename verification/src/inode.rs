//! The inode: the record, one block long at most, that describes one stored object and
//! holds either its payload or the regions where its payload lies.

use vstd::prelude::*;
use vstd::bytes::*;
use crate::codec::{copy_range, get_u32, get_u64, put_bytes, put_u32, put_u64, spec_get_u32, spec_get_u64};
use crate::error::FsError;
use crate::layout::{INODE_CAPACITY, INODE_MAX_REGION};
use crate::util::{calculate_checksum, crc32, now};

verus! {

/// Number of bytes of a serialised inode before its payload or its regions.
pub const INODE_HEADER_LEN: usize = 44;

/// Where the payload of an object is.
#[derive(Debug)]
pub enum Data {
    /// The payload itself, obfuscated, for payloads that fit into the inode.
    Raw(Vec<u8>),
    /// The regions that hold the payload, each as (address of first block, number of
    /// blocks), in payload order.
    DirectPointers(Vec<(u32, u32)>),
}

/// The mathematical value of a `Data`.
pub enum DataView {
    Raw(Seq<u8>),
    DirectPointers(Seq<(u32, u32)>),
}

impl View for Data {
    type V = DataView;

    open spec fn view(&self) -> DataView {
        match self {
            Data::Raw(bytes) => DataView::Raw(bytes@),
            Data::DirectPointers(pointers) => DataView::DirectPointers(pointers@),
        }
    }
}

impl Default for Data {
    fn default() -> (data: Self)
        ensures
            data@ == DataView::Raw(Seq::<u8>::empty()),
    {
        Data::Raw(Vec::new())
    }
}

/// The metadata of one stored object.
#[derive(Debug)]
pub struct Inode {
    /// Address of the block that holds this inode.
    pub block_index: u32,
    /// When the object was made, in seconds since the Unix epoch.
    pub created: u64,
    /// When the inode was last written, in seconds since the Unix epoch.
    pub last_modified: u64,
    /// Length of the payload in bytes.
    pub size: u64,
    /// Checksum field of the record; it is stored as it is and not maintained.
    pub data_checksum: u32,
    /// The payload or its regions.
    pub data: Data,
}

/// The mathematical value of an `Inode`.
pub struct InodeView {
    pub block_index: u32,
    pub created: u64,
    pub last_modified: u64,
    pub size: u64,
    pub data_checksum: u32,
    pub data: DataView,
}

impl View for Inode {
    type V = InodeView;

    open spec fn view(&self) -> InodeView {
        InodeView {
            block_index: self.block_index,
            created: self.created,
            last_modified: self.last_modified,
            size: self.size,
            data_checksum: self.data_checksum,
            data: self.data@,
        }
    }
}

/// The serialised form of a list of regions: for each, its address and its length.
pub open spec fn spec_pointers_bytes(pointers: Seq<(u32, u32)>) -> Seq<u8> {
    Seq::new(
        8 * pointers.len(),
        |i: int|
            if i % 8 < 4 {
                spec_u32_to_le_bytes(pointers[i / 8].0)[i % 8]
            } else {
                spec_u32_to_le_bytes(pointers[i / 8].1)[i % 8 - 4]
            },
    )
}

impl DataView {
    /// Whether the data respects the limits of an inode: at most 4047 bytes inside
    /// it, at most 500 regions.
    pub open spec fn wf(&self) -> bool {
        match self {
            DataView::Raw(bytes) => bytes.len() <= 4047,
            DataView::DirectPointers(pointers) => pointers.len() <= 500,
        }
    }

    /// The serialised form: a 32-bit tag, 0 for a payload and 1 for regions, then
    /// the 64-bit number of items, then the items.
    pub open spec fn spec_serialize(&self) -> Seq<u8> {
        match self {
            DataView::Raw(bytes) => spec_u32_to_le_bytes(0) + spec_u64_to_le_bytes(
                bytes.len() as u64,
            ) + *bytes,
            DataView::DirectPointers(pointers) => spec_u32_to_le_bytes(1) + spec_u64_to_le_bytes(
                pointers.len() as u64,
            ) + spec_pointers_bytes(*pointers),
        }
    }
}

impl InodeView {
    /// Whether the inode respects the limits on its data.
    pub open spec fn wf(&self) -> bool {
        self.data.wf()
    }

    /// The serialised form: the fields in order, each little-endian at its fixed
    /// width, then the data.
    pub open spec fn spec_serialize(&self) -> Seq<u8> {
        spec_u32_to_le_bytes(self.block_index) + spec_u64_to_le_bytes(self.created)
            + spec_u64_to_le_bytes(self.last_modified) + spec_u64_to_le_bytes(self.size)
            + spec_u32_to_le_bytes(self.data_checksum) + self.data.spec_serialize()
    }

    /// The data that `bytes` hold from byte 32 on, if they hold data within the
    /// limits of an inode.
    pub open spec fn spec_parse_data(bytes: Seq<u8>) -> Option<DataView> {
        if bytes.len() < 44 {
            None
        } else {
            let tag = spec_get_u32(bytes, 32).unwrap();
            let count = spec_get_u64(bytes, 36).unwrap();
            if tag == 0 && count <= 4047 && 44 + count <= bytes.len() {
                Some(DataView::Raw(bytes.subrange(44, 44 + count)))
            } else if tag == 1 && count <= 500 && 44 + 8 * count <= bytes.len() {
                Some(
                    DataView::DirectPointers(
                        Seq::new(
                            count as nat,
                            |j: int|
                                (
                                    spec_get_u32(bytes, 44 + 8 * j).unwrap(),
                                    spec_get_u32(bytes, 48 + 8 * j).unwrap(),
                                ),
                        ),
                    ),
                )
            } else {
                None
            }
        }
    }

    /// The inode that `bytes` start with, if they start with one.
    pub open spec fn spec_parse(bytes: Seq<u8>) -> Option<InodeView> {
        match Self::spec_parse_data(bytes) {
            Some(data) => Some(
                InodeView {
                    block_index: spec_get_u32(bytes, 0).unwrap(),
                    created: spec_get_u64(bytes, 4).unwrap(),
                    last_modified: spec_get_u64(bytes, 12).unwrap(),
                    size: spec_get_u64(bytes, 20).unwrap(),
                    data_checksum: spec_get_u32(bytes, 28).unwrap(),
                    data,
                },
            ),
            None => None,
        }
    }
}

impl Inode {
    /// Whether the inode respects the limits on its data.
    pub open spec fn wf(&self) -> bool {
        self@.wf()
    }

    /// An inode for the block at `block_index`, stamped with the current time, with
    /// an empty payload.
    pub fn new(block_index: u32) -> (inode: Self)
        ensures
            inode.block_index == block_index,
            inode.size == 0,
            inode.data_checksum == crc32(Seq::<u8>::empty()),
            inode.data@ == DataView::Raw(Seq::<u8>::empty()),
            inode.wf(),
    {
        let nothing: Vec<u8> = Vec::new();
        Self {
            block_index,
            created: now(),
            last_modified: now(),
            size: 0,
            data_checksum: calculate_checksum(nothing.as_slice()),
            data: Data::Raw(Vec::new()),
        }
    }

    /// Appends the serialised inode, which is at most one block long, to `w`.
    pub fn serialize_into(&self, w: &mut Vec<u8>)
        requires
            self.wf(),
        ensures
            final(w)@ == old(w)@ + self@.spec_serialize(),
            self@.spec_serialize().len() <= 4096,
    {
        proof {
            lemma_auto_spec_u32_to_from_le_bytes();
            lemma_auto_spec_u64_to_from_le_bytes();
        }
        let ghost start = w@;
        put_u32(w, self.block_index);
        put_u64(w, self.created);
        put_u64(w, self.last_modified);
        put_u64(w, self.size);
        put_u32(w, self.data_checksum);
        let ghost header = w@;
        match &self.data {
            Data::Raw(bytes) => {
                put_u32(w, 0);
                put_u64(w, bytes.len() as u64);
                put_bytes(w, bytes.as_slice());
                assert(w@ =~= start + self@.spec_serialize());
            },
            Data::DirectPointers(pointers) => {
                put_u32(w, 1);
                put_u64(w, pointers.len() as u64);
                let ghost front = w@;
                let mut j: usize = 0;
                while j < pointers.len()
                    invariant
                        j <= pointers@.len(),
                        pointers@.len() <= 500,
                        w@ == front + spec_pointers_bytes(pointers@.subrange(0, j as int)),
                    decreases pointers@.len() - j,
                {
                    let ghost so_far = w@;
                    let pointer = pointers[j];
                    put_u32(w, pointer.0);
                    put_u32(w, pointer.1);
                    proof {
                        lemma_auto_spec_u32_to_from_le_bytes();
                        let shorter = pointers@.subrange(0, j as int);
                        let longer = pointers@.subrange(0, j + 1);
                        assert(spec_pointers_bytes(longer) =~= spec_pointers_bytes(shorter)
                            + spec_u32_to_le_bytes(pointer.0) + spec_u32_to_le_bytes(pointer.1));
                        assert(w@ =~= front + spec_pointers_bytes(longer));
                    }
                    j += 1;
                }
                assert(pointers@.subrange(0, j as int) =~= pointers@);
                assert(w@ =~= start + self@.spec_serialize());
            },
        }
    }

    /// Reads an inode from the start of `r`. Fails with `ChecksumMismatch` exactly when
    /// `r` does not start with a serialised inode whose data is within the limits.
    pub fn deserialize_from(r: &[u8]) -> (loaded: Result<Self, FsError>)
        ensures
            match loaded {
                Ok(inode) => InodeView::spec_parse(r@) == Some(inode@) && inode.wf(),
                Err(e) => e == FsError::ChecksumMismatch && InodeView::spec_parse(r@).is_none(),
            },
    {
        if r.len() < INODE_HEADER_LEN {
            return Err(FsError::ChecksumMismatch);
        }
        let block_index = get_u32(r, 0).unwrap();
        let created = get_u64(r, 4).unwrap();
        let last_modified = get_u64(r, 12).unwrap();
        let size = get_u64(r, 20).unwrap();
        let data_checksum = get_u32(r, 28).unwrap();
        let tag = get_u32(r, 32).unwrap();
        let count = get_u64(r, 36).unwrap();
        let available: u64 = (r.len() - INODE_HEADER_LEN) as u64;
        let data = if tag == 0 && count <= INODE_CAPACITY as u64 && count <= available {
            Data::Raw(copy_range(r, INODE_HEADER_LEN, count as usize))
        } else if tag == 1 && count <= INODE_MAX_REGION as u64 && 8 * count <= available {
            let mut pointers: Vec<(u32, u32)> = Vec::new();
            let mut j: usize = 0;
            while j < count as usize
                invariant
                    j <= count,
                    count <= 500,
                    44 + 8 * count <= r@.len(),
                    pointers@.len() == j,
                    forall|k: int|
                        0 <= k < j ==> pointers@[k] == (
                            spec_get_u32(r@, 44 + 8 * k).unwrap(),
                            spec_get_u32(r@, 48 + 8 * k).unwrap(),
                        ),
                decreases count - j,
            {
                let start = get_u32(r, INODE_HEADER_LEN + 8 * j).unwrap();
                let length = get_u32(r, INODE_HEADER_LEN + 8 * j + 4).unwrap();
                pointers.push((start, length));
                j += 1;
            }
            assert(pointers@ =~= Seq::new(
                count as nat,
                |j: int|
                    (spec_get_u32(r@, 44 + 8 * j).unwrap(), spec_get_u32(r@, 48 + 8 * j).unwrap()),
            ));
            Data::DirectPointers(pointers)
        } else {
            return Err(FsError::ChecksumMismatch);
        };
        Ok(Inode { block_index, created, last_modified, size, data_checksum, data })
    }

    /// Stamps the inode with the current time.
    pub fn set_last_modified(&mut self)
        ensures
            final(self)@ == (InodeView { last_modified: final(self).last_modified, ..old(self)@ }),
    {
        self.stamp_last_modified(now());
    }

    /// Stamps the inode as last written at `seconds` since the Unix epoch.
    pub fn stamp_last_modified(&mut self, seconds: u64)
        ensures
            final(self)@ == (InodeView { last_modified: seconds, ..old(self)@ }),
    {
        self.last_modified = seconds;
    }

    /// Makes `data`, which is `data_size` bytes long and fits into the inode, the
    /// payload held inside the inode. Fails with `InvalidArgument`, leaving the inode
    /// as it was, exactly when `data` is not `data_size` bytes long or is longer than
    /// 4047 bytes.
    pub fn set_raw_data(&mut self, data: &[u8], data_size: u64) -> (done: Result<(), FsError>)
        ensures
            match done {
                Ok(_) => {
                    &&& data@.len() == data_size
                    &&& data@.len() <= 4047
                    &&& final(self)@ == (InodeView {
                        size: data_size,
                        data: DataView::Raw(data@),
                        ..old(self)@
                    })
                },
                Err(e) => {
                    &&& e == FsError::InvalidArgument
                    &&& data@.len() != data_size || data@.len() > 4047
                    &&& final(self)@ == old(self)@
                },
            },
    {
        if data.len() as u64 != data_size || data.len() > INODE_CAPACITY {
            return Err(FsError::InvalidArgument);
        }
        self.size = data_size;
        self.data = Data::Raw(copy_range(data, 0, data.len()));
        assert(data@.subrange(0, data@.len() as int) =~= data@);
        Ok(())
    }

    /// Makes `pointers` the regions of the payload, which is `data_size` bytes long.
    pub fn set_direct_pointers(&mut self, pointers: Vec<(u32, u32)>, data_size: u64)
        ensures
            final(self)@ == (InodeView {
                size: data_size,
                data: DataView::DirectPointers(pointers@),
                ..old(self)@
            }),
    {
        self.data = Data::DirectPointers(pointers);
        self.size = data_size;
    }
}

/// A serialised inode within the limits is at most one block long and parses back to
/// the inode it was made from, whatever follows it.
pub proof fn lemma_inode_round_trip(inode: InodeView, rest: Seq<u8>)
    requires
        inode.wf(),
    ensures
        44 <= inode.spec_serialize().len() <= 4096,
        InodeView::spec_parse(inode.spec_serialize() + rest) == Some(inode),
{
    lemma_auto_spec_u32_to_from_le_bytes();
    lemma_auto_spec_u64_to_from_le_bytes();
    let f1 = spec_u32_to_le_bytes(inode.block_index);
    let f2 = f1 + spec_u64_to_le_bytes(inode.created);
    let f3 = f2 + spec_u64_to_le_bytes(inode.last_modified);
    let f4 = f3 + spec_u64_to_le_bytes(inode.size);
    let f5 = f4 + spec_u32_to_le_bytes(inode.data_checksum);
    let whole = inode.spec_serialize() + rest;
    assert(whole.subrange(0, 4) =~= spec_u32_to_le_bytes(inode.block_index));
    assert(whole.subrange(4, 12) =~= spec_u64_to_le_bytes(inode.created));
    assert(whole.subrange(12, 20) =~= spec_u64_to_le_bytes(inode.last_modified));
    assert(whole.subrange(20, 28) =~= spec_u64_to_le_bytes(inode.size));
    assert(whole.subrange(28, 32) =~= spec_u32_to_le_bytes(inode.data_checksum));
    match inode.data {
        DataView::Raw(bytes) => {
            assert(whole.subrange(32, 36) =~= spec_u32_to_le_bytes(0));
            assert(whole.subrange(36, 44) =~= spec_u64_to_le_bytes(bytes.len() as u64));
            assert(whole.subrange(44, 44 + bytes.len() as int) =~= bytes);
        },
        DataView::DirectPointers(pointers) => {
            assert(whole.subrange(32, 36) =~= spec_u32_to_le_bytes(1));
            assert(whole.subrange(36, 44) =~= spec_u64_to_le_bytes(pointers.len() as u64));
            let parsed = Seq::new(
                pointers.len(),
                |j: int|
                    (
                        spec_get_u32(whole, 44 + 8 * j).unwrap(),
                        spec_get_u32(whole, 48 + 8 * j).unwrap(),
                    ),
            );
            assert forall|j: int| 0 <= j < pointers.len() implies parsed[j] == pointers[j] by {
                assert(whole.subrange(44 + 8 * j, 48 + 8 * j) =~= spec_u32_to_le_bytes(
                    pointers[j].0,
                ));
                assert(whole.subrange(48 + 8 * j, 52 + 8 * j) =~= spec_u32_to_le_bytes(
                    pointers[j].1,
                ));
            }
            assert(parsed =~= pointers);
        },
    }
}

} // verus!
