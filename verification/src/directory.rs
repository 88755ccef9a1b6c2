//! The directory index, which maps each directory path to the inode of its directory,
//! and the directory, which maps each file name to the inode of its file.

use vstd::prelude::*;
use vstd::bytes::*;
use vstd::string::*;
use crate::codec::{get_u32, get_u64, put_u32, put_u64, spec_get_u32, spec_get_u64};
use crate::error::FsError;
use crate::names::{spec_entry_len, is_sorted, lemma_entries_round_trip, NameMap, spec_entries_bytes, spec_parse_entries};
use crate::util::{calculate_checksum, crc32};

verus! {

/// The serialised form of a map with its checksum: the 64-bit number of entries, the
/// entries in order, and the 32-bit checksum.
pub open spec fn spec_record_bytes(entries: Seq<(Seq<u8>, u32)>, checksum: u32, tagged: bool) -> Seq<
    u8,
> {
    spec_u64_to_le_bytes(entries.len() as u64) + spec_entries_bytes(entries, tagged)
        + spec_u32_to_le_bytes(checksum)
}

/// Number of bytes of the serialised form of a map with its checksum.
pub open spec fn spec_record_len(entries: Seq<(Seq<u8>, u32)>, tagged: bool) -> int {
    12 + spec_entries_bytes(entries, tagged).len() as int
}

/// The serialised form of a map is 12 bytes longer than its serialised entries.
pub proof fn lemma_record_len(entries: Seq<(Seq<u8>, u32)>, checksum: u32, tagged: bool)
    ensures
        spec_record_bytes(entries, checksum, tagged).len() == spec_record_len(entries, tagged),
{
    lemma_auto_spec_u32_to_from_le_bytes();
    lemma_auto_spec_u64_to_from_le_bytes();
}

/// The checksum of a map: the CRC-32 of its serialised form with 0 for the checksum.
pub open spec fn spec_record_checksum(entries: Seq<(Seq<u8>, u32)>, tagged: bool) -> u32 {
    crc32(spec_record_bytes(entries, 0, tagged))
}

/// The entries and the checksum that `bytes` hold, if `bytes` are a serialised map
/// and nothing else.
pub open spec fn spec_parse_record(bytes: Seq<u8>, tagged: bool) -> Option<
    (Seq<(Seq<u8>, u32)>, u32),
> {
    match spec_get_u64(bytes, 0) {
        None => None,
        Some(count) => match spec_parse_entries(bytes, 8, count as nat, tagged) {
            None => None,
            Some((entries, end)) => if end + 4 == bytes.len() {
                Some((entries, spec_get_u32(bytes, end).unwrap()))
            } else {
                None
            },
        },
    }
}

/// The entries that `bytes` hold, if `bytes` are the serialised form of a sorted map
/// with its own checksum.
pub open spec fn spec_read_record(bytes: Seq<u8>, tagged: bool) -> Option<Seq<(Seq<u8>, u32)>> {
    match spec_parse_record(bytes, tagged) {
        None => None,
        Some((entries, checksum)) => if is_sorted(entries) && checksum == spec_record_checksum(
            entries,
            tagged,
        ) {
            Some(entries)
        } else {
            None
        },
    }
}

/// Serialises a map with `checksum` as its checksum.
fn record_bytes(map: &NameMap, checksum: u32, tagged: bool) -> (bytes: Vec<u8>)
    ensures
        bytes@ == spec_record_bytes(map.spec_entries(), checksum, tagged),
{
    let mut bytes: Vec<u8> = Vec::new();
    put_u64(&mut bytes, map.len() as u64);
    map.serialize_into(&mut bytes, tagged);
    put_u32(&mut bytes, checksum);
    assert(bytes@ =~= spec_record_bytes(map.spec_entries(), checksum, tagged));
    bytes
}

/// The checksum that belongs to a map.
fn record_checksum(map: &NameMap, tagged: bool) -> (sum: u32)
    ensures
        sum == spec_record_checksum(map.spec_entries(), tagged),
{
    let bytes = record_bytes(map, 0, tagged);
    calculate_checksum(bytes.as_slice())
}

/// Reads a map with its checksum; `None` exactly when `bytes` are not the serialised
/// form of a sorted map with its own checksum.
fn read_record(bytes: &[u8], tagged: bool) -> (read: Option<(NameMap, u32)>)
    ensures
        match read {
            Some((map, checksum)) => {
                &&& spec_read_record(bytes@, tagged) == Some(map.spec_entries())
                &&& map.wf()
                &&& checksum == spec_record_checksum(map.spec_entries(), tagged)
            },
            None => spec_read_record(bytes@, tagged).is_none(),
        },
{
    let count = match get_u64(bytes, 0) {
        Some(count) => count,
        None => {
            return None;
        },
    };
    let (map, end) = match NameMap::parse(bytes, 8, count, tagged) {
        Some(parsed) => parsed,
        None => {
            return None;
        },
    };
    if bytes.len() < 4 || end != bytes.len() - 4 {
        return None;
    }
    let checksum = get_u32(bytes, end).unwrap();
    if !map.check_sorted() {
        return None;
    }
    if checksum != record_checksum(&map, tagged) {
        return None;
    }
    Some((map, checksum))
}

/// A serialised map parses back to its entries and its checksum.
pub proof fn lemma_record_round_trip(entries: Seq<(Seq<u8>, u32)>, checksum: u32, tagged: bool)
    requires
        entries.len() <= u64::MAX,
        forall|i: int| 0 <= i < entries.len() ==> entries[i].0.len() <= u64::MAX,
    ensures
        spec_parse_record(spec_record_bytes(entries, checksum, tagged), tagged) == Some(
            (entries, checksum),
        ),
{
    lemma_auto_spec_u32_to_from_le_bytes();
    lemma_auto_spec_u64_to_from_le_bytes();
    let head = spec_u64_to_le_bytes(entries.len() as u64);
    let tail = spec_u32_to_le_bytes(checksum);
    let whole = spec_record_bytes(entries, checksum, tagged);
    assert(whole.subrange(0, 8) =~= head);
    lemma_entries_round_trip(head, entries, tail, tagged);
    let end = 8 + spec_entries_bytes(entries, tagged).len() as int;
    assert(whole.subrange(end, end + 4) =~= tail);
}

/// The contents of one directory: the inode of each file, by file name.
#[derive(Debug)]
pub struct Directory {
    /// The files, ordered by name.
    pub files: NameMap,
    /// CRC-32 of the serialised directory with this field set to 0, as of the last time
    /// it was set.
    pub checksum: u32,
}

impl View for Directory {
    type V = Map<Seq<u8>, u32>;

    /// The inode address of each file, by the bytes of its name.
    open spec fn view(&self) -> Map<Seq<u8>, u32> {
        self.files@
    }
}

impl Directory {
    /// Whether the files are in strictly increasing byte order of their names.
    pub open spec fn wf(&self) -> bool {
        self.files.wf()
    }

    /// The serialised form.
    pub open spec fn spec_serialize(&self) -> Seq<u8> {
        spec_record_bytes(self.files.spec_entries(), self.checksum, false)
    }

    /// The checksum that belongs to the files.
    pub open spec fn spec_checksum(&self) -> u32 {
        spec_record_checksum(self.files.spec_entries(), false)
    }

    /// A directory without files, with its checksum.
    pub fn init() -> (directory: Self)
        ensures
            directory.wf(),
            directory@ == Map::<Seq<u8>, u32>::empty(),
            directory.files.spec_entries() == Seq::<(Seq<u8>, u32)>::empty(),
            directory.checksum == directory.spec_checksum(),
    {
        let mut directory = Directory { files: NameMap::new(), checksum: 0 };
        directory.checksum();
        directory
    }

    /// The inode address of the file `file_name`, if the directory has that file.
    pub fn get_file(&self, file_name: &str) -> (found: Option<u32>)
        requires
            self.wf(),
        ensures
            found == (if self@.contains_key(file_name.spec_bytes()) {
                Some(self@[file_name.spec_bytes()])
            } else {
                None::<u32>
            }),
    {
        self.files.get(file_name.as_bytes())
    }

    /// Adds the file `file_name` with its inode address. Fails with `AlreadyExists`,
    /// leaving the directory as it was, exactly when the directory has that file.
    pub fn add_file(&mut self, file_name: &str, inode_block_index: u32) -> (done: Result<
        (),
        FsError,
    >)
        requires
            old(self).wf(),
        ensures
            final(self).wf(),
            final(self).checksum == old(self).checksum,
            match done {
                Ok(_) => {
                    &&& !old(self)@.contains_key(file_name.spec_bytes())
                    &&& final(self)@ == old(self)@.insert(file_name.spec_bytes(), inode_block_index)
                    &&& spec_record_len(final(self).files.spec_entries(), false) == spec_record_len(
                        old(self).files.spec_entries(),
                        false,
                    ) + spec_entry_len(file_name.spec_bytes().len() as int, false)
                },
                Err(e) => {
                    &&& e == FsError::AlreadyExists
                    &&& old(self)@.contains_key(file_name.spec_bytes())
                    &&& final(self)@ == old(self)@
                    &&& final(self).files.spec_entries() == old(self).files.spec_entries()
                },
            },
    {
        if self.files.insert(file_name.as_bytes(), inode_block_index) {
            Ok(())
        } else {
            Err(FsError::AlreadyExists)
        }
    }

    /// Removes the file `file_name`. Fails with `NotFound`, leaving the directory as it
    /// was, exactly when the directory has no such file.
    pub fn remove_file(&mut self, file_name: &str) -> (done: Result<(), FsError>)
        requires
            old(self).wf(),
        ensures
            final(self).wf(),
            final(self).checksum == old(self).checksum,
            final(self)@ == old(self)@.remove(file_name.spec_bytes()),
            match done {
                Ok(_) => {
                    &&& old(self)@.contains_key(file_name.spec_bytes())
                    &&& spec_record_len(old(self).files.spec_entries(), false) == spec_record_len(
                        final(self).files.spec_entries(),
                        false,
                    ) + spec_entry_len(file_name.spec_bytes().len() as int, false)
                },
                Err(e) => {
                    &&& e == FsError::NotFound
                    &&& !old(self)@.contains_key(file_name.spec_bytes())
                    &&& final(self).files.spec_entries() == old(self).files.spec_entries()
                },
            },
    {
        match self.files.remove(file_name.as_bytes()) {
            Some(_) => Ok(()),
            None => Err(FsError::NotFound),
        }
    }

    /// Sets the checksum to that of the files.
    pub fn checksum(&mut self)
        ensures
            final(self).files == old(self).files,
            final(self).checksum == old(self).spec_checksum(),
    {
        self.checksum = 0;
        self.checksum = record_checksum(&self.files, false);
    }

    /// Whether the checksum is that of the files.
    pub fn verify_checksum(&mut self) -> (ok: bool)
        ensures
            final(self).files == old(self).files,
            final(self).checksum == old(self).checksum,
            ok == (old(self).checksum == old(self).spec_checksum()),
    {
        let checksum = self.checksum;
        self.checksum = 0;
        let ok = checksum == record_checksum(&self.files, false);
        self.checksum = checksum;
        ok
    }

    /// Sets the checksum and returns the serialised directory.
    pub fn serialize(&mut self) -> (bytes: Vec<u8>)
        ensures
            final(self).files == old(self).files,
            final(self).checksum == old(self).spec_checksum(),
            bytes@ == final(self).spec_serialize(),
    {
        self.checksum();
        record_bytes(&self.files, self.checksum, false)
    }

    /// Reads a directory. Fails with `ChecksumMismatch` exactly when `bytes` are not
    /// the serialised form of a directory with sorted names and its own checksum.
    pub fn deserialize(bytes: &[u8]) -> (loaded: Result<Self, FsError>)
        ensures
            match loaded {
                Ok(directory) => {
                    &&& spec_read_record(bytes@, false) == Some(directory.files.spec_entries())
                    &&& directory.wf()
                    &&& directory.checksum == directory.spec_checksum()
                },
                Err(e) => e == FsError::ChecksumMismatch && spec_read_record(bytes@, false).is_none(),
            },
    {
        match read_record(bytes, false) {
            Some((files, checksum)) => Ok(Directory { files, checksum }),
            None => Err(FsError::ChecksumMismatch),
        }
    }
}

/// The root mapping of an image: the inode of each directory, by path.
#[derive(Debug)]
pub struct DirectoryIndex {
    /// The directories, ordered by path.
    pub directories: NameMap,
    /// CRC-32 of the serialised index with this field set to 0, as of the last time it
    /// was set.
    pub checksum: u32,
}

impl View for DirectoryIndex {
    type V = Map<Seq<u8>, u32>;

    /// The inode address of each directory, by the bytes of its path.
    open spec fn view(&self) -> Map<Seq<u8>, u32> {
        self.directories@
    }
}

impl DirectoryIndex {
    /// Whether the directories are in strictly increasing byte order of their paths.
    pub open spec fn wf(&self) -> bool {
        self.directories.wf()
    }

    /// The serialised form. Each path carries the tag of a byte-string path.
    pub open spec fn spec_serialize(&self) -> Seq<u8> {
        spec_record_bytes(self.directories.spec_entries(), self.checksum, true)
    }

    /// The checksum that belongs to the directories.
    pub open spec fn spec_checksum(&self) -> u32 {
        spec_record_checksum(self.directories.spec_entries(), true)
    }

    /// An index without directories, with its checksum.
    pub fn init() -> (index: Self)
        ensures
            index.wf(),
            index@ == Map::<Seq<u8>, u32>::empty(),
            index.directories.spec_entries() == Seq::<(Seq<u8>, u32)>::empty(),
            index.checksum == index.spec_checksum(),
    {
        let mut index = DirectoryIndex { directories: NameMap::new(), checksum: 0 };
        index.checksum();
        index
    }

    /// The inode address of the directory `dir`, if the index has that directory.
    pub fn find_dir(&self, dir: &str) -> (found: Option<u32>)
        requires
            self.wf(),
        ensures
            found == (if self@.contains_key(dir.spec_bytes()) {
                Some(self@[dir.spec_bytes()])
            } else {
                None::<u32>
            }),
    {
        self.directories.get(dir.as_bytes())
    }

    /// Adds the directory `dir` with its inode address and returns that address;
    /// returns `None`, leaving the index as it was, exactly when the index has that
    /// directory.
    pub fn create_dir(&mut self, dir: &str, inode_index: u32) -> (created: Option<u32>)
        requires
            old(self).wf(),
        ensures
            final(self).wf(),
            final(self).checksum == old(self).checksum,
            match created {
                Some(stored) => {
                    &&& stored == inode_index
                    &&& !old(self)@.contains_key(dir.spec_bytes())
                    &&& final(self)@ == old(self)@.insert(dir.spec_bytes(), inode_index)
                    &&& spec_record_len(final(self).directories.spec_entries(), true)
                        == spec_record_len(old(self).directories.spec_entries(), true)
                        + spec_entry_len(dir.spec_bytes().len() as int, true)
                },
                None => {
                    &&& old(self)@.contains_key(dir.spec_bytes())
                    &&& final(self)@ == old(self)@
                    &&& final(self).directories.spec_entries() == old(
                        self,
                    ).directories.spec_entries()
                },
            },
    {
        if self.directories.insert(dir.as_bytes(), inode_index) {
            Some(inode_index)
        } else {
            None
        }
    }

    /// Gives the directory `from` the path `to`. Fails, leaving the index as it was,
    /// with `NotFound` exactly when the index has no directory `from`, and with
    /// `AlreadyExists` exactly when it has `from` and also has `to`.
    pub fn move_dir(&mut self, from: &str, to: &str) -> (done: Result<(), FsError>)
        requires
            old(self).wf(),
        ensures
            final(self).wf(),
            final(self).checksum == old(self).checksum,
            match done {
                Ok(_) => {
                    &&& old(self)@.contains_key(from.spec_bytes())
                    &&& !old(self)@.contains_key(to.spec_bytes())
                    &&& final(self)@ == old(self)@.remove(from.spec_bytes()).insert(
                        to.spec_bytes(),
                        old(self)@[from.spec_bytes()],
                    )
                },
                Err(e) => {
                    &&& final(self)@ == old(self)@
                    &&& e == FsError::NotFound || e == FsError::AlreadyExists
                    &&& e == FsError::NotFound <==> !old(self)@.contains_key(from.spec_bytes())
                    &&& e == FsError::AlreadyExists ==> old(self)@.contains_key(to.spec_bytes())
                },
            },
    {
        if self.find_dir(from).is_none() {
            return Err(FsError::NotFound);
        }
        if self.find_dir(to).is_some() {
            return Err(FsError::AlreadyExists);
        }
        match self.directories.remove(from.as_bytes()) {
            Some(inode_index) => {
                let inserted = self.directories.insert(to.as_bytes(), inode_index);
                assert(inserted);
                Ok(())
            },
            None => Err(FsError::NotFound),
        }
    }

    /// The directories, ordered by path.
    pub fn directories(&self) -> (directories: &NameMap)
        ensures
            *directories == self.directories,
    {
        &self.directories
    }

    /// Sets the checksum to that of the directories.
    pub fn checksum(&mut self)
        ensures
            final(self).directories == old(self).directories,
            final(self).checksum == old(self).spec_checksum(),
    {
        self.checksum = 0;
        self.checksum = record_checksum(&self.directories, true);
    }

    /// Whether the checksum is that of the directories.
    pub fn verify_checksum(&mut self) -> (ok: bool)
        ensures
            final(self).directories == old(self).directories,
            final(self).checksum == old(self).checksum,
            ok == (old(self).checksum == old(self).spec_checksum()),
    {
        let checksum = self.checksum;
        self.checksum = 0;
        let ok = checksum == record_checksum(&self.directories, true);
        self.checksum = checksum;
        ok
    }

    /// Sets the checksum and returns the serialised index.
    pub fn serialize(&mut self) -> (bytes: Vec<u8>)
        ensures
            final(self).directories == old(self).directories,
            final(self).checksum == old(self).spec_checksum(),
            bytes@ == final(self).spec_serialize(),
    {
        self.checksum();
        record_bytes(&self.directories, self.checksum, true)
    }

    /// Reads a directory index. Fails with `ChecksumMismatch` exactly when `bytes` are
    /// not the serialised form of an index with sorted paths and its own checksum.
    pub fn deserialize(bytes: &[u8]) -> (loaded: Result<Self, FsError>)
        ensures
            match loaded {
                Ok(index) => {
                    &&& spec_read_record(bytes@, true) == Some(index.directories.spec_entries())
                    &&& index.wf()
                    &&& index.checksum == index.spec_checksum()
                },
                Err(e) => e == FsError::ChecksumMismatch && spec_read_record(bytes@, true).is_none(),
            },
    {
        match read_record(bytes, true) {
            Some((directories, checksum)) => Ok(DirectoryIndex { directories, checksum }),
            None => Err(FsError::ChecksumMismatch),
        }
    }
}

/// A serialised sorted map that carries its own checksum reads back as its entries.
pub proof fn lemma_read_serialized_record(entries: Seq<(Seq<u8>, u32)>, tagged: bool)
    requires
        is_sorted(entries),
        entries.len() <= u64::MAX,
        forall|i: int| 0 <= i < entries.len() ==> entries[i].0.len() <= u64::MAX,
    ensures
        spec_read_record(
            spec_record_bytes(entries, spec_record_checksum(entries, tagged), tagged),
            tagged,
        ) == Some(entries),
{
    lemma_record_round_trip(entries, spec_record_checksum(entries, tagged), tagged);
}

} // verus!
