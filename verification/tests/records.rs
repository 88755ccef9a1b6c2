use std::collections::BTreeMap;

use walnut::codec::get_u32;
use walnut::codec::get_u64;
use walnut::codec::put_u32;
use walnut::codec::put_u64;
use walnut::codec::write_at;
use walnut::names::compare_bytes;
use walnut::names::NameMap;
use walnut::Data;
use walnut::Directory;
use walnut::DirectoryIndex;
use walnut::FsError;
use walnut::Inode;
use walnut::Superblock;

fn sample_superblock() -> Superblock {
    Superblock {
        fs_version: 1,
        block_size: 4096,
        group_count: 3,
        block_count: 98_304,
        free_blocks: 98_000,
        file_count: 17,
        created: 1_700_000_000,
        modified: 1_700_000_123,
        checksum: 0,
    }
}

#[test]
fn little_endian_fields() {
    let mut out: Vec<u8> = vec![9];
    put_u32(&mut out, 0x0403_0201);
    put_u64(&mut out, 0x0807_0605_0403_0201);
    assert_eq!(out, vec![9, 1, 2, 3, 4, 1, 2, 3, 4, 5, 6, 7, 8]);
    assert_eq!(get_u32(&out, 1), Some(0x0403_0201));
    assert_eq!(get_u64(&out, 5), Some(0x0807_0605_0403_0201));
    assert_eq!(get_u32(&out, 9), Some(0x0807_0605));
    assert_eq!(get_u32(&out, 10), None);
    assert_eq!(get_u64(&out, 6), None);
    assert_eq!(get_u32(&out, usize::MAX), None);
}

#[test]
fn write_at_overwrites_in_place() {
    let mut target: Vec<u8> = vec![0, 1, 2, 3, 4, 5];
    write_at(&mut target, 2, &[9, 8, 7]);
    assert_eq!(target, vec![0, 1, 9, 8, 7, 5]);
    write_at(&mut target, 6, &[]);
    assert_eq!(target, vec![0, 1, 9, 8, 7, 5]);
}

#[test]
fn superblock_layout_is_bit_exact() {
    let mut superblock = sample_superblock();
    let bytes = superblock.serialize();
    assert_eq!(bytes.len(), 51);
    assert_eq!(&bytes[0..7], b"*bitfs*");
    assert_eq!(&bytes[7..11], &[1, 0, 0, 0]);
    assert_eq!(&bytes[11..15], &[0, 0x10, 0, 0]);
    assert_eq!(&bytes[15..19], &[3, 0, 0, 0]);
    assert_eq!(&bytes[27..31], &[17, 0, 0, 0]);
    assert_eq!(&bytes[31..39], &1_700_000_000u64.to_le_bytes());
    assert_eq!(&bytes[47..51], &superblock.checksum.to_le_bytes());
    let mut zeroed = bytes.clone();
    zeroed[47..51].copy_from_slice(&[0, 0, 0, 0]);
    assert_eq!(superblock.checksum, crc32fast::hash(&zeroed));
}

#[test]
fn superblock_bytes_are_those_of_bincode() {
    let mut superblock = sample_superblock();
    let bytes = superblock.serialize();
    let expected = bincode::serialize(&(
        *b"*bitfs*",
        1u32,
        4096u32,
        3u32,
        98_304u32,
        98_000u32,
        17u32,
        1_700_000_000u64,
        1_700_000_123u64,
        superblock.checksum,
    ))
    .unwrap();
    assert_eq!(bytes, expected);
}

#[test]
fn superblock_round_trip() {
    let mut superblock = sample_superblock();
    let mut bytes: Vec<u8> = Vec::new();
    superblock.serialize_into(&mut bytes);
    bytes.extend_from_slice(&[0xee; 100]);
    let loaded = Superblock::deserialize_from(&bytes).unwrap();
    assert_eq!(loaded, superblock);
    assert_eq!(loaded.group_count, 3);
    assert_eq!(loaded.file_count, 17);
}

#[test]
fn superblock_with_a_flipped_bit_is_corrupt() {
    let mut superblock = sample_superblock();
    let bytes = superblock.serialize();
    for position in [0usize, 7, 16, 30, 40, 50] {
        let mut damaged = bytes.clone();
        damaged[position] ^= 0x10;
        assert_eq!(Superblock::deserialize_from(&damaged).err(), Some(FsError::CorruptSuperblock));
    }
    assert_eq!(Superblock::deserialize_from(&bytes[0..50]).err(), Some(FsError::CorruptSuperblock));
    assert_eq!(Superblock::deserialize_from(&[]).err(), Some(FsError::CorruptSuperblock));
}

#[test]
fn superblock_of_another_version_is_corrupt() {
    let mut superblock = sample_superblock();
    superblock.fs_version = 2;
    let bytes = superblock.serialize();
    assert_eq!(Superblock::deserialize_from(&bytes).err(), Some(FsError::CorruptSuperblock));
    let mut superblock = sample_superblock();
    superblock.block_size = 512;
    let bytes = superblock.serialize();
    assert_eq!(Superblock::deserialize_from(&bytes).err(), Some(FsError::CorruptSuperblock));
}

#[test]
fn superblock_checksum_is_verified() {
    let mut superblock = sample_superblock();
    assert!(!superblock.verify_checksum());
    superblock.checksum();
    assert!(superblock.verify_checksum());
    superblock.file_count += 1;
    assert!(!superblock.verify_checksum());
    let before = superblock;
    superblock.update_modified();
    assert_eq!(superblock.created, before.created);
    assert_eq!(superblock.checksum, before.checksum);
}

#[test]
fn new_superblock_has_no_groups() {
    let superblock = Superblock::new();
    assert_eq!(superblock.fs_version, 1);
    assert_eq!(superblock.block_size, 4096);
    assert_eq!(superblock.group_count, 0);
    assert_eq!(superblock.block_count, 1);
    assert_eq!(superblock.free_blocks, 0);
    assert_eq!(superblock.file_count, 0);
    assert_eq!(superblock.checksum, 0);
}

#[test]
fn new_inode_is_empty() {
    let inode = Inode::new(77);
    assert_eq!(inode.block_index, 77);
    assert_eq!(inode.size, 0);
    assert_eq!(inode.data_checksum, 0);
    assert!(matches!(&inode.data, Data::Raw(bytes) if bytes.is_empty()));
    assert!(matches!(Data::default(), Data::Raw(bytes) if bytes.is_empty()));
}

#[test]
fn inode_with_payload_layout_is_that_of_bincode() {
    let mut inode = Inode::new(5);
    inode.created = 11;
    inode.last_modified = 12;
    assert_eq!(inode.set_raw_data(b"hello", 5), Ok(()));
    let mut bytes: Vec<u8> = Vec::new();
    inode.serialize_into(&mut bytes);
    assert_eq!(bytes.len(), 44 + 5);
    assert_eq!(&bytes[32..36], &[0, 0, 0, 0]);
    assert_eq!(&bytes[36..44], &5u64.to_le_bytes());
    assert_eq!(&bytes[44..], b"hello");
    let data: Result<Vec<u8>, Vec<(u32, u32)>> = Ok(b"hello".to_vec());
    let expected = bincode::serialize(&(5u32, 11u64, 12u64, 5u64, 0u32, data)).unwrap();
    assert_eq!(bytes, expected);
}

#[test]
fn inode_with_regions_layout_is_that_of_bincode() {
    let mut inode = Inode::new(9);
    inode.created = 1;
    inode.last_modified = 2;
    inode.set_direct_pointers(vec![(10, 3), (40, 1)], 16_000);
    let mut bytes: Vec<u8> = Vec::new();
    inode.serialize_into(&mut bytes);
    assert_eq!(bytes.len(), 44 + 16);
    assert_eq!(&bytes[32..36], &[1, 0, 0, 0]);
    assert_eq!(&bytes[44..48], &[10, 0, 0, 0]);
    assert_eq!(&bytes[48..52], &[3, 0, 0, 0]);
    let data: Result<Vec<u8>, Vec<(u32, u32)>> = Err(vec![(10, 3), (40, 1)]);
    let expected = bincode::serialize(&(9u32, 1u64, 2u64, 16_000u64, 0u32, data)).unwrap();
    assert_eq!(bytes, expected);
}

#[test]
fn inode_round_trip() {
    let mut inode = Inode::new(9);
    inode.set_direct_pointers(vec![(10, 3), (40, 1), (32_771, 500)], 2_000_000);
    let mut block: Vec<u8> = Vec::new();
    inode.serialize_into(&mut block);
    block.resize(4096, 0x5a);
    let loaded = Inode::deserialize_from(&block).unwrap();
    assert_eq!(loaded.block_index, 9);
    assert_eq!(loaded.created, inode.created);
    assert_eq!(loaded.last_modified, inode.last_modified);
    assert_eq!(loaded.size, 2_000_000);
    assert!(matches!(&loaded.data, Data::DirectPointers(p) if *p == vec![(10, 3), (40, 1), (32_771, 500)]));

    let mut inode = Inode::new(3);
    let payload: Vec<u8> = (0..4047u32).map(|i| (i % 251) as u8).collect();
    assert_eq!(inode.set_raw_data(&payload, 4047), Ok(()));
    let mut block: Vec<u8> = Vec::new();
    inode.serialize_into(&mut block);
    assert_eq!(block.len(), 4091);
    let loaded = Inode::deserialize_from(&block).unwrap();
    assert_eq!(loaded.size, 4047);
    assert!(matches!(&loaded.data, Data::Raw(bytes) if *bytes == payload));
}

#[test]
fn inode_that_does_not_parse() {
    assert_eq!(Inode::deserialize_from(&[0u8; 43]).err(), Some(FsError::ChecksumMismatch));
    assert!(Inode::deserialize_from(&[0u8; 44]).is_ok());
    let mut block = vec![0u8; 4096];
    block[32] = 2;
    assert_eq!(Inode::deserialize_from(&block).err(), Some(FsError::ChecksumMismatch));
    let mut block = vec![0u8; 4096];
    block[36..44].copy_from_slice(&4048u64.to_le_bytes());
    assert_eq!(Inode::deserialize_from(&block).err(), Some(FsError::ChecksumMismatch));
    let mut block = vec![0u8; 4096];
    block[32] = 1;
    block[36..44].copy_from_slice(&501u64.to_le_bytes());
    assert_eq!(Inode::deserialize_from(&block).err(), Some(FsError::ChecksumMismatch));
    let mut block = vec![0u8; 100];
    block[36..44].copy_from_slice(&57u64.to_le_bytes());
    assert_eq!(Inode::deserialize_from(&block).err(), Some(FsError::ChecksumMismatch));
    block[36..44].copy_from_slice(&56u64.to_le_bytes());
    assert!(Inode::deserialize_from(&block).is_ok());
}

#[test]
fn set_raw_data_rejects_wrong_sizes() {
    let mut inode = Inode::new(3);
    assert_eq!(inode.set_raw_data(b"abc", 4), Err(FsError::InvalidArgument));
    assert_eq!(inode.size, 0);
    let long = vec![0u8; 4048];
    assert_eq!(inode.set_raw_data(&long, 4048), Err(FsError::InvalidArgument));
    assert_eq!(inode.set_raw_data(&long[0..4047], 4047), Ok(()));
    assert_eq!(inode.size, 4047);
}

#[test]
fn set_last_modified_keeps_the_rest() {
    let mut inode = Inode::new(3);
    inode.set_direct_pointers(vec![(5, 1)], 10);
    let created = inode.created;
    inode.set_last_modified();
    assert_eq!(inode.created, created);
    assert_eq!(inode.size, 10);
    assert!(inode.last_modified >= created);
}

#[test]
fn byte_order_of_names() {
    assert!(compare_bytes(b"a", b"b") < 0);
    assert!(compare_bytes(b"b", b"a") > 0);
    assert_eq!(compare_bytes(b"abc", b"abc"), 0);
    assert!(compare_bytes(b"ab", b"abc") < 0);
    assert!(compare_bytes(b"abc", b"ab") > 0);
    assert!(compare_bytes(b"", b"a") < 0);
    assert_eq!(compare_bytes(b"", b""), 0);
    assert!(compare_bytes(&[0x7f], &[0x80]) < 0);
    assert!(compare_bytes(b"Z", b"a") < 0);
}

#[test]
fn name_map_keeps_names_sorted() {
    let mut map = NameMap::new();
    assert!(map.insert(b"pear", 3));
    assert!(map.insert(b"apple", 1));
    assert!(map.insert(b"zebra", 9));
    assert!(map.insert(b"fig", 2));
    assert!(!map.insert(b"fig", 5));
    let names: Vec<&[u8]> = map.entries.iter().map(|e| e.name.as_slice()).collect();
    assert_eq!(names, vec![&b"apple"[..], &b"fig"[..], &b"pear"[..], &b"zebra"[..]]);
    assert_eq!(map.get(b"fig"), Some(2));
    assert_eq!(map.get(b"figs"), None);
    assert_eq!(map.remove(b"pear"), Some(3));
    assert_eq!(map.remove(b"pear"), None);
    assert_eq!(map.len(), 3);
    assert!(map.check_sorted());
    map.entries.swap(0, 1);
    assert!(!map.check_sorted());
}

#[test]
fn directory_adds_finds_and_removes() {
    let mut directory = Directory::init();
    assert_eq!(directory.get_file("hi"), None);
    assert_eq!(directory.add_file("hi", 7), Ok(()));
    assert_eq!(directory.add_file("hi", 8), Err(FsError::AlreadyExists));
    assert_eq!(directory.get_file("hi"), Some(7));
    assert_eq!(directory.add_file("a", 9), Ok(()));
    assert_eq!(directory.remove_file("nope"), Err(FsError::NotFound));
    assert_eq!(directory.remove_file("hi"), Ok(()));
    assert_eq!(directory.get_file("hi"), None);
    assert_eq!(directory.get_file("a"), Some(9));
}

#[test]
fn directory_bytes_are_those_of_bincode() {
    let mut directory = Directory::init();
    directory.add_file("zeta", 40).unwrap();
    directory.add_file("alpha", 10).unwrap();
    directory.add_file("mid", 20).unwrap();
    let bytes = directory.serialize();
    let mut files: BTreeMap<String, u32> = BTreeMap::new();
    files.insert("zeta".to_string(), 40);
    files.insert("alpha".to_string(), 10);
    files.insert("mid".to_string(), 20);
    let expected = bincode::serialize(&(files.clone(), directory.checksum)).unwrap();
    assert_eq!(bytes, expected);
    let zeroed = bincode::serialize(&(files, 0u32)).unwrap();
    assert_eq!(directory.checksum, crc32fast::hash(&zeroed));
}

#[test]
fn empty_directory_bytes() {
    let mut directory = Directory::init();
    let bytes = directory.serialize();
    assert_eq!(bytes.len(), 12);
    assert_eq!(&bytes[0..8], &[0u8; 8]);
    assert_eq!(directory.checksum, crc32fast::hash(&[0u8; 12]));
    assert!(directory.verify_checksum());
}

#[test]
fn directory_round_trip() {
    let mut directory = Directory::init();
    for (i, name) in ["one", "two", "three", "four", ""].iter().enumerate() {
        directory.add_file(name, 100 + i as u32).unwrap();
    }
    let bytes = directory.serialize();
    let loaded = Directory::deserialize(&bytes).unwrap();
    assert_eq!(loaded.get_file("three"), Some(102));
    assert_eq!(loaded.get_file(""), Some(104));
    assert_eq!(loaded.get_file("five"), None);
    assert_eq!(loaded.files.len(), 5);
    assert_eq!(loaded.checksum, directory.checksum);
}

#[test]
fn directory_that_does_not_verify() {
    let mut directory = Directory::init();
    directory.add_file("one", 1).unwrap();
    directory.add_file("two", 2).unwrap();
    let bytes = directory.serialize();
    for position in 0..bytes.len() {
        let mut damaged = bytes.clone();
        damaged[position] ^= 1;
        assert_eq!(Directory::deserialize(&damaged).err(), Some(FsError::ChecksumMismatch));
    }
    assert_eq!(Directory::deserialize(&bytes[0..bytes.len() - 1]).err(), Some(FsError::ChecksumMismatch));
    let mut longer = bytes.clone();
    longer.push(0);
    assert_eq!(Directory::deserialize(&longer).err(), Some(FsError::ChecksumMismatch));
    assert_eq!(Directory::deserialize(&[]).err(), Some(FsError::ChecksumMismatch));
}

#[test]
fn directory_with_names_out_of_order_does_not_verify() {
    let mut files: Vec<(String, u32)> = vec![("b".to_string(), 1), ("a".to_string(), 2)];
    let zeroed = bincode::serialize(&(files.clone(), 0u32)).unwrap();
    let bytes = bincode::serialize(&(files.clone(), crc32fast::hash(&zeroed))).unwrap();
    assert_eq!(Directory::deserialize(&bytes).err(), Some(FsError::ChecksumMismatch));
    files.swap(0, 1);
    let zeroed = bincode::serialize(&(files.clone(), 0u32)).unwrap();
    let bytes = bincode::serialize(&(files, crc32fast::hash(&zeroed))).unwrap();
    assert!(Directory::deserialize(&bytes).is_ok());
}

#[test]
fn directory_checksum_follows_the_files() {
    let mut directory = Directory::init();
    assert!(directory.verify_checksum());
    directory.add_file("x", 1).unwrap();
    assert!(!directory.verify_checksum());
    directory.checksum();
    assert!(directory.verify_checksum());
}

#[test]
fn index_creates_finds_and_moves() {
    let mut index = DirectoryIndex::init();
    assert_eq!(index.find_dir("/a"), None);
    assert_eq!(index.create_dir("/a", 5), Some(5));
    assert_eq!(index.create_dir("/a", 6), None);
    assert_eq!(index.find_dir("/a"), Some(5));
    assert_eq!(index.create_dir("/b", 7), Some(7));
    assert_eq!(index.move_dir("/c", "/d"), Err(FsError::NotFound));
    assert_eq!(index.move_dir("/a", "/b"), Err(FsError::AlreadyExists));
    assert_eq!(index.move_dir("/a", "/a"), Err(FsError::AlreadyExists));
    assert_eq!(index.find_dir("/a"), Some(5));
    assert_eq!(index.move_dir("/a", "/c"), Ok(()));
    assert_eq!(index.find_dir("/a"), None);
    assert_eq!(index.find_dir("/c"), Some(5));
    assert_eq!(index.find_dir("/b"), Some(7));
    assert_eq!(index.directories().len(), 2);
}

#[test]
fn index_bytes_are_those_of_bincode() {
    let mut index = DirectoryIndex::init();
    index.create_dir("/photos", 12).unwrap();
    index.create_dir("/a", 3).unwrap();
    let bytes = index.serialize();
    // a path is written as a variant with tag 0 that holds the bytes of the path
    let mut directories: BTreeMap<Result<Vec<u8>, ()>, u32> = BTreeMap::new();
    directories.insert(Ok(b"/photos".to_vec()), 12);
    directories.insert(Ok(b"/a".to_vec()), 3);
    let expected = bincode::serialize(&(directories.clone(), index.checksum)).unwrap();
    assert_eq!(bytes, expected);
    let zeroed = bincode::serialize(&(directories, 0u32)).unwrap();
    assert_eq!(index.checksum, crc32fast::hash(&zeroed));
}

#[test]
fn index_round_trip() {
    let mut index = DirectoryIndex::init();
    index.create_dir("/x", 1).unwrap();
    index.create_dir("/y/z", 2).unwrap();
    let bytes = index.serialize();
    let mut loaded = DirectoryIndex::deserialize(&bytes).unwrap();
    assert_eq!(loaded.find_dir("/y/z"), Some(2));
    assert!(loaded.verify_checksum());
    let mut directory = Directory::init();
    directory.add_file("/x", 1).unwrap();
    let as_directory = directory.serialize();
    assert_eq!(DirectoryIndex::deserialize(&as_directory).err(), Some(FsError::ChecksumMismatch));
}

#[test]
fn error_messages() {
    assert_eq!(FsError::NotFound.message(), "not found");
    assert_eq!(FsError::AlreadyExists.message(), "already exists");
    assert_eq!(FsError::CorruptSuperblock.message(), "superblock verification failed");
    assert_eq!(FsError::ChecksumMismatch.message(), "checksum verification failed");
    assert_eq!(FsError::IoFailure.message(), "image is too short");
    assert_eq!(FsError::CapacityExhausted.message(), "image cannot grow any further");
    assert_eq!(FsError::FragmentationExhausted.message(), "too many regions needed");
    assert_eq!(FsError::InvalidArgument.message(), "invalid argument");
}

#[test]
fn stamps_set_the_time_and_nothing_else() {
    let mut superblock = sample_superblock();
    superblock.checksum();
    let before = superblock;
    superblock.stamp_modified(42);
    assert_eq!(superblock.modified, 42);
    assert_eq!(Superblock { modified: before.modified, ..superblock }, before);
    let mut inode = Inode::new(3);
    inode.set_direct_pointers(vec![(5, 1)], 10);
    let created = inode.created;
    inode.stamp_last_modified(77);
    assert_eq!(inode.last_modified, 77);
    assert_eq!(inode.created, created);
    assert_eq!(inode.block_index, 3);
    assert_eq!(inode.size, 10);
    assert!(matches!(&inode.data, Data::DirectPointers(p) if *p == vec![(5, 1)]));
}
