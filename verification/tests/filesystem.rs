use walnut::Data;
use walnut::FsError;
use walnut::FS;

const G: u32 = 32_768;
const GROUP_BYTES: usize = 134_221_824;

fn payload(len: usize) -> Vec<u8> {
    (0..len).map(|i| ((i * 31 + i / 4096 + 7) % 256) as u8).collect()
}

fn free_in_bitmaps(fs: &FS) -> u32 {
    fs.groups.iter().map(|g| g.free_data_blocks() as u32).sum()
}

fn check_counters(fs: &FS) {
    assert_eq!(fs.superblock.free_blocks, free_in_bitmaps(fs));
    assert_eq!(fs.superblock.group_count as usize, fs.groups.len());
    assert_eq!(fs.superblock.block_count, G * fs.groups.len() as u32);
    assert_eq!(fs.image.len(), 4096 + fs.groups.len() * GROUP_BYTES);
}

fn read(fs: &mut FS, dir: &str, name: &str) -> Result<Vec<u8>, FsError> {
    let mut out: Vec<u8> = Vec::new();
    let sum = fs.get_file_data(dir, name, &mut out)?;
    assert_eq!(sum, crc32fast::hash(&out));
    Ok(out)
}

fn regions(fs: &mut FS, dir: &str, name: &str) -> Vec<(u32, u32)> {
    match fs.get_file_info(dir, name).unwrap().data {
        Data::DirectPointers(regions) => regions,
        Data::Raw(_) => panic!("the payload is inside the inode"),
    }
}

fn allocated(fs: &FS, block_index: u32) -> bool {
    let (group, bit) = walnut::Group::translate_public_address(block_index);
    fs.groups[group as usize].is_allocated(bit)
}

#[test]
fn init_and_reopen() {
    let fs = FS::init("sekretsk").unwrap();
    assert_eq!(fs.superblock.group_count, 1);
    assert_eq!(fs.superblock.file_count, 0);
    assert_eq!(fs.superblock.free_blocks, G - 1);
    assert_eq!(fs.image.len(), 4096 + GROUP_BYTES);
    check_counters(&fs);
    let superblock = fs.superblock;
    let reopened = FS::new(fs.image, "sekretsk").unwrap();
    assert_eq!(reopened.superblock, superblock);
    assert_eq!(reopened.superblock.group_count, 1);
    assert_eq!(reopened.superblock.file_count, 0);
    assert_eq!(reopened.superblock.free_blocks, G - 1);
    assert!(allocated(&reopened, 2));
    assert!(!allocated(&reopened, 3));
    assert_eq!(reopened.get_directory_index().unwrap().directories().len(), 0);
}

#[test]
fn init_with_an_empty_secret() {
    assert_eq!(FS::init("").err(), Some(FsError::InvalidArgument));
    let fs = FS::init("k").unwrap();
    assert_eq!(FS::new(fs.image, "").err(), Some(FsError::InvalidArgument));
}

#[test]
fn image_starts_with_the_superblock_and_the_first_bitmap() {
    let fs = FS::init("sekretsk").unwrap();
    assert_eq!(&fs.image[0..7], b"*bitfs*");
    assert_eq!(fs.image[4096], 0x01);
    assert!(fs.image[4097..8192].iter().all(|byte| *byte == 0));
    assert_eq!(&fs.image[8192..8196], &[2, 0, 0, 0]);
}

#[test]
fn inline_file() {
    let mut fs = FS::init("sekretsk").unwrap();
    fs.create_directory("/a").unwrap();
    let free_before = fs.superblock.free_blocks;
    assert_eq!(fs.add_file("/a", "hi", b"hello", 5), Ok(()));
    assert_eq!(read(&mut fs, "/a", "hi").unwrap(), b"hello".to_vec());
    assert_eq!(fs.superblock.file_count, 1);
    assert_eq!(fs.superblock.free_blocks, free_before - 1);
    let inode = fs.get_file_info("/a", "hi").unwrap();
    assert_eq!(inode.size, 5);
    let mut encoded = b"hello".to_vec();
    walnut::util::encrypt(&mut encoded, &fs.lookup_table);
    assert!(matches!(&inode.data, Data::Raw(bytes) if *bytes == encoded));
    assert_ne!(encoded, b"hello".to_vec());
    check_counters(&fs);
}

#[test]
fn boundary_inline_file() {
    let mut fs = FS::init("sekretsk").unwrap();
    fs.create_directory("/a").unwrap();
    let free_before = fs.superblock.free_blocks;
    let data = payload(4047);
    assert_eq!(fs.add_file("/a", "edge", &data, 4047), Ok(()));
    assert_eq!(read(&mut fs, "/a", "edge").unwrap(), data);
    assert!(matches!(fs.get_file_info("/a", "edge").unwrap().data, Data::Raw(_)));
    assert_eq!(fs.superblock.free_blocks, free_before - 1);
    check_counters(&fs);
}

#[test]
fn multi_block_file() {
    let mut fs = FS::init("sekretsk").unwrap();
    fs.create_directory("/a").unwrap();
    let free_before = fs.superblock.free_blocks;
    let data = payload(10_000);
    assert_eq!(fs.add_file("/a", "big", &data, 10_000), Ok(()));
    let inode = fs.get_file_info("/a", "big").unwrap();
    assert_eq!(inode.size, 10_000);
    assert!(matches!(&inode.data, Data::DirectPointers(regions) if *regions == vec![(inode.block_index + 1, 3)]));
    assert_eq!(read(&mut fs, "/a", "big").unwrap(), data);
    assert_eq!(fs.superblock.free_blocks, free_before - 4);
    assert_eq!(fs.superblock.file_count, 1);
    check_counters(&fs);
    // the last block holds the rest of the payload, obfuscated, and nothing more
    let last = (inode.block_index as usize + 3) * 4096;
    let rest = 10_000 - 2 * 4096;
    let mut stored = fs.image[last..last + rest].to_vec();
    walnut::util::encrypt(&mut stored, &fs.lookup_table);
    assert_eq!(stored, data[2 * 4096..].to_vec());
    assert!(fs.image[last + rest..last + 4096].iter().all(|byte| *byte == 0));
}

#[test]
fn overwrite_releases() {
    let mut fs = FS::init("sekretsk").unwrap();
    fs.create_directory("/a").unwrap();
    let free_start = fs.superblock.free_blocks;
    let data = payload(10_000);
    fs.add_file("/a", "big", &data, 10_000).unwrap();
    let inode = fs.get_file_info("/a", "big").unwrap();
    let first = inode.block_index;
    assert_eq!(fs.add_file("/a", "big", b"abc", 3), Ok(()));
    let inode = fs.get_file_info("/a", "big").unwrap();
    assert_eq!(inode.block_index, first);
    assert!(matches!(&inode.data, Data::Raw(bytes) if bytes.len() == 3));
    assert_eq!(read(&mut fs, "/a", "big").unwrap(), b"abc".to_vec());
    assert!(allocated(&fs, first));
    assert!(!allocated(&fs, first + 1));
    assert!(!allocated(&fs, first + 2));
    assert!(!allocated(&fs, first + 3));
    assert_eq!(fs.superblock.free_blocks, free_start - 1);
    assert_eq!(fs.superblock.file_count, 1);
    check_counters(&fs);
}

#[test]
fn overwrite_with_a_longer_payload() {
    let mut fs = FS::init("sekretsk").unwrap();
    fs.create_directory("/a").unwrap();
    fs.add_file("/a", "f", &payload(5000), 5000).unwrap();
    fs.add_file("/a", "g", b"next", 4).unwrap();
    let data = payload(20_000);
    fs.add_file("/a", "f", &data, 20_000).unwrap();
    assert_eq!(read(&mut fs, "/a", "f").unwrap(), data);
    assert_eq!(read(&mut fs, "/a", "g").unwrap(), b"next".to_vec());
    assert_eq!(fs.superblock.file_count, 2);
    check_counters(&fs);
}

#[test]
fn remove_file_frees_its_blocks() {
    let mut fs = FS::init("sekretsk").unwrap();
    fs.create_directory("/a").unwrap();
    let free_before = fs.superblock.free_blocks;
    fs.add_file("/a", "hi", b"hello", 5).unwrap();
    let address = fs.get_file_info("/a", "hi").unwrap().block_index;
    assert!(allocated(&fs, address));
    assert_eq!(fs.remove_file("/a", "hi"), Ok(()));
    assert!(!allocated(&fs, address));
    assert_eq!(fs.superblock.file_count, 0);
    assert_eq!(fs.superblock.free_blocks, free_before);
    assert_eq!(fs.find_directory("/a").unwrap().0.files.len(), 0);
    assert_eq!(read(&mut fs, "/a", "hi").err(), Some(FsError::NotFound));
    check_counters(&fs);
    let mut reopened = FS::new(fs.image, "sekretsk").unwrap();
    assert_eq!(reopened.superblock.file_count, 0);
    assert_eq!(reopened.find_directory("/a").unwrap().0.files.len(), 0);
    assert!(!allocated(&reopened, address));
    assert_eq!(reopened.get_file_info("/a", "hi").err(), Some(FsError::NotFound));
}

#[test]
fn remove_file_with_regions_frees_them() {
    let mut fs = FS::init("sekretsk").unwrap();
    fs.create_directory("/a").unwrap();
    let free_before = fs.superblock.free_blocks;
    fs.add_file("/a", "big", &payload(50_000), 50_000).unwrap();
    let inode = fs.get_file_info("/a", "big").unwrap();
    assert_eq!(fs.superblock.free_blocks, free_before - 1 - 13);
    assert_eq!(fs.remove_file("/a", "big"), Ok(()));
    for block in inode.block_index..inode.block_index + 14 {
        assert!(!allocated(&fs, block));
    }
    assert_eq!(fs.superblock.free_blocks, free_before);
    check_counters(&fs);
}

#[test]
fn remove_what_is_not_there() {
    let mut fs = FS::init("sekretsk").unwrap();
    assert_eq!(fs.remove_file("/a", "hi"), Err(FsError::NotFound));
    fs.create_directory("/a").unwrap();
    assert_eq!(fs.remove_file("/a", "hi"), Err(FsError::NotFound));
    assert_eq!(fs.superblock.file_count, 0);
    check_counters(&fs);
}

#[test]
fn duplicate_directory() {
    let mut fs = FS::init("sekretsk").unwrap();
    assert!(fs.create_directory("/x").is_ok());
    let free_after_first = free_in_bitmaps(&fs);
    let image_after_first = fs.image.len();
    assert_eq!(fs.create_directory("/x").err(), Some(FsError::AlreadyExists));
    assert_eq!(free_in_bitmaps(&fs), free_after_first);
    assert_eq!(fs.image.len(), image_after_first);
    assert_eq!(fs.get_directory_index().unwrap().directories().len(), 1);
    check_counters(&fs);
}

#[test]
fn create_directory_takes_one_block() {
    let mut fs = FS::init("sekretsk").unwrap();
    let directory = fs.create_directory("/a").unwrap();
    assert_eq!(directory.files.len(), 0);
    assert_eq!(fs.superblock.free_blocks, G - 2);
    let (found, address) = fs.find_directory("/a").unwrap();
    assert_eq!(address, 3);
    assert_eq!(found.files.len(), 0);
    assert_eq!(fs.find_directory("/b").err(), Some(FsError::NotFound));
    assert_eq!(fs.superblock.file_count, 0);
    check_counters(&fs);
}

#[test]
fn add_file_to_a_directory_that_is_not_there() {
    let mut fs = FS::init("sekretsk").unwrap();
    assert_eq!(fs.add_file("/a", "hi", b"hello", 5), Err(FsError::NotFound));
    assert_eq!(fs.superblock.free_blocks, G - 1);
    check_counters(&fs);
}

#[test]
fn add_file_with_a_wrong_length() {
    let mut fs = FS::init("sekretsk").unwrap();
    fs.create_directory("/a").unwrap();
    let free_before = fs.superblock.free_blocks;
    assert_eq!(fs.add_file("/a", "hi", b"hello", 6), Err(FsError::InvalidArgument));
    assert_eq!(fs.add_file("/a", "hi", &payload(5000), 4999), Err(FsError::InvalidArgument));
    assert_eq!(fs.superblock.free_blocks, free_before);
    assert_eq!(read(&mut fs, "/a", "hi").err(), Some(FsError::NotFound));
}

#[test]
fn write_read_round_trip_over_sizes() {
    let mut fs = FS::init("sekretsk").unwrap();
    fs.create_directory("/sizes").unwrap();
    let sizes = [0usize, 1, 4046, 4047, 4048, 4096, 2 * 4096, 10 * 4096];
    for (i, size) in sizes.iter().enumerate() {
        let data = payload(*size);
        let name = format!("file{}", i);
        assert_eq!(fs.add_file("/sizes", &name, &data, *size as u64), Ok(()));
        assert_eq!(read(&mut fs, "/sizes", &name).unwrap(), data);
        let inode = fs.get_file_info("/sizes", &name).unwrap();
        assert_eq!(inode.size, *size as u64);
        assert_eq!(matches!(inode.data, Data::Raw(_)), *size <= 4047);
    }
    for (i, size) in sizes.iter().enumerate() {
        let name = format!("file{}", i);
        assert_eq!(read(&mut fs, "/sizes", &name).unwrap(), payload(*size));
    }
    assert_eq!(fs.superblock.file_count, 8);
    check_counters(&fs);
}

#[test]
fn write_read_round_trip_of_ten_mebibytes() {
    let mut fs = FS::init("sekretsk").unwrap();
    fs.create_directory("/a").unwrap();
    let free_before = fs.superblock.free_blocks;
    let size = 10 * 1024 * 1024;
    let data = payload(size);
    assert_eq!(fs.add_file("/a", "large", &data, size as u64), Ok(()));
    assert_eq!(read(&mut fs, "/a", "large").unwrap(), data);
    assert_eq!(fs.superblock.free_blocks, free_before - 1 - 2560);
    check_counters(&fs);
}

#[test]
fn files_survive_reopening() {
    let mut fs = FS::init("sekretsk").unwrap();
    fs.create_directory("/a").unwrap();
    fs.create_directory("/b").unwrap();
    fs.add_file("/a", "small", b"hello", 5).unwrap();
    fs.add_file("/b", "big", &payload(9000), 9000).unwrap();
    let mut reopened = FS::new(fs.image, "sekretsk").unwrap();
    assert_eq!(read(&mut reopened, "/a", "small").unwrap(), b"hello".to_vec());
    assert_eq!(read(&mut reopened, "/b", "big").unwrap(), payload(9000));
    assert_eq!(reopened.superblock.file_count, 2);
    check_counters(&reopened);
    reopened.add_file("/a", "more", b"x", 1).unwrap();
    assert_eq!(read(&mut reopened, "/a", "more").unwrap(), b"x".to_vec());
    assert_eq!(read(&mut reopened, "/a", "small").unwrap(), b"hello".to_vec());
}

#[test]
fn wrong_secret_garbles_the_index() {
    let mut fs = FS::init("sekretsk").unwrap();
    fs.create_directory("/a").unwrap();
    let reopened = FS::new(fs.image, "otherkey").unwrap();
    assert_eq!(reopened.get_directory_index().err(), Some(FsError::ChecksumMismatch));
}

#[test]
fn image_never_shrinks() {
    let mut fs = FS::init("sekretsk").unwrap();
    let mut len = fs.image.len();
    let mut step = |fs: &FS| {
        assert!(fs.image.len() >= len);
        len = fs.image.len();
    };
    fs.create_directory("/a").unwrap();
    step(&fs);
    fs.add_file("/a", "one", &payload(100_000), 100_000).unwrap();
    step(&fs);
    fs.add_file("/a", "one", b"", 0).unwrap();
    step(&fs);
    fs.remove_file("/a", "one").unwrap();
    step(&fs);
    let _ = fs.create_directory("/a");
    step(&fs);
    let _ = fs.remove_file("/a", "one");
    step(&fs);
}

#[test]
fn image_grows_by_a_group_when_full() {
    let mut fs = FS::init("sekretsk").unwrap();
    fs.create_directory("/a").unwrap();
    let size = (G as usize - 3) * 4096;
    let data = vec![0x5au8; size];
    assert_eq!(fs.add_file("/a", "fill", &data, size as u64), Ok(()));
    assert_eq!(fs.groups.len(), 1);
    assert_eq!(fs.superblock.free_blocks, 0);
    check_counters(&fs);
    assert_eq!(fs.add_file("/a", "next", b"abc", 3), Ok(()));
    assert_eq!(fs.groups.len(), 2);
    assert_eq!(fs.image.len(), 4096 + 2 * GROUP_BYTES);
    assert_eq!(fs.get_file_info("/a", "next").unwrap().block_index, 32_771);
    assert_eq!(fs.superblock.free_blocks, G - 1);
    check_counters(&fs);
    assert_eq!(read(&mut fs, "/a", "next").unwrap(), b"abc".to_vec());
    let mut out: Vec<u8> = Vec::new();
    fs.get_file_data("/a", "fill", &mut out).unwrap();
    assert!(out == data);
}

#[test]
fn payload_across_two_groups() {
    let mut fs = FS::init("sekretsk").unwrap();
    fs.create_directory("/a").unwrap();
    let size = (G as usize + 10) * 4096 + 17;
    let data = payload(size);
    assert_eq!(fs.add_file("/a", "wide", &data, size as u64), Ok(()));
    assert_eq!(fs.groups.len(), 2);
    let inode = fs.get_file_info("/a", "wide").unwrap();
    assert!(matches!(&inode.data, Data::DirectPointers(regions) if *regions == vec![(5, G - 3), (32_771, 14)]));
    let mut out: Vec<u8> = Vec::new();
    fs.get_file_data("/a", "wide", &mut out).unwrap();
    assert!(out == data);
    check_counters(&fs);
}

#[test]
fn fragmentation_exhausts_the_region_budget() {
    let mut fs = FS::init("sekretsk").unwrap();
    fs.create_directory("/a").unwrap();
    // every second block from bit 10 on is taken: the free blocks are holes of one block
    for bit in (10..G).step_by(2) {
        fs.groups[0].force_allocate_at(bit);
    }
    fs.sync();
    let free_before = fs.superblock.free_blocks;
    let image_len = fs.image.len();
    // the inode takes bit 2; bits 3 to 9 make one run; 499 holes follow within the budget
    let fits = 7 + 499;
    assert_eq!(fs.add_file("/a", "fits", &payload(fits * 4096), (fits * 4096) as u64), Ok(()));
    assert_eq!(fs.superblock.free_blocks, free_before - 1 - fits as u32);
    assert_eq!(read(&mut fs, "/a", "fits").unwrap(), payload(fits * 4096));
    let free_before = fs.superblock.free_blocks;
    let bitmap_before: Vec<bool> = (0..G).map(|bit| fs.groups[0].is_allocated(bit)).collect();
    let want = 501 * 4096;
    assert_eq!(
        fs.add_file("/a", "spread", &payload(want), want as u64),
        Err(FsError::FragmentationExhausted)
    );
    let bitmap_after: Vec<bool> = (0..G).map(|bit| fs.groups[0].is_allocated(bit)).collect();
    assert!(bitmap_before == bitmap_after);
    assert_eq!(fs.superblock.free_blocks, free_before);
    assert_eq!(fs.image.len(), image_len);
    assert_eq!(read(&mut fs, "/a", "spread").err(), Some(FsError::NotFound));
    assert_eq!(read(&mut fs, "/a", "fits").unwrap(), payload(fits * 4096));
    let want = 500 * 4096;
    assert_eq!(fs.add_file("/a", "spread", &payload(want), want as u64), Ok(()));
    check_counters(&fs);
}

#[test]
fn a_full_image_cannot_grow() {
    let groups: Vec<walnut::Group> = (0..31).map(|_| walnut::Group::init()).collect();
    let mut fs = FS {
        superblock: walnut::Superblock::new(),
        image: Vec::new(),
        groups,
        lookup_table: walnut::util::create_lookup_table(b"s", 4096),
    };
    assert_eq!(fs.add_group(walnut::Group::init()), Err(FsError::CapacityExhausted));
    assert_eq!(fs.groups.len(), 31);
    assert_eq!(fs.image.len(), 0);
}

#[test]
fn get_file_data_appends() {
    let mut fs = FS::init("sekretsk").unwrap();
    fs.create_directory("/a").unwrap();
    fs.add_file("/a", "hi", b"hello", 5).unwrap();
    let mut out = b"say: ".to_vec();
    let sum = fs.get_file_data("/a", "hi", &mut out).unwrap();
    assert_eq!(out, b"say: hello".to_vec());
    assert_eq!(sum, crc32fast::hash(b"hello"));
    assert_eq!(fs.get_file_data("/a", "nope", &mut out).err(), Some(FsError::NotFound));
    assert_eq!(out, b"say: hello".to_vec());
}

#[test]
fn directories_are_listed_in_byte_order() {
    let mut fs = FS::init("sekretsk").unwrap();
    for dir in ["/b", "/a", "/c/d", "/"] {
        fs.create_directory(dir).unwrap();
    }
    let index = fs.get_directory_index().unwrap();
    let names: Vec<Vec<u8>> = index.directories().entries.iter().map(|e| e.name.clone()).collect();
    assert_eq!(names, vec![b"/".to_vec(), b"/a".to_vec(), b"/b".to_vec(), b"/c/d".to_vec()]);
    assert_eq!(fs.superblock().group_count, 1);
}

#[test]
fn large_directory_moves_into_data_blocks() {
    let mut fs = FS::init("sekretsk").unwrap();
    fs.create_directory("/many").unwrap();
    for i in 0..300 {
        let name = format!("a-rather-long-file-name-number-{:05}", i);
        fs.add_file("/many", &name, b"x", 1).unwrap();
    }
    let (directory, address) = fs.find_directory("/many").unwrap();
    assert_eq!(directory.files.len(), 300);
    let inode = fs.get_inode(address).unwrap();
    assert!(inode.size > 4047);
    assert!(matches!(inode.data, Data::DirectPointers(_)));
    assert_eq!(read(&mut fs, "/many", "a-rather-long-file-name-number-00123").unwrap(), b"x".to_vec());
    for i in 0..300 {
        let name = format!("a-rather-long-file-name-number-{:05}", i);
        fs.remove_file("/many", &name).unwrap();
    }
    assert_eq!(fs.superblock.free_blocks, G - 2);
    assert_eq!(fs.superblock.file_count, 0);
    check_counters(&fs);
}

#[test]
fn opening_what_is_no_image() {
    assert_eq!(FS::new(Vec::new(), "s").err(), Some(FsError::CorruptSuperblock));
    assert_eq!(FS::new(vec![0u8; 8192], "s").err(), Some(FsError::CorruptSuperblock));
    let fs = FS::init("s").unwrap();
    let mut short = fs.image.clone();
    short.truncate(4096 + GROUP_BYTES - 1);
    assert_eq!(FS::new(short, "s").err(), Some(FsError::IoFailure));
    let mut long = fs.image.clone();
    long.push(0);
    assert_eq!(FS::new(long, "s").err(), Some(FsError::CorruptSuperblock));
    let mut wrong_bitmap = fs.image.clone();
    wrong_bitmap[4097] = 1;
    assert_eq!(FS::new(wrong_bitmap, "s").err(), Some(FsError::CorruptSuperblock));
    let mut no_root = fs.image;
    no_root[4096] = 0;
    assert_eq!(FS::new(no_root, "s").err(), Some(FsError::CorruptSuperblock));
}

#[test]
fn reading_an_inode_that_is_not_there() {
    let fs = FS::init("s").unwrap();
    assert_eq!(fs.get_inode(0).err(), Some(FsError::IoFailure));
    assert_eq!(fs.get_inode(1).err(), Some(FsError::IoFailure));
    assert_eq!(fs.get_inode(32_770).err(), Some(FsError::IoFailure));
    assert_eq!(fs.get_inode(32_771).err(), Some(FsError::IoFailure));
    assert!(fs.get_inode(2).is_ok());
    assert_eq!(fs.get_inode(3).err(), Some(FsError::ChecksumMismatch));
}

#[test]
fn other_files_keep_their_payload() {
    let mut fs = FS::init("sekretsk").unwrap();
    fs.create_directory("/a").unwrap();
    fs.create_directory("/b").unwrap();
    fs.add_file("/a", "one", &payload(6000), 6000).unwrap();
    fs.add_file("/a", "two", b"second", 6).unwrap();
    fs.add_file("/b", "one", &payload(9000), 9000).unwrap();
    // a new file, an overwrite with a longer payload, a removal, a new directory
    fs.add_file("/a", "three", &payload(20_000), 20_000).unwrap();
    fs.add_file("/a", "two", &payload(12_345), 12_345).unwrap();
    fs.remove_file("/a", "three").unwrap();
    fs.create_directory("/c").unwrap();
    assert_eq!(read(&mut fs, "/a", "one").unwrap(), payload(6000));
    assert_eq!(read(&mut fs, "/a", "two").unwrap(), payload(12_345));
    assert_eq!(read(&mut fs, "/b", "one").unwrap(), payload(9000));
    assert_eq!(read(&mut fs, "/a", "three").err(), Some(FsError::NotFound));
    assert_eq!(read(&mut fs, "/c", "one").err(), Some(FsError::NotFound));
    assert_eq!(fs.superblock.file_count, 3);
    assert_eq!(fs.get_directory_index().unwrap().directories().len(), 3);
    check_counters(&fs);
}

#[test]
fn no_two_objects_share_a_block() {
    let mut fs = FS::init("sekretsk").unwrap();
    fs.create_directory("/a").unwrap();
    for i in 0..20 {
        fs.add_file("/a", &format!("f{}", i), &payload(3000 * i), (3000 * i) as u64).unwrap();
    }
    for i in (0..20).step_by(3) {
        fs.remove_file("/a", &format!("f{}", i)).unwrap();
    }
    for i in (1..20).step_by(3) {
        fs.add_file("/a", &format!("f{}", i), &payload(7000 + i), (7000 + i) as u64).unwrap();
    }
    let mut owned: Vec<u32> = vec![2];
    let (directory, address) = fs.find_directory("/a").unwrap();
    owned.push(address);
    for entry in directory.files.entries.iter() {
        let inode = fs.get_inode(entry.inode).unwrap();
        owned.push(inode.block_index);
        if let Data::DirectPointers(regions) = &inode.data {
            for (start, length) in regions {
                owned.extend(*start..*start + *length);
            }
        }
    }
    assert!(owned.iter().all(|block| allocated(&fs, *block)));
    let count = owned.len();
    owned.sort();
    owned.dedup();
    assert_eq!(owned.len(), count);
    assert_eq!(fs.superblock.free_blocks, G - count as u32);
}

#[test]
fn sync_changes_nothing_in_a_synced_filesystem() {
    let mut fs = FS::init("sekretsk").unwrap();
    fs.create_directory("/a").unwrap();
    fs.add_file("/a", "f", &payload(5000), 5000).unwrap();
    let bitmap = fs.image[4096..8192].to_vec();
    let counters = (fs.superblock.free_blocks, fs.superblock.file_count, fs.superblock.group_count);
    fs.sync();
    assert_eq!(fs.image[4096..8192].to_vec(), bitmap);
    assert_eq!(
        (fs.superblock.free_blocks, fs.superblock.file_count, fs.superblock.group_count),
        counters
    );
    assert_eq!(read(&mut fs, "/a", "f").unwrap(), payload(5000));
}

#[test]
fn stored_payload_is_obfuscated() {
    let mut fs = FS::init("sekretsk").unwrap();
    fs.create_directory("/a").unwrap();
    let data = vec![0u8; 8192];
    fs.add_file("/a", "zeros", &data, 8192).unwrap();
    let inode = fs.get_file_info("/a", "zeros").unwrap();
    let first = (inode.block_index as usize + 1) * 4096;
    assert_eq!(&fs.image[first..first + 8], b"sekretsk");
    assert_eq!(&fs.image[first + 4096..first + 4104], b"sekretsk");
    assert_eq!(fs.image[first..first + 4096].to_vec(), fs.lookup_table);
}

#[test]
fn empty_file() {
    let mut fs = FS::init("sekretsk").unwrap();
    fs.create_directory("/a").unwrap();
    assert_eq!(fs.add_file("/a", "", b"", 0), Ok(()));
    assert_eq!(read(&mut fs, "/a", "").unwrap(), Vec::<u8>::new());
    assert_eq!(fs.get_file_info("/a", "").unwrap().size, 0);
    assert_eq!(fs.remove_file("/a", ""), Ok(()));
    assert_eq!(fs.superblock.file_count, 0);
}

#[test]
fn inode_and_payload_of_a_stored_file() {
    let mut fs = FS::init("sekretsk").unwrap();
    fs.create_directory("/a").unwrap();
    fs.add_file("/a", "f", &payload(9000), 9000).unwrap();
    let info = fs.get_file_info("/a", "f").unwrap();
    assert_eq!(info.block_index, 4);
    let loaded = fs.get_inode(4).unwrap();
    assert_eq!(loaded.size, 9000);
    assert_eq!(loaded.created, info.created);
    let mut out: Vec<u8> = Vec::new();
    assert_eq!(fs.read_inode_data(&loaded, &mut out), Ok(crc32fast::hash(&payload(9000))));
    assert_eq!(out, payload(9000));
    let mut damaged = fs.get_inode(4).unwrap();
    damaged.data = Data::DirectPointers(vec![(40_000, 3)]);
    assert_eq!(fs.read_inode_data(&damaged, &mut out), Err(FsError::ChecksumMismatch));
    assert_eq!(out, payload(9000));
}

#[test]
fn adding_a_group_keeps_the_files() {
    let mut fs = FS::init("sekretsk").unwrap();
    fs.create_directory("/a").unwrap();
    fs.add_file("/a", "f", &payload(5000), 5000).unwrap();
    let free = fs.superblock.free_blocks;
    assert_eq!(fs.add_group(walnut::Group::init()), Ok(()));
    assert_eq!(fs.groups.len(), 2);
    assert_eq!(fs.superblock.free_blocks, free + G);
    assert_eq!(fs.image.len(), 4096 + 2 * GROUP_BYTES);
    check_counters(&fs);
    assert_eq!(read(&mut fs, "/a", "f").unwrap(), payload(5000));
    let reopened = FS::new(fs.image, "sekretsk").unwrap();
    assert_eq!(reopened.groups.len(), 2);
}

#[test]
fn lookup_failures_leave_the_image_as_it_was() {
    let mut fs = FS::init("sekretsk").unwrap();
    fs.create_directory("/a").unwrap();
    fs.add_file("/a", "f", &payload(5000), 5000).unwrap();
    let image = fs.image.clone();
    let bitmaps: Vec<u32> = fs.groups.iter().map(|g| g.free_data_blocks() as u32).collect();
    assert_eq!(fs.create_directory("/a").err(), Some(FsError::AlreadyExists));
    assert_eq!(fs.add_file("/a", "g", &payload(10), 11), Err(FsError::InvalidArgument));
    assert_eq!(fs.add_file("/b", "g", &payload(10), 10), Err(FsError::NotFound));
    assert_eq!(fs.remove_file("/a", "g"), Err(FsError::NotFound));
    assert_eq!(fs.remove_file("/b", "f"), Err(FsError::NotFound));
    assert!(fs.image == image);
    let after: Vec<u32> = fs.groups.iter().map(|g| g.free_data_blocks() as u32).collect();
    assert_eq!(after, bitmaps);
    assert_eq!(fs.superblock.file_count, 1);
    check_counters(&fs);
}

#[test]
fn a_new_inode_takes_the_lowest_free_block() {
    let mut fs = FS::init("sekretsk").unwrap();
    fs.create_directory("/a").unwrap();
    fs.add_file("/a", "f", &payload(9000), 9000).unwrap();
    fs.add_file("/a", "g", &payload(10), 10).unwrap();
    assert_eq!(fs.get_file_info("/a", "f").unwrap().block_index, 4);
    assert_eq!(regions(&mut fs, "/a", "f"), vec![(5, 3)]);
    assert_eq!(fs.get_file_info("/a", "g").unwrap().block_index, 8);
    fs.remove_file("/a", "f").unwrap();
    for block in 4..8 {
        assert!(!allocated(&fs, block));
    }
    fs.create_directory("/b").unwrap();
    assert_eq!(fs.find_directory("/b").unwrap().1, 4);
    fs.add_file("/b", "h", &payload(4096 * 5), 4096 * 5).unwrap();
    assert_eq!(fs.get_file_info("/b", "h").unwrap().block_index, 5);
    assert_eq!(regions(&mut fs, "/b", "h"), vec![(6, 2), (9, 3)]);
    for block in 2..12 {
        assert!(allocated(&fs, block));
    }
    assert!(!allocated(&fs, 12));
    check_counters(&fs);
}

#[test]
fn exactly_the_blocks_of_the_objects_are_allocated() {
    let mut fs = FS::init("sekretsk").unwrap();
    fs.create_directory("/a").unwrap();
    fs.add_file("/a", "f", &payload(4047), 4047).unwrap();
    assert_eq!(fs.superblock.free_blocks, G - 3);
    assert_eq!(fs.get_file_info("/a", "f").unwrap().size, 4047);
    fs.add_file("/a", "f", &payload(4048), 4048).unwrap();
    assert_eq!(fs.superblock.free_blocks, G - 4);
    assert_eq!(regions(&mut fs, "/a", "f"), vec![(5, 1)]);
    fs.add_file("/a", "f", &payload(4096 * 3 + 1), 4096 * 3 + 1).unwrap();
    assert_eq!(fs.superblock.free_blocks, G - 7);
    assert_eq!(regions(&mut fs, "/a", "f"), vec![(5, 4)]);
    fs.add_file("/a", "f", &payload(3), 3).unwrap();
    assert_eq!(fs.superblock.free_blocks, G - 3);
    for block in 2..5 {
        assert!(allocated(&fs, block));
    }
    assert!(!allocated(&fs, 5));
    fs.remove_file("/a", "f").unwrap();
    assert_eq!(fs.superblock.free_blocks, G - 2);
    assert!(allocated(&fs, 2) && allocated(&fs, 3) && !allocated(&fs, 4));
    check_counters(&fs);
}

#[test]
fn a_failure_keeps_the_groups_that_were_appended() {
    let mut fs = FS::init("sekretsk").unwrap();
    fs.create_directory("/a").unwrap();
    for bit in (10..G).step_by(2) {
        fs.groups[0].force_allocate_at(bit);
    }
    fs.sync();
    let free_before = fs.superblock.free_blocks;
    let bitmap_before: Vec<bool> = (0..G).map(|bit| fs.groups[0].is_allocated(bit)).collect();
    // more blocks than are free: a group is appended; the holes then use up the regions
    let want = (free_before as usize + 10) * 4096;
    let data = vec![7u8; want];
    assert_eq!(fs.add_file("/a", "f", &data, want as u64), Err(FsError::FragmentationExhausted));
    assert_eq!(fs.groups.len(), 2);
    assert_eq!(fs.groups[1].free_data_blocks(), G as usize);
    assert_eq!(fs.superblock.free_blocks, free_before + G);
    let bitmap_after: Vec<bool> = (0..G).map(|bit| fs.groups[0].is_allocated(bit)).collect();
    assert!(bitmap_before == bitmap_after);
    assert_eq!(fs.superblock.file_count, 0);
    assert_eq!(read(&mut fs, "/a", "f").err(), Some(FsError::NotFound));
    check_counters(&fs);
}
