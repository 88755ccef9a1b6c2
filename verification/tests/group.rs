use walnut::Group;

fn bits_set(group: &Group) -> Vec<u32> {
    (0..32_768u32).filter(|bit| group.is_allocated(*bit)).collect()
}

#[test]
fn fresh_group_is_all_free() {
    let group = Group::init();
    assert_eq!(group.total_data_blocks(), 32_768);
    assert_eq!(group.free_data_blocks(), 32_768);
    assert!(bits_set(&group).is_empty());
}

#[test]
fn allocate_one_takes_the_lowest_free_bit() {
    let mut group = Group::init();
    assert_eq!(group.allocate_one(0), Some(2));
    assert_eq!(group.allocate_one(0), Some(3));
    group.release_one(0);
    assert_eq!(group.allocate_one(0), Some(2));
    assert_eq!(group.free_data_blocks(), 32_766);
}

#[test]
fn allocate_one_in_a_later_group() {
    let mut group = Group::init();
    assert_eq!(group.allocate_one(3), Some(3 * 32_769 + 2));
}

#[test]
fn allocate_one_in_a_full_group() {
    let mut group = Group::init();
    let (ranges, remaining) = group.allocate_region(0, 32_768, 500);
    assert_eq!(ranges, vec![(2, 32_768)]);
    assert_eq!(remaining, 0);
    assert_eq!(group.allocate_one(0), None);
    assert_eq!(group.free_data_blocks(), 0);
}

#[test]
fn force_allocate_and_release() {
    let mut group = Group::init();
    group.force_allocate_at(7);
    assert!(group.is_allocated(7));
    assert_eq!(bits_set(&group), vec![7]);
    group.force_allocate_at(7);
    assert_eq!(group.free_data_blocks(), 32_767);
    group.release_one(7);
    assert!(!group.is_allocated(7));
    assert_eq!(group.free_data_blocks(), 32_768);
}

#[test]
fn release_data_region_clears_its_bits_only() {
    let mut group = Group::init();
    let (_, remaining) = group.allocate_region(0, 10, 500);
    assert_eq!(remaining, 0);
    group.release_data_region(3, 4);
    assert_eq!(bits_set(&group), vec![0, 1, 2, 7, 8, 9]);
    group.release_data_region(0, 0);
    assert_eq!(bits_set(&group), vec![0, 1, 2, 7, 8, 9]);
}

#[test]
fn allocate_region_in_an_empty_group() {
    let mut group = Group::init();
    let (ranges, remaining) = group.allocate_region(0, 5, 500);
    assert_eq!(ranges, vec![(2, 5)]);
    assert_eq!(remaining, 0);
    assert_eq!(bits_set(&group), vec![0, 1, 2, 3, 4]);
}

#[test]
fn allocate_region_skips_allocated_bits() {
    let mut group = Group::init();
    group.force_allocate_at(0);
    group.force_allocate_at(3);
    group.force_allocate_at(4);
    let (ranges, remaining) = group.allocate_region(1, 6, 500);
    let base = 32_769 + 2;
    assert_eq!(ranges, vec![(base + 1, 2), (base + 5, 4)]);
    assert_eq!(remaining, 0);
    assert_eq!(bits_set(&group), vec![0, 1, 2, 3, 4, 5, 6, 7, 8]);
}

#[test]
fn allocate_region_stops_at_the_region_budget() {
    let mut group = Group::init();
    for bit in [1u32, 3, 5, 7] {
        group.force_allocate_at(bit);
    }
    let (ranges, remaining) = group.allocate_region(0, 10, 2);
    assert_eq!(ranges, vec![(2, 1), (4, 1)]);
    assert_eq!(remaining, 8);
    assert_eq!(bits_set(&group), vec![0, 1, 2, 3, 5, 7]);
}

#[test]
fn allocate_region_with_no_budget_claims_nothing() {
    let mut group = Group::init();
    let (ranges, remaining) = group.allocate_region(0, 10, 0);
    assert!(ranges.is_empty());
    assert_eq!(remaining, 10);
    assert_eq!(group.free_data_blocks(), 32_768);
}

#[test]
fn allocate_region_of_nothing() {
    let mut group = Group::init();
    let (ranges, remaining) = group.allocate_region(0, 0, 500);
    assert!(ranges.is_empty());
    assert_eq!(remaining, 0);
    assert_eq!(group.free_data_blocks(), 32_768);
}

#[test]
fn allocate_region_runs_out_of_blocks() {
    let mut group = Group::init();
    group.force_allocate_at(100);
    let (ranges, remaining) = group.allocate_region(0, 40_000, 500);
    assert_eq!(ranges, vec![(2, 100), (103, 32_667)]);
    assert_eq!(remaining, 40_000 - 32_767);
    assert_eq!(group.free_data_blocks(), 0);
}

#[test]
fn allocate_region_closes_the_last_run_at_the_end_of_the_bitmap() {
    let mut group = Group::init();
    let (_, remaining) = group.allocate_region(0, 32_766, 500);
    assert_eq!(remaining, 0);
    let (ranges, remaining) = group.allocate_region(0, 2, 500);
    assert_eq!(ranges, vec![(32_768, 2)]);
    assert_eq!(remaining, 0);
}

#[test]
fn claimed_regions_are_disjoint_and_were_free() {
    let mut group = Group::init();
    for bit in (0..2000u32).filter(|bit| bit % 3 == 0) {
        group.force_allocate_at(bit);
    }
    let before = bits_set(&group);
    let free_before = group.free_data_blocks();
    let (ranges, remaining) = group.allocate_region(0, 700, 500);
    assert_eq!(remaining, 0);
    let mut claimed: Vec<u32> = Vec::new();
    for (start, length) in &ranges {
        for block in *start..(*start + *length) {
            claimed.push(block - 2);
        }
    }
    assert_eq!(claimed.len(), 700);
    let mut sorted = claimed.clone();
    sorted.sort();
    sorted.dedup();
    assert_eq!(sorted.len(), 700);
    assert!(claimed.iter().all(|bit| !before.contains(bit)));
    assert!(claimed.iter().all(|bit| group.is_allocated(*bit)));
    assert_eq!(group.free_data_blocks(), free_before - 700);
    assert_eq!(bits_set(&group).len(), before.len() + 700);
}

#[test]
fn free_and_allocated_blocks_add_up() {
    let mut group = Group::init();
    let check = |group: &Group| {
        assert_eq!(group.free_data_blocks() + bits_set(group).len(), 32_768);
    };
    check(&group);
    group.allocate_one(0);
    check(&group);
    group.allocate_region(0, 1000, 500);
    check(&group);
    group.release_data_region(10, 100);
    check(&group);
    group.release_one(500);
    check(&group);
    group.allocate_region(0, 50, 1);
    check(&group);
}

#[test]
fn bitmap_block_is_least_significant_bit_first() {
    let mut group = Group::init();
    group.force_allocate_at(0);
    group.force_allocate_at(9);
    group.force_allocate_at(32_767);
    let mut block: Vec<u8> = vec![0xaa];
    group.serialize_into(&mut block);
    assert_eq!(block.len(), 4097);
    assert_eq!(block[0], 0xaa);
    assert_eq!(block[1], 0x01);
    assert_eq!(block[2], 0x02);
    assert_eq!(block[4096], 0x80);
    assert!(block[3..4096].iter().all(|byte| *byte == 0));
}

#[test]
fn group_reads_back_from_an_image() {
    let mut group = Group::init();
    group.allocate_region(0, 77, 500);
    group.force_allocate_at(31_000);
    let mut image: Vec<u8> = vec![0u8; 4096];
    group.serialize_into(&mut image);
    let loaded = Group::deserialize_from(&image, 0).unwrap();
    assert_eq!(bits_set(&loaded), bits_set(&group));
    assert_eq!(loaded.total_data_blocks(), 32_768);
    assert_eq!(loaded.free_data_blocks(), 32_768 - 78);
}

#[test]
fn group_beyond_the_image_is_an_io_failure() {
    let image: Vec<u8> = vec![0u8; 8191];
    assert_eq!(Group::deserialize_from(&image, 0).err(), Some(walnut::FsError::IoFailure));
    let image: Vec<u8> = vec![0u8; 8192];
    assert!(Group::deserialize_from(&image, 0).is_ok());
    assert_eq!(Group::deserialize_from(&image, 1).err(), Some(walnut::FsError::IoFailure));
}

#[test]
fn clone_of_a_group_is_independent() {
    let mut group = Group::init();
    group.force_allocate_at(4);
    let copy = group.clone();
    group.force_allocate_at(5);
    assert_eq!(bits_set(&copy), vec![4]);
    assert_eq!(bits_set(&group), vec![4, 5]);
}
