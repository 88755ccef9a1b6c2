use walnut::util::block_seek_position;
use walnut::util::calculate_checksum;
use walnut::util::create_lookup_table;
use walnut::util::encrypt;
use walnut::util::now;
use walnut::util::seconds_or_zero;
use walnut::util::Checksum;
use walnut::Group;

#[test]
fn test_block_bitmap_seek_position() {
    assert_eq!(Group::seek_position(0), 4096);
    assert_eq!(Group::seek_position(1), 134_225_920);
}

#[test]
fn seek_position_of_last_group() {
    assert_eq!(Group::seek_position(31), 4_160_880_640);
}

#[test]
fn block_seek_position_is_address_times_block_size() {
    assert_eq!(block_seek_position(0), 0);
    assert_eq!(block_seek_position(2), 8192);
    assert_eq!(block_seek_position(1_048_575), 4_294_963_200);
}

#[test]
fn first_data_block_follows_the_bitmap_block() {
    assert_eq!(Group::create_public_address(0, 0), 2);
    assert_eq!(block_seek_position(Group::create_public_address(0, 0)), Group::seek_position(0) + 4096);
    assert_eq!(Group::create_public_address(1, 0), 32771);
    assert_eq!(block_seek_position(Group::create_public_address(1, 0)), Group::seek_position(1) + 4096);
    assert_eq!(Group::create_public_address(1, 5), 32776);
}

#[test]
fn address_round_trip_over_twenty_groups() {
    for group_index in 0..20u32 {
        for bitmap_index in 0..32_768u32 {
            let block_index = Group::create_public_address(group_index, bitmap_index);
            assert_eq!(Group::translate_public_address(block_index), (group_index, bitmap_index));
        }
    }
}

#[test]
fn address_round_trip_at_group_boundaries() {
    assert_eq!(Group::translate_public_address(2), (0, 0));
    assert_eq!(Group::translate_public_address(32769), (0, 32767));
    assert_eq!(Group::translate_public_address(32771), (1, 0));
    assert_eq!(Group::translate_public_address(65538), (1, 32767));
}

#[test]
fn lookup_table_repeats_the_secret() {
    let table = create_lookup_table(b"sekretsk", 4096);
    assert_eq!(table.len(), 4096);
    assert_eq!(&table[0..8], b"sekretsk");
    assert_eq!(&table[8..16], b"sekretsk");
    assert_eq!(table[4095], b'k');
}

#[test]
fn lookup_table_of_a_secret_of_odd_length() {
    let table = create_lookup_table(b"abc", 7);
    assert_eq!(table, b"abcabca".to_vec());
}

#[test]
fn encrypt_xors_with_the_table() {
    let table = create_lookup_table(&[0x0f, 0xf0], 4096);
    let mut bytes = vec![0xffu8, 0xff, 0x00, 0x01];
    encrypt(&mut bytes, &table);
    assert_eq!(bytes, vec![0xf0, 0x0f, 0x0f, 0xf1]);
}

#[test]
fn encrypt_twice_gives_the_buffer_back() {
    let table = create_lookup_table(b"sekretsk", 4096);
    let plain: Vec<u8> = (0..4096u32).map(|i| (i * 7 + 3) as u8).collect();
    let mut bytes = plain.clone();
    encrypt(&mut bytes, &table);
    assert_ne!(bytes, plain);
    encrypt(&mut bytes, &table);
    assert_eq!(bytes, plain);
}

#[test]
fn encrypt_leaves_bytes_beyond_the_table() {
    let table = vec![0xffu8; 2];
    let mut bytes = vec![1u8, 2, 3, 4];
    encrypt(&mut bytes, &table);
    assert_eq!(bytes, vec![0xfe, 0xfd, 3, 4]);
}

#[test]
fn checksum_is_crc32() {
    assert_eq!(calculate_checksum(b"123456789"), 0xcbf4_3926);
    assert_eq!(calculate_checksum(b""), 0);
    assert_eq!(calculate_checksum(b"foo bar baz"), crc32fast::hash(b"foo bar baz"));
}

#[test]
fn checksum_in_pieces_is_checksum_of_the_whole() {
    let mut checksum = Checksum::new();
    checksum.update(b"1234");
    checksum.update(b"56789");
    assert_eq!(checksum.finalize(), 0xcbf4_3926);
}

#[test]
fn now_is_after_the_year_2020() {
    assert!(now() > 1_577_836_800);
}

#[test]
fn timestamp_of_a_clock_reading() {
    assert_eq!(seconds_or_zero(Some(1_700_000_000)), 1_700_000_000);
    assert_eq!(seconds_or_zero(Some(0)), 0);
    assert_eq!(seconds_or_zero(None), 0);
}
