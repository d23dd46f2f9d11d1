use sstable::block::{Block, BlockBuilder, MAX_BLOCK_LEN};
use sstable::builder::{check_lengths, BuildError, SsTableBuilder, TableImage};
use sstable::meta::BlockMeta;

fn built(builder: SsTableBuilder) -> TableImage {
    match builder.build() {
        Ok(table) => table,
        Err(e) => panic!("the table was not laid out: {:?}", e),
    }
}

fn meta(offset: usize, first_key: &[u8]) -> BlockMeta {
    BlockMeta { offset, first_key: first_key.to_vec() }
}

#[test]
fn three_small_entries_share_one_block() {
    let mut builder = SsTableBuilder::new(4096);
    builder.add(b"a", b"1");
    builder.add(b"b", b"2");
    builder.add(b"c", b"3");
    let table = built(builder);
    assert_eq!(table.block_metas, vec![meta(0, b"a")]);
}

#[test]
fn three_small_entries_byte_for_byte() {
    let mut builder = SsTableBuilder::new(4096);
    builder.add(b"a", b"1");
    builder.add(b"b", b"2");
    builder.add(b"c", b"3");
    let table = built(builder);
    let mut expected: Vec<u8> = Vec::new();
    // entries
    expected.extend_from_slice(&[0, 1, b'a', 0, 1, b'1']);
    expected.extend_from_slice(&[0, 1, b'b', 0, 1, b'2']);
    expected.extend_from_slice(&[0, 1, b'c', 0, 1, b'3']);
    // offsets and count
    expected.extend_from_slice(&[0, 0, 0, 6, 0, 12, 0, 3]);
    assert_eq!(expected.len(), 26);
    // index
    expected.extend_from_slice(&[0, 0, 0, 1]);
    expected.extend_from_slice(&[0, 0, 0, 0, 0, 0, 0, 0, 0, 1, b'a']);
    // trailer
    expected.extend_from_slice(&[0, 0, 0, 26]);
    assert_eq!(table.bytes, expected);
    assert_eq!(table.block_meta_offset, 26);
}

#[test]
fn no_entry_still_gives_one_block() {
    let table = built(SsTableBuilder::new(4096));
    assert_eq!(table.block_metas, vec![meta(0, b"")]);
    assert_eq!(table.block_meta_offset, 2);
    assert_eq!(
        table.bytes,
        vec![0, 0, 0, 0, 0, 1, 0, 0, 0, 0, 0, 0, 0, 0, 0, 0, 0, 0, 0, 2]
    );
}

#[test]
fn no_entry_with_no_room_at_all() {
    let table = built(SsTableBuilder::new(0));
    assert_eq!(table.block_metas.len(), 1);
    assert_eq!(table.block_meta_offset, 2);
    assert_eq!(table.bytes.len(), 20);
}

#[test]
fn a_full_block_is_sealed() {
    // A pair of two-byte strings takes ten bytes in a block, and the count
    // two more: a block of sixteen bytes holds one pair.
    let mut builder = SsTableBuilder::new(16);
    builder.add(b"k1", b"v1");
    assert_eq!(builder.estimated_size(), 0);
    builder.add(b"k2", b"v2");
    assert_eq!(builder.estimated_size(), 12);
    builder.add(b"k3", b"v3");
    assert_eq!(builder.estimated_size(), 24);
    let table = built(builder);
    assert_eq!(
        table.block_metas,
        vec![meta(0, b"k1"), meta(12, b"k2"), meta(24, b"k3")]
    );
    assert_eq!(table.block_meta_offset, 36);
    assert_eq!(&table.bytes[0..12], &[0, 2, b'k', b'1', 0, 2, b'v', b'1', 0, 0, 0, 1]);
    assert_eq!(&table.bytes[12..24], &[0, 2, b'k', b'2', 0, 2, b'v', b'2', 0, 0, 0, 1]);
    assert_eq!(&table.bytes[24..36], &[0, 2, b'k', b'3', 0, 2, b'v', b'3', 0, 0, 0, 1]);
}

#[test]
fn blocks_are_one_more_than_full_reports() {
    let mut builder = SsTableBuilder::new(40);
    let mut shadow = BlockBuilder::new(40);
    let mut full_reports = 0;
    let mut first_keys: Vec<Vec<u8>> = Vec::new();
    for i in 0..50u8 {
        let key = [b'k', b'0' + i / 10, b'0' + i % 10];
        let value = [b'v'; 5];
        if !shadow.add(&key, &value) {
            full_reports += 1;
            shadow = BlockBuilder::new(40);
            assert!(shadow.add(&key, &value));
            first_keys.push(key.to_vec());
        } else if i == 0 {
            first_keys.push(key.to_vec());
        }
        builder.add(&key, &value);
    }
    let table = built(builder);
    assert_eq!(table.block_metas.len(), full_reports + 1);
    // an entry takes 3 + 5 + 6 bytes: two of them in a block of forty
    assert_eq!(full_reports, 24);
    let keys: Vec<Vec<u8>> = table.block_metas.iter().map(|m| m.first_key.clone()).collect();
    assert_eq!(keys, first_keys);
}

#[test]
fn offsets_add_up_and_increase() {
    let mut builder = SsTableBuilder::new(64);
    let values: [&[u8]; 6] = [b"", b"x", b"a longer value", b"y", b"01234567890123456789", b"z"];
    // the same entries, block by block
    let mut blocks: Vec<Vec<u8>> = Vec::new();
    let mut open = BlockBuilder::new(64);
    for (i, value) in values.iter().enumerate() {
        let key = [b'a' + i as u8];
        builder.add(&key, value);
        if !open.add(&key, value) {
            blocks.push(open.build().encode());
            open = BlockBuilder::new(64);
            assert!(open.add(&key, value));
        }
    }
    blocks.push(open.build().encode());
    let table = built(builder);
    assert_eq!(table.block_metas.len(), blocks.len());
    assert_eq!(blocks.len(), 2);
    let mut before = 0;
    for (meta, block) in table.block_metas.iter().zip(blocks.iter()) {
        assert_eq!(meta.offset, before);
        assert_eq!(&table.bytes[before..before + block.len()], &block[..]);
        before += block.len();
    }
    assert_eq!(table.block_meta_offset, before);
    for pair in table.block_metas.windows(2) {
        assert!(pair[0].offset < pair[1].offset);
    }
    let offsets: Vec<usize> = table.block_metas.iter().map(|m| m.offset).collect();
    // 2 + (1 + 0 + 6) + (1 + 1 + 6) + (1 + 14 + 6) + (1 + 1 + 6) bytes in the
    // first block, 2 + (1 + 20 + 6) + (1 + 1 + 6) in the second
    assert_eq!(offsets, vec![0, 46]);
    assert_eq!(table.block_meta_offset, 46 + 37);
}

#[test]
fn trailer_points_at_the_index() {
    let mut builder = SsTableBuilder::new(32);
    for i in 0..20u8 {
        builder.add(&[b'k', i], &[i; 7]);
    }
    let table = built(builder);
    let n = table.bytes.len();
    let trailer = u32::from_be_bytes([
        table.bytes[n - 4],
        table.bytes[n - 3],
        table.bytes[n - 2],
        table.bytes[n - 1],
    ]);
    assert_eq!(trailer as usize, table.block_meta_offset);
    let index_len = BlockMeta::encoded_len(&table.block_metas).unwrap();
    assert_eq!(table.block_meta_offset, n - index_len - 4);
    let mut index = Vec::new();
    BlockMeta::encode_block_meta(&table.block_metas, &mut index);
    assert_eq!(&table.bytes[table.block_meta_offset..n - 4], &index[..]);
}

#[test]
fn estimated_size_waits_for_a_seal() {
    let mut builder = SsTableBuilder::new(4096);
    assert_eq!(builder.estimated_size(), 0);
    for i in 0..10u8 {
        builder.add(&[i], b"value");
        assert_eq!(builder.estimated_size(), 0);
    }
    let table = built(builder);
    assert_eq!(table.block_meta_offset, 10 * (1 + 5 + 6) + 2);
}

#[test]
fn estimated_size_stays_below_the_data_region() {
    let mut builder = SsTableBuilder::new(50);
    let mut sizes = Vec::new();
    for i in 0..30u8 {
        builder.add(&[b'k', i], b"0123456789");
        sizes.push(builder.estimated_size());
    }
    let table = built(builder);
    for pair in sizes.windows(2) {
        assert!(pair[0] <= pair[1]);
    }
    for size in sizes {
        assert!(size < table.block_meta_offset);
    }
}

#[test]
fn an_empty_first_key_is_kept() {
    let mut builder = SsTableBuilder::new(4096);
    builder.add(b"", b"nothing");
    builder.add(b"a", b"something");
    let table = built(builder);
    assert_eq!(table.block_metas, vec![meta(0, b"")]);
}

#[test]
fn admits_what_fits_an_empty_block() {
    let builder = SsTableBuilder::new(20);
    // 6 + 6 + 8 = 20
    assert!(builder.admits(b"123456", b"abcdef"));
    assert!(!builder.admits(b"123456", b"abcdefg"));
    assert!(!builder.admits(b"1234567", b"abcdef"));
    let wide = SsTableBuilder::new(1 << 20);
    let value = vec![7u8; MAX_BLOCK_LEN - 8 - 3];
    assert!(wide.admits(b"key", &value));
    let value = vec![7u8; MAX_BLOCK_LEN - 8 - 2];
    assert!(!wide.admits(b"key", &value));
    let none = SsTableBuilder::new(7);
    assert!(!none.admits(b"", b""));
    let least = SsTableBuilder::new(8);
    assert!(least.admits(b"", b""));
}

#[test]
fn the_largest_entry_fills_a_block() {
    let mut builder = SsTableBuilder::new(usize::MAX);
    let value = vec![9u8; MAX_BLOCK_LEN - 8 - 3];
    assert!(builder.admits(b"abc", &value));
    builder.add(b"abc", &value);
    builder.add(b"abd", b"");
    let table = built(builder);
    assert_eq!(table.block_metas, vec![meta(0, b"abc"), meta(MAX_BLOCK_LEN, b"abd")]);
    assert_eq!(table.block_meta_offset, MAX_BLOCK_LEN + 3 + 6 + 2);
    assert_eq!(&table.bytes[0..5], &[0, 3, b'a', b'b', b'c']);
    assert_eq!(&table.bytes[5..7], &[0xff, 0xf4]);
}

#[test]
fn block_builder_refuses_what_does_not_fit() {
    let mut block = BlockBuilder::new(30);
    assert!(block.is_empty());
    assert!(block.add(b"key1", b"value1"));
    assert!(!block.is_empty());
    // 2 + 16 used, 14 more would be needed
    assert!(!block.add(b"key2", b"val2"));
    assert!(block.add(b"k", b"v2345"));
    assert!(!block.add(b"", b""));
    let bytes = block.build().encode();
    assert_eq!(bytes.len(), 30);
}

#[test]
fn block_builder_refuses_on_an_empty_block_too() {
    let mut block = BlockBuilder::new(10);
    assert!(!block.add(b"key", b"val"));
    assert!(block.is_empty());
    assert!(block.add(b"k", b"v"));
}

#[test]
fn block_encoding_byte_for_byte() {
    let mut block = BlockBuilder::new(4096);
    assert!(block.add(b"ab", b"xyz"));
    assert!(block.add(b"c", b""));
    let block: Block = block.build();
    assert_eq!(
        block.encode(),
        vec![0, 2, b'a', b'b', 0, 3, b'x', b'y', b'z', 0, 1, b'c', 0, 0, 0, 0, 0, 9, 0, 2]
    );
}

#[test]
fn block_offsets_use_both_bytes() {
    let mut block = BlockBuilder::new(4096);
    assert!(block.add(b"k", &[1u8; 300]));
    assert!(block.add(b"l", b"m"));
    let bytes = block.build().encode();
    let n = bytes.len();
    // the second entry starts behind 2 + 1 + 2 + 300 bytes
    assert_eq!(&bytes[n - 6..], &[0, 0, 0x01, 0x31, 0, 2]);
    assert_eq!(&bytes[3..5], &[0x01, 0x2c]);
}

#[test]
fn empty_block_is_its_count() {
    assert_eq!(BlockBuilder::new(100).build().encode(), vec![0, 0]);
}

#[test]
fn index_encoding_byte_for_byte() {
    let metas = vec![meta(0, b"apple"), meta(0x0102_0304, b""), meta(0x0a0b_0c0d_0e0f, b"pear")];
    let mut buf = vec![0xee];
    BlockMeta::encode_block_meta(&metas, &mut buf);
    let mut expected: Vec<u8> = vec![0xee, 0, 0, 0, 3];
    expected.extend_from_slice(&[0, 0, 0, 0, 0, 0, 0, 0, 0, 5]);
    expected.extend_from_slice(b"apple");
    expected.extend_from_slice(&[0, 0, 0, 0, 1, 2, 3, 4, 0, 0]);
    expected.extend_from_slice(&[0, 0, 0x0a, 0x0b, 0x0c, 0x0d, 0x0e, 0x0f, 0, 4]);
    expected.extend_from_slice(b"pear");
    assert_eq!(buf, expected);
    assert_eq!(BlockMeta::encoded_len(&metas), Some(expected.len() - 1));
}

#[test]
fn index_of_nothing() {
    let mut buf = Vec::new();
    BlockMeta::encode_block_meta(&[], &mut buf);
    assert_eq!(buf, vec![0, 0, 0, 0]);
    assert_eq!(BlockMeta::encoded_len(&[]), Some(4));
}

#[test]
fn first_keys_come_in_the_order_of_the_keys() {
    let mut builder = SsTableBuilder::new(64);
    for i in 0..200u16 {
        let key = format!("key_{:05}", i * 3);
        builder.add(key.as_bytes(), b"some value");
    }
    let table = built(builder);
    assert!(table.block_metas.len() > 10);
    for pair in table.block_metas.windows(2) {
        assert!(pair[0].first_key < pair[1].first_key);
    }
    assert_eq!(table.block_metas[0].first_key, b"key_00000".to_vec());
    // an entry takes 9 + 10 + 6 bytes: two of them in a block of 64
    assert_eq!(table.block_metas[1].first_key, b"key_00006".to_vec());
    assert_eq!(table.block_metas[1].offset, 52);
}

#[test]
fn lengths_that_fit() {
    assert_eq!(check_lengths(0, Some(4)), Ok(()));
    assert_eq!(check_lengths(2, Some(14)), Ok(()));
    assert_eq!(check_lengths(u32::MAX as usize, Some(14)), Ok(()));
    let most = isize::MAX as usize - 4 - u32::MAX as usize;
    assert_eq!(check_lengths(u32::MAX as usize, Some(most)), Ok(()));
    assert_eq!(check_lengths(0, Some(isize::MAX as usize - 4)), Ok(()));
}

#[test]
fn a_data_region_beyond_the_trailer_is_refused() {
    assert_eq!(check_lengths(u32::MAX as usize + 1, Some(14)), Err(BuildError::DataTooLarge));
    assert_eq!(check_lengths(usize::MAX, Some(4)), Err(BuildError::DataTooLarge));
    assert_eq!(check_lengths(usize::MAX, None), Err(BuildError::DataTooLarge));
    assert_eq!(check_lengths(1 << 40, Some(usize::MAX)), Err(BuildError::DataTooLarge));
}

#[test]
fn a_table_beyond_a_vector_is_refused() {
    assert_eq!(check_lengths(2, None), Err(BuildError::ImageTooLarge));
    assert_eq!(check_lengths(2, Some(usize::MAX)), Err(BuildError::ImageTooLarge));
    assert_eq!(check_lengths(0, Some(isize::MAX as usize - 3)), Err(BuildError::ImageTooLarge));
    let most = isize::MAX as usize - 4 - u32::MAX as usize;
    assert_eq!(check_lengths(u32::MAX as usize, Some(most + 1)), Err(BuildError::ImageTooLarge));
    assert_eq!(check_lengths(1, Some(isize::MAX as usize - 4)), Err(BuildError::ImageTooLarge));
}
