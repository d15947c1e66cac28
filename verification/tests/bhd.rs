use bhd_archive::bhd::{
    Bucket, FileHeader, Header, KeyTableEntry, BUCKET_SIZE, FILE_HEADER_SIZE, HEADER_SIZE,
    KEY_ENTRY_SIZE, RANGE_SIZE,
};
use bhd_archive::cursor::{Cursor, LayoutError};

fn header_bytes(bucket_count: u32, bucket_offset: u32, salt: &[u8]) -> Vec<u8> {
    let mut bytes = Vec::new();
    bytes.extend_from_slice(b"BHD5");
    bytes.push(0xff);
    bytes.extend_from_slice(&[1, 2, 3]);
    bytes.extend_from_slice(&0x0102_0304u32.to_le_bytes());
    bytes.extend_from_slice(&0x1000u32.to_le_bytes());
    bytes.extend_from_slice(&bucket_count.to_le_bytes());
    bytes.extend_from_slice(&bucket_offset.to_le_bytes());
    bytes.extend_from_slice(&(salt.len() as u32).to_le_bytes());
    bytes.extend_from_slice(salt);
    bytes
}

fn record_bytes(hash: u64, padded: u32, size: u32, offset: u64, key_offset: u64) -> Vec<u8> {
    let mut bytes = Vec::new();
    bytes.extend_from_slice(&hash.to_le_bytes());
    bytes.extend_from_slice(&padded.to_le_bytes());
    bytes.extend_from_slice(&size.to_le_bytes());
    bytes.extend_from_slice(&offset.to_le_bytes());
    bytes.extend_from_slice(&0xaaaa_bbbb_cccc_ddddu64.to_le_bytes());
    bytes.extend_from_slice(&key_offset.to_le_bytes());
    bytes
}

fn key_entry_bytes(key: [u8; 16], ranges: &[(i64, i64)]) -> Vec<u8> {
    let mut bytes = key.to_vec();
    bytes.extend_from_slice(&(ranges.len() as u32).to_le_bytes());
    for (start, end) in ranges {
        bytes.extend_from_slice(&start.to_le_bytes());
        bytes.extend_from_slice(&end.to_le_bytes());
    }
    bytes
}

#[test]
fn record_sizes_are_those_of_the_format() {
    assert_eq!(HEADER_SIZE, 28);
    assert_eq!(BUCKET_SIZE, 8);
    assert_eq!(FILE_HEADER_SIZE, 40);
    assert_eq!(KEY_ENTRY_SIZE, 20);
    assert_eq!(RANGE_SIZE, 16);
}

#[test]
fn header_is_read_field_by_field() {
    let mut bytes = header_bytes(2, 32, b"salt");
    bytes.extend_from_slice(&[0u8; 16]);
    let mut cursor = Cursor::new(bytes);
    let header = Header::from_reader(&mut cursor).unwrap();
    assert_eq!(
        header,
        Header {
            magic: *b"BHD5",
            endianness: -1,
            unk1: 1,
            unk2: 2,
            unk3: 3,
            unk4: 0x0102_0304,
            file_size: 0x1000,
            bucket_count: 2,
            bucket_offset: 32,
            salt_length: 4,
            salt: b"salt".to_vec(),
        }
    );
    assert_eq!(cursor.position(), 32);
}

#[test]
fn header_is_read_at_the_cursor_position() {
    let mut bytes = vec![0xee; 5];
    bytes.extend_from_slice(&header_bytes(0, 0, b""));
    let mut cursor = Cursor::new(bytes);
    cursor.set_position(5);
    let header = Header::from_reader(&mut cursor).unwrap();
    assert_eq!(header.magic, *b"BHD5");
    assert_eq!(header.salt, Vec::<u8>::new());
    assert_eq!(cursor.position(), 33);
}

#[test]
fn header_with_missing_field_fails() {
    let bytes = header_bytes(0, 0, b"");
    for len in 0..bytes.len() {
        let mut cursor = Cursor::new(bytes[..len].to_vec());
        assert_eq!(Header::from_reader(&mut cursor), Err(LayoutError::UnexpectedEnd));
        assert_eq!(cursor.position(), 0);
    }
}

#[test]
fn header_with_short_salt_fails() {
    let mut bytes = header_bytes(0, 0, b"salty");
    bytes.pop();
    let mut cursor = Cursor::new(bytes);
    assert_eq!(Header::from_reader(&mut cursor), Err(LayoutError::UnexpectedEnd));
    assert_eq!(cursor.position(), 0);
}

#[test]
fn header_whose_bucket_table_does_not_fit_fails() {
    let mut bytes = header_bytes(2, 28, b"");
    bytes.extend_from_slice(&[0u8; 15]);
    let mut cursor = Cursor::new(bytes.clone());
    assert_eq!(Header::from_reader(&mut cursor), Err(LayoutError::BucketTable));
    assert_eq!(cursor.position(), 0);

    bytes.push(0);
    let mut cursor = Cursor::new(bytes);
    assert!(Header::from_reader(&mut cursor).is_ok());
    assert_eq!(cursor.position(), 28);
}

#[test]
fn bucket_is_two_signed_integers() {
    let mut bytes = Vec::new();
    bytes.extend_from_slice(&7i32.to_le_bytes());
    bytes.extend_from_slice(&0x40i32.to_le_bytes());
    bytes.extend_from_slice(&(-3i32).to_le_bytes());
    bytes.extend_from_slice(&(-1i32).to_le_bytes());
    let mut cursor = Cursor::new(bytes);
    assert_eq!(
        Bucket::from_reader(&mut cursor),
        Ok(Bucket { file_header_count: 7, file_header_offset: 0x40 })
    );
    assert_eq!(cursor.position(), 8);
    assert_eq!(
        Bucket::from_reader(&mut cursor),
        Ok(Bucket { file_header_count: -3, file_header_offset: -1 })
    );
    assert_eq!(cursor.position(), 16);
    assert_eq!(Bucket::from_reader(&mut cursor), Err(LayoutError::UnexpectedEnd));
    assert_eq!(cursor.position(), 16);
}

#[test]
fn bucket_with_seven_bytes_fails() {
    let mut cursor = Cursor::new(vec![0u8; 7]);
    assert_eq!(Bucket::from_reader(&mut cursor), Err(LayoutError::UnexpectedEnd));
    assert_eq!(cursor.position(), 0);
}

#[test]
fn key_table_entry_holds_key_count_and_ranges() {
    let key = [7u8; 16];
    let bytes = key_entry_bytes(key, &[(0, 16), (-1, 0), (32, 48)]);
    let mut cursor = Cursor::new(bytes);
    let entry = KeyTableEntry::from_reader(&mut cursor).unwrap();
    assert_eq!(entry, KeyTableEntry { aes_key: key, aes_ranges: vec![(0, 16), (-1, 0), (32, 48)] });
    assert_eq!(cursor.position(), 20 + 3 * 16);
}

#[test]
fn key_table_entry_with_missing_range_fails() {
    let mut bytes = key_entry_bytes([0u8; 16], &[(0, 16), (16, 32)]);
    bytes.pop();
    let mut cursor = Cursor::new(bytes);
    assert_eq!(KeyTableEntry::from_reader(&mut cursor), Err(LayoutError::UnexpectedEnd));
    assert_eq!(cursor.position(), 0);

    let mut cursor = Cursor::new(vec![0u8; 19]);
    assert_eq!(KeyTableEntry::from_reader(&mut cursor), Err(LayoutError::UnexpectedEnd));
}

#[test]
fn file_header_fetches_key_and_ranges_from_the_side_table() {
    let key: [u8; 16] = [0, 1, 2, 3, 4, 5, 6, 7, 8, 9, 10, 11, 12, 13, 14, 15];
    let mut bytes = record_bytes(0x1234, 16, 10, 0x100, 40);
    bytes.extend_from_slice(&key_entry_bytes(key, &[(0, 16)]));
    let mut cursor = Cursor::new(bytes);
    let header = FileHeader::from_reader(&mut cursor).unwrap();
    assert_eq!(
        header,
        FileHeader {
            file_path_hash: 0x1234,
            padded_file_size: 16,
            file_size: 10,
            file_offset: 0x100,
            aes_key: key,
            aes_ranges: vec![(0, 16)],
        }
    );
    assert_eq!(cursor.position(), FILE_HEADER_SIZE);
}

#[test]
fn cursor_advances_by_the_record_size_whatever_the_detour_reads() {
    let mut bytes = Vec::new();
    let table = 3 * 40;
    let first = key_entry_bytes([1u8; 16], &[]);
    let second = key_entry_bytes([2u8; 16], &[(0, 16), (-1, -1), (16, 48), (64, 80)]);
    let third = key_entry_bytes([3u8; 16], &[(-1, 5)]);
    bytes.extend_from_slice(&record_bytes(1, 0, 0, 0, (table + first.len() + second.len()) as u64));
    bytes.extend_from_slice(&record_bytes(2, 96, 90, 16, table as u64));
    bytes.extend_from_slice(&record_bytes(3, 16, 16, 112, (table + first.len()) as u64));
    bytes.extend_from_slice(&first);
    bytes.extend_from_slice(&second);
    bytes.extend_from_slice(&third);

    let mut cursor = Cursor::new(bytes);
    let mut headers = Vec::new();
    for index in 0..3u64 {
        let before = cursor.position();
        assert_eq!(before, index * FILE_HEADER_SIZE);
        headers.push(FileHeader::from_reader(&mut cursor).unwrap());
        assert_eq!(cursor.position(), before + FILE_HEADER_SIZE);
    }
    assert_eq!(headers[0].file_path_hash, 1);
    assert_eq!(headers[0].aes_key, [3u8; 16]);
    assert_eq!(headers[0].aes_ranges, vec![(-1, 5)]);
    assert_eq!(headers[1].file_path_hash, 2);
    assert_eq!(headers[1].aes_key, [1u8; 16]);
    assert_eq!(headers[1].aes_ranges, vec![]);
    assert_eq!(headers[1].padded_file_size, 96);
    assert_eq!(headers[1].file_size, 90);
    assert_eq!(headers[1].file_offset, 16);
    assert_eq!(headers[2].file_path_hash, 3);
    assert_eq!(headers[2].aes_key, [2u8; 16]);
    assert_eq!(headers[2].aes_ranges, vec![(0, 16), (-1, -1), (16, 48), (64, 80)]);
}

#[test]
fn file_header_may_point_back_at_an_earlier_offset() {
    let mut bytes = key_entry_bytes([9u8; 16], &[(16, 32)]);
    let at = bytes.len() as u64;
    bytes.extend_from_slice(&record_bytes(5, 32, 32, 0, 0));
    let mut cursor = Cursor::new(bytes);
    cursor.set_position(at);
    let header = FileHeader::from_reader(&mut cursor).unwrap();
    assert_eq!(header.aes_key, [9u8; 16]);
    assert_eq!(header.aes_ranges, vec![(16, 32)]);
    assert_eq!(cursor.position(), at + FILE_HEADER_SIZE);
}

#[test]
fn file_header_with_short_record_fails() {
    let mut bytes = record_bytes(1, 2, 3, 4, 0);
    bytes.pop();
    let mut cursor = Cursor::new(bytes);
    assert_eq!(FileHeader::from_reader(&mut cursor), Err(LayoutError::UnexpectedEnd));
    assert_eq!(cursor.position(), 0);
}

#[test]
fn file_header_with_key_table_entry_out_of_bounds_fails() {
    let mut bytes = record_bytes(1, 2, 3, 4, 41);
    bytes.extend_from_slice(&key_entry_bytes([0u8; 16], &[]));
    let mut cursor = Cursor::new(bytes);
    assert_eq!(FileHeader::from_reader(&mut cursor), Err(LayoutError::UnexpectedEnd));
    assert_eq!(cursor.position(), 0);

    let mut bytes = record_bytes(1, 2, 3, 4, u64::MAX);
    bytes.extend_from_slice(&key_entry_bytes([0u8; 16], &[]));
    let mut cursor = Cursor::new(bytes);
    assert_eq!(FileHeader::from_reader(&mut cursor), Err(LayoutError::UnexpectedEnd));
    assert_eq!(cursor.position(), 0);
}

#[test]
fn file_header_with_more_ranges_than_the_blob_holds_fails() {
    let mut bytes = record_bytes(1, 2, 3, 4, 40);
    let mut entry = key_entry_bytes([0u8; 16], &[(0, 16)]);
    entry[16..20].copy_from_slice(&2u32.to_le_bytes());
    bytes.extend_from_slice(&entry);
    let mut cursor = Cursor::new(bytes.clone());
    assert_eq!(FileHeader::from_reader(&mut cursor), Err(LayoutError::UnexpectedEnd));
    assert_eq!(cursor.position(), 0);

    bytes[56..60].copy_from_slice(&u32::MAX.to_le_bytes());
    let mut cursor = Cursor::new(bytes);
    assert_eq!(FileHeader::from_reader(&mut cursor), Err(LayoutError::UnexpectedEnd));
    assert_eq!(cursor.position(), 0);
}

#[test]
fn bucket_lies_within_a_blob_that_holds_its_offset() {
    let bucket = |count: i32, offset: i32| Bucket { file_header_count: count, file_header_offset: offset };
    assert!(bucket(0, 0).lies_within(0));
    assert!(bucket(3, 10).lies_within(10));
    assert!(bucket(3, 10).lies_within(1000));
    assert!(!bucket(3, 11).lies_within(10));
    assert!(!bucket(0, 1).lies_within(0));
    assert!(!bucket(-1, 0).lies_within(10));
    assert!(!bucket(0, -1).lies_within(10));
    assert!(!bucket(i32::MIN, i32::MIN).lies_within(usize::MAX));
    assert!(bucket(i32::MAX, i32::MAX).lies_within(usize::MAX));
}
