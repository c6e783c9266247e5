use wad::from_bytes;
use wad::DirectoryEntry;
use wad::WadDeserializer;
use wad::WadError;

#[test]
fn from_bytes_starts_with_everything_left() {
    let bytes = [1u8, 2, 3];
    let de = WadDeserializer::from_bytes(&bytes);
    assert_eq!(de.remaining(), 3);
}

#[test]
fn peek_byte_leaves_the_byte() {
    let bytes = [7u8, 9];
    let de = WadDeserializer::from_bytes(&bytes);
    assert_eq!(de.peek_byte().unwrap(), 7);
    assert_eq!(de.peek_byte().unwrap(), 7);
    assert_eq!(de.remaining(), 2);
}

#[test]
fn peek_byte_on_empty_is_eof() {
    let de = WadDeserializer::from_bytes(&[]);
    assert!(matches!(de.peek_byte(), Err(WadError::UnexpectedEof)));
}

#[test]
fn next_byte_walks_left_to_right() {
    let bytes = [7u8, 9];
    let mut de = WadDeserializer::from_bytes(&bytes);
    assert_eq!(de.next_byte().unwrap(), 7);
    assert_eq!(de.next_byte().unwrap(), 9);
    assert!(matches!(de.next_byte(), Err(WadError::UnexpectedEof)));
    assert_eq!(de.remaining(), 0);
}

#[test]
fn read_u8_is_the_byte() {
    let mut de = WadDeserializer::from_bytes(&[0xfe]);
    assert_eq!(de.read_u8().unwrap(), 0xfe);
}

#[test]
fn read_u16_is_least_significant_first() {
    let mut de = WadDeserializer::from_bytes(&[0x34, 0x12]);
    assert_eq!(de.read_u16().unwrap(), 0x1234);
}

#[test]
fn read_u32_is_least_significant_first() {
    let mut de = WadDeserializer::from_bytes(&[0x78, 0x56, 0x34, 0x12, 0xaa]);
    assert_eq!(de.read_u32().unwrap(), 0x1234_5678);
    assert_eq!(de.remaining(), 1);
}

#[test]
fn read_u64_is_least_significant_first() {
    let bytes = [0xef, 0xcd, 0xab, 0x89, 0x67, 0x45, 0x23, 0x01];
    let mut de = WadDeserializer::from_bytes(&bytes);
    assert_eq!(de.read_u64().unwrap(), 0x0123_4567_89ab_cdef);
}

#[test]
fn read_u64_takes_the_largest_value() {
    let bytes = [0xff; 8];
    let mut de = WadDeserializer::from_bytes(&bytes);
    assert_eq!(de.read_u64().unwrap(), u64::MAX);
}

#[test]
fn read_i8_is_twos_complement() {
    let mut de = WadDeserializer::from_bytes(&[0xff, 0x80, 0x7f]);
    assert_eq!(de.read_i8().unwrap(), -1);
    assert_eq!(de.read_i8().unwrap(), i8::MIN);
    assert_eq!(de.read_i8().unwrap(), i8::MAX);
}

#[test]
fn read_i16_is_twos_complement() {
    let mut de = WadDeserializer::from_bytes(&[0xfe, 0xff, 0x34, 0x12]);
    assert_eq!(de.read_i16().unwrap(), -2);
    assert_eq!(de.read_i16().unwrap(), 0x1234);
}

#[test]
fn read_i32_is_twos_complement() {
    let bytes = [0x00, 0x00, 0x00, 0x80, 0xc0, 0xbd, 0xf0, 0xff, 0x0c, 0, 0, 0];
    let mut de = WadDeserializer::from_bytes(&bytes);
    assert_eq!(de.read_i32().unwrap(), i32::MIN);
    assert_eq!(de.read_i32().unwrap(), -1_000_000);
    assert_eq!(de.read_i32().unwrap(), 12);
}

#[test]
fn read_i64_is_twos_complement() {
    let mut bytes = vec![0xffu8; 8];
    bytes.extend_from_slice(&[0, 0, 0, 0, 0, 0, 0, 0x80]);
    let mut de = WadDeserializer::from_bytes(&bytes);
    assert_eq!(de.read_i64().unwrap(), -1);
    assert_eq!(de.read_i64().unwrap(), i64::MIN);
}

#[test]
fn reads_agree_with_std() {
    let bytes = [0x91u8, 0x02, 0xf3, 0x84, 0x15, 0xa6, 0x37, 0xc8];
    assert_eq!(
        WadDeserializer::from_bytes(&bytes).read_u64().unwrap(),
        u64::from_le_bytes(bytes)
    );
    assert_eq!(
        WadDeserializer::from_bytes(&bytes).read_i64().unwrap(),
        i64::from_le_bytes(bytes)
    );
    assert_eq!(
        WadDeserializer::from_bytes(&bytes).read_u32().unwrap(),
        u32::from_le_bytes([0x91, 0x02, 0xf3, 0x84])
    );
    assert_eq!(
        WadDeserializer::from_bytes(&bytes).read_i32().unwrap(),
        i32::from_le_bytes([0x91, 0x02, 0xf3, 0x84])
    );
    assert_eq!(
        WadDeserializer::from_bytes(&bytes).read_i16().unwrap(),
        i16::from_le_bytes([0x91, 0x02])
    );
}

#[test]
fn short_read_is_eof_and_uses_up_the_rest() {
    let mut de = WadDeserializer::from_bytes(&[1, 2, 3]);
    assert!(matches!(de.read_u32(), Err(WadError::UnexpectedEof)));
    assert_eq!(de.remaining(), 0);
}

#[test]
fn read_array_hands_out_the_bytes_as_they_stand() {
    let mut de = WadDeserializer::from_bytes(&[9, 8, 7, 6, 5]);
    let a: [u8; 4] = de.read_array::<4>().unwrap();
    assert_eq!(a, [9, 8, 7, 6]);
    assert_eq!(de.remaining(), 1);
    assert!(matches!(
        de.read_array::<2>(),
        Err(WadError::UnexpectedEof)
    ));
}

#[test]
fn end_tells_trailing_bytes() {
    let mut de = WadDeserializer::from_bytes(&[1]);
    assert!(matches!(de.end(), Err(WadError::TrailingBytes)));
    de.next_byte().unwrap();
    assert!(de.end().is_ok());
}

#[test]
fn exact_buffer_decodes() {
    assert_eq!(from_bytes::<u32>(&[1, 0, 0, 0]).unwrap(), 1);
    assert_eq!(from_bytes::<i16>(&[0xff, 0xff]).unwrap(), -1);
    assert_eq!(from_bytes::<u8>(&[200]).unwrap(), 200);
    assert_eq!(from_bytes::<i8>(&[200]).unwrap(), -56);
    assert_eq!(from_bytes::<u16>(&[0, 1]).unwrap(), 256);
    assert_eq!(from_bytes::<i32>(&[0xfe, 0xff, 0xff, 0xff]).unwrap(), -2);
    assert_eq!(from_bytes::<u64>(&[0, 0, 0, 0, 1, 0, 0, 0]).unwrap(), 1 << 32);
    assert_eq!(from_bytes::<i64>(&[0xfd, 0xff, 0xff, 0xff, 0xff, 0xff, 0xff, 0xff]).unwrap(), -3);
}

#[test]
fn one_byte_more_is_trailing_bytes() {
    assert!(matches!(
        from_bytes::<u32>(&[1, 0, 0, 0, 0]),
        Err(WadError::TrailingBytes)
    ));
    assert!(matches!(
        from_bytes::<i64>(&[0; 9]),
        Err(WadError::TrailingBytes)
    ));
}

#[test]
fn shorter_buffer_is_eof() {
    assert!(matches!(
        from_bytes::<u32>(&[1, 0, 0]),
        Err(WadError::UnexpectedEof)
    ));
    assert!(matches!(from_bytes::<u8>(&[]), Err(WadError::UnexpectedEof)));
    assert!(matches!(
        from_bytes::<i16>(&[5]),
        Err(WadError::UnexpectedEof)
    ));
}

fn entry_record(offset: i32, size: i32, name: &[u8; 8]) -> Vec<u8> {
    let mut v = Vec::new();
    v.extend_from_slice(&offset.to_le_bytes());
    v.extend_from_slice(&size.to_le_bytes());
    v.extend_from_slice(name);
    v
}

#[test]
fn entry_decodes_from_exactly_sixteen_bytes() {
    let rec = entry_record(60, 10, b"MAP01\0\0\0");
    let e = from_bytes::<DirectoryEntry>(&rec).unwrap();
    assert_eq!(e.offset, 60);
    assert_eq!(e.size, 10);
    assert_eq!(e.name, "MAP01");
}

#[test]
fn entry_with_a_byte_behind_is_trailing_bytes() {
    let mut rec = entry_record(60, 10, b"MAP01\0\0\0");
    rec.push(0);
    assert!(matches!(
        from_bytes::<DirectoryEntry>(&rec),
        Err(WadError::TrailingBytes)
    ));
}

#[test]
fn entry_cut_short_is_eof() {
    let rec = entry_record(60, 10, b"MAP01\0\0\0");
    for n in 0..16 {
        assert!(matches!(
            from_bytes::<DirectoryEntry>(&rec[..n]),
            Err(WadError::UnexpectedEof)
        ));
    }
}

#[test]
fn entry_with_a_bad_name_is_refused_with_the_field() {
    let field = [b'A', 0xff, b'B', 0, 0, 0, 0, 0];
    let rec = entry_record(1, 2, &field);
    match from_bytes::<DirectoryEntry>(&rec) {
        Err(WadError::InvalidLumpName(kept)) => assert_eq!(kept, field),
        other => panic!("{:?}", other),
    }
}

#[test]
fn bad_name_comes_before_trailing_bytes() {
    let field = [0xc3, 0, 0, 0, 0, 0, 0, 0];
    let mut rec = entry_record(1, 2, &field);
    rec.push(1);
    assert!(matches!(
        from_bytes::<DirectoryEntry>(&rec),
        Err(WadError::InvalidLumpName(_))
    ));
}
