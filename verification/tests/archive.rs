use wad::directory::append_bytes;
use wad::directory::append_i32;
use wad::serialize;
use wad::Directory;
use wad::DirectoryEntry;
use wad::IoCause;
use wad::Lump;
use wad::Wad;
use wad::WadDeserializer;
use wad::WadError;
use wad::WadHeader;

fn lump(name: &str, data: &[u8]) -> Lump {
    Lump {
        name: name.to_string(),
        data: data.to_vec(),
    }
}

fn entry(offset: i32, size: i32, name: &str) -> DirectoryEntry {
    DirectoryEntry {
        offset,
        size,
        name: name.to_string(),
    }
}

fn field(name: &str) -> [u8; 8] {
    let mut f = [0u8; 8];
    f[..name.len()].copy_from_slice(name.as_bytes());
    f
}

/// An archive laid out by hand: header, lumps, then the directory.
fn archive(magic: &[u8; 4], lumps: &[(&str, &[u8])]) -> Vec<u8> {
    let mut body = Vec::new();
    let mut table = Vec::new();
    for (name, data) in lumps {
        let at = 12 + body.len() as i32;
        table.extend_from_slice(&at.to_le_bytes());
        table.extend_from_slice(&(data.len() as i32).to_le_bytes());
        table.extend_from_slice(&field(name));
        body.extend_from_slice(data);
    }
    let mut out = Vec::new();
    out.extend_from_slice(magic);
    out.extend_from_slice(&(lumps.len() as i32).to_le_bytes());
    out.extend_from_slice(&(12 + body.len() as i32).to_le_bytes());
    out.extend_from_slice(&body);
    out.extend_from_slice(&table);
    out
}

fn names_of(wad: &Wad) -> Vec<String> {
    let mut names = Vec::new();
    let mut it = wad.directory.iter();
    while let Some(e) = it.next() {
        names.push(e.name.clone());
    }
    names
}

#[test]
fn append_i32_is_little_endian() {
    let mut out = vec![9u8];
    append_i32(&mut out, 0x1234_5678);
    append_i32(&mut out, -2);
    assert_eq!(out, [9, 0x78, 0x56, 0x34, 0x12, 0xfe, 0xff, 0xff, 0xff]);
}

#[test]
fn append_bytes_puts_them_behind() {
    let mut out = vec![1u8, 2];
    append_bytes(&mut out, &[3, 4, 5]);
    append_bytes(&mut out, &[]);
    assert_eq!(out, [1, 2, 3, 4, 5]);
}

#[test]
fn header_reads_both_magic_numbers() {
    for magic in [b"IWAD", b"PWAD"] {
        let mut bytes = magic.to_vec();
        bytes.extend_from_slice(&3i32.to_le_bytes());
        bytes.extend_from_slice(&0x1234i32.to_le_bytes());
        bytes.push(0xee);
        let mut de = WadDeserializer::from_bytes(&bytes);
        let h = WadHeader::new(&mut de).unwrap();
        assert_eq!(h.num_lumps, 3);
        assert_eq!(h.directory_offset, 0x1234);
        assert_eq!(de.remaining(), 1);
    }
}

#[test]
fn header_refuses_another_magic_number_with_its_bytes() {
    let mut bytes = b"ZWAD".to_vec();
    bytes.extend_from_slice(&[0; 8]);
    let mut de = WadDeserializer::from_bytes(&bytes);
    match WadHeader::new(&mut de) {
        Err(WadError::InvalidMagicNumber(m)) => assert_eq!(&m, b"ZWAD"),
        other => panic!("{:?}", other),
    }
    assert_eq!(de.remaining(), 8);
}

#[test]
fn header_magic_is_checked_before_the_numbers_are_read() {
    let mut de = WadDeserializer::from_bytes(b"IWAX");
    assert!(matches!(
        WadHeader::new(&mut de),
        Err(WadError::InvalidMagicNumber(_))
    ));
}

#[test]
fn header_cut_short_could_not_be_read() {
    for bytes in [&b"PW"[..], &b"PWAD"[..], &b"IWAD\x01\0\0\0\x0c\0\0"[..]] {
        let mut de = WadDeserializer::from_bytes(bytes);
        assert!(matches!(
            WadHeader::new(&mut de),
            Err(WadError::CouldntReadHeader(IoCause::UnexpectedEof))
        ));
    }
}

#[test]
fn header_is_written_under_pwad() {
    let mut out = Vec::new();
    WadHeader {
        num_lumps: 2,
        directory_offset: 12,
    }
    .write(&mut out);
    assert_eq!(out, b"PWAD\x02\0\0\0\x0c\0\0\0");
}

#[test]
fn entry_is_written_as_sixteen_bytes() {
    let mut out = Vec::new();
    entry(60, 10, "MAP01").write(&mut out).unwrap();
    assert_eq!(out, b"\x3c\0\0\0\x0a\0\0\0MAP01\0\0\0");
}

#[test]
fn entry_with_a_name_of_eight_bytes_fills_the_field() {
    let mut out = Vec::new();
    entry(-1, 0, "ABCDEFGH").write(&mut out).unwrap();
    assert_eq!(out, b"\xff\xff\xff\xff\0\0\0\0ABCDEFGH");
}

#[test]
fn entry_with_a_longer_name_stops_behind_the_numbers() {
    let mut out = vec![7u8];
    let r = entry(1, 2, "ABCDEFGHI").write(&mut out);
    assert!(matches!(
        r,
        Err(WadError::CouldntWriteEntry(IoCause::WriteZero))
    ));
    assert_eq!(out, [7, 1, 0, 0, 0, 2, 0, 0, 0]);
}

#[test]
fn entry_read_as_part_of_a_directory() {
    let mut bytes = Vec::new();
    entry(60, 10, "E1M1").write(&mut bytes).unwrap();
    bytes.push(0x55);
    let mut de = WadDeserializer::from_bytes(&bytes);
    let e = DirectoryEntry::new(&mut de).unwrap();
    assert_eq!((e.offset, e.size, e.name.as_str()), (60, 10, "E1M1"));
    assert_eq!(de.remaining(), 1);
    assert!(matches!(
        DirectoryEntry::new(&mut de),
        Err(WadError::CouldntReadEntry(IoCause::UnexpectedEof))
    ));
}

#[test]
fn directory_walk_is_in_order_and_can_start_again() {
    let d = Directory::from_entries(vec![entry(1, 2, "A"), entry(3, 4, "B"), entry(5, 6, "A")]);
    assert_eq!(d.len(), 3);
    for _ in 0..2 {
        let mut it = d.iter();
        assert_eq!(it.next().unwrap().offset, 1);
        assert_eq!(it.next().unwrap().name, "B");
        assert_eq!(it.next().unwrap().size, 6);
        assert!(it.next().is_none());
        assert!(it.next().is_none());
    }
    assert_eq!(d.get(1).unwrap().offset, 3);
    assert!(d.get(3).is_none());
}

#[test]
fn directory_is_written_entry_by_entry() {
    let d = Directory::from_entries(vec![entry(1, 2, "A"), entry(3, 4, "BC")]);
    let mut out = Vec::new();
    d.write(&mut out).unwrap();
    assert_eq!(out, b"\x01\0\0\0\x02\0\0\0A\0\0\0\0\0\0\0\x03\0\0\0\x04\0\0\0BC\0\0\0\0\0\0");
}

#[test]
fn directory_write_ends_at_the_first_name_that_is_too_long() {
    let d = Directory::from_entries(vec![
        entry(1, 2, "A"),
        entry(3, 4, "MUCHTOOLONG"),
        entry(5, 6, "C"),
    ]);
    let mut out = Vec::new();
    assert!(matches!(
        d.write(&mut out),
        Err(WadError::CouldntWriteEntry(IoCause::WriteZero))
    ));
    assert_eq!(out, b"\x01\0\0\0\x02\0\0\0A\0\0\0\0\0\0\0\x03\0\0\0\x04\0\0\0");
}

#[test]
fn lump_is_the_range_that_its_entry_addresses() {
    let source = [10u8, 11, 12, 13, 14, 15];
    let l = Lump::new(&source, &entry(2, 3, "X")).unwrap();
    assert_eq!(l.name, "X");
    assert_eq!(l.data, [12, 13, 14]);
    let whole = Lump::new(&source, &entry(0, 6, "Y")).unwrap();
    assert_eq!(whole.data, source);
}

#[test]
fn lump_without_bytes_lies_anywhere() {
    let source = [1u8, 2];
    assert!(Lump::new(&source, &entry(0, 0, "A")).unwrap().data.is_empty());
    assert!(Lump::new(&source, &entry(2, 0, "A")).unwrap().data.is_empty());
    assert!(Lump::new(&source, &entry(999, 0, "A")).unwrap().data.is_empty());
    assert!(Lump::new(&source, &entry(-5, 0, "A")).unwrap().data.is_empty());
}

#[test]
fn lump_beyond_the_source_could_not_be_read() {
    let source = [1u8, 2, 3, 4];
    for (offset, size) in [(2, 3), (4, 1), (5, 1), (-1, 2), (0, 5), (i32::MAX, i32::MAX)] {
        assert!(matches!(
            Lump::new(&source, &entry(offset, size, "A")),
            Err(WadError::CouldntReadLump(IoCause::UnexpectedEof))
        ));
    }
}

#[test]
fn lump_of_negative_size_could_not_be_read() {
    assert!(matches!(
        Lump::new(&[1, 2, 3], &entry(0, -1, "A")),
        Err(WadError::CouldntReadLump(IoCause::InvalidInput))
    ));
}

#[test]
fn lump_write_puts_its_bytes_behind() {
    let mut out = vec![1u8];
    lump("A", &[2, 3]).write(&mut out);
    assert_eq!(out, [1, 2, 3]);
}

#[test]
fn open_reads_directory_and_lumps() {
    let bytes = archive(b"IWAD", &[("ONE", &[1, 2, 3]), ("TWO", &[]), ("THREE", &[4, 5])]);
    let wad = Wad::new(&bytes).unwrap();
    assert_eq!(names_of(&wad), ["ONE", "TWO", "THREE"]);
    assert_eq!(wad.lumps.len(), 3);
    assert_eq!(wad.lumps[0].data, [1, 2, 3]);
    assert_eq!(wad.lumps[1].data, [0u8; 0]);
    assert_eq!(wad.lumps[2].data, [4, 5]);
    assert_eq!(wad.lumps[2].name, "THREE");
    assert_eq!(wad.directory.get(0).unwrap().offset, 12);
    assert_eq!(wad.directory.get(2).unwrap().offset, 15);
    assert_eq!(wad.directory.get(2).unwrap().size, 2);
    assert_eq!(wad.lookup("TWO"), Some(1));
    assert_eq!(wad.lookup("FOUR"), None);
    assert_eq!(wad.lump_index.len(), 3);
}

#[test]
fn open_an_archive_without_lumps() {
    let wad = Wad::new(b"PWAD\0\0\0\0\x0c\0\0\0").unwrap();
    assert_eq!(wad.directory.len(), 0);
    assert!(wad.lumps.is_empty());
    assert_eq!(wad.lookup(""), None);
}

#[test]
fn open_lets_lumps_overlap_and_lie_in_any_order() {
    let mut bytes = b"PWAD".to_vec();
    bytes.extend_from_slice(&2i32.to_le_bytes());
    bytes.extend_from_slice(&16i32.to_le_bytes());
    bytes.extend_from_slice(&[1, 2, 3, 4]);
    entry(13, 3, "B").write(&mut bytes).unwrap();
    entry(12, 2, "A").write(&mut bytes).unwrap();
    let wad = Wad::new(&bytes).unwrap();
    assert_eq!(wad.lumps[0].data, [2, 3, 4]);
    assert_eq!(wad.lumps[1].data, [1, 2]);
}

#[test]
fn open_refuses_another_magic_number() {
    let mut bytes = archive(b"PWAD", &[("A", &[1])]);
    bytes[0] = b'X';
    match Wad::new(&bytes) {
        Err(WadError::InvalidMagicNumber(m)) => assert_eq!(&m, b"XWAD"),
        other => panic!("{:?}", other.map(|_| ())),
    }
}

#[test]
fn open_a_source_too_short_for_a_header() {
    assert!(matches!(
        Wad::new(b"PWAD\x01\0\0"),
        Err(WadError::CouldntReadHeader(IoCause::UnexpectedEof))
    ));
    assert!(matches!(
        Wad::new(b""),
        Err(WadError::CouldntReadHeader(IoCause::UnexpectedEof))
    ));
}

#[test]
fn open_refuses_a_negative_number_of_lumps() {
    let mut bytes = b"PWAD".to_vec();
    bytes.extend_from_slice(&(-1i32).to_le_bytes());
    bytes.extend_from_slice(&12i32.to_le_bytes());
    assert!(matches!(
        Wad::new(&bytes),
        Err(WadError::CouldntReadHeader(IoCause::InvalidInput))
    ));
}

#[test]
fn open_a_directory_that_is_cut_short() {
    let mut bytes = archive(b"PWAD", &[("A", &[1]), ("B", &[2])]);
    bytes.pop();
    assert!(matches!(
        Wad::new(&bytes),
        Err(WadError::CouldntReadEntry(IoCause::UnexpectedEof))
    ));
}

#[test]
fn open_a_directory_that_lies_outside_the_source() {
    for at in [13i32, 1000, -4, i32::MIN] {
        let mut bytes = b"PWAD".to_vec();
        bytes.extend_from_slice(&1i32.to_le_bytes());
        bytes.extend_from_slice(&at.to_le_bytes());
        assert!(matches!(
            Wad::new(&bytes),
            Err(WadError::CouldntReadEntry(IoCause::UnexpectedEof))
        ));
    }
}

#[test]
fn open_refuses_a_name_that_is_no_text() {
    let mut bytes = archive(b"PWAD", &[("A", &[1]), ("B", &[2])]);
    let n = bytes.len();
    bytes[n - 8] = 0xff;
    match Wad::new(&bytes) {
        Err(WadError::InvalidLumpName(f)) => assert_eq!(f, [0xff, 0, 0, 0, 0, 0, 0, 0]),
        other => panic!("{:?}", other.map(|_| ())),
    }
}

#[test]
fn open_a_lump_that_lies_outside_the_source() {
    let mut bytes = b"PWAD".to_vec();
    bytes.extend_from_slice(&1i32.to_le_bytes());
    bytes.extend_from_slice(&12i32.to_le_bytes());
    entry(20, 9, "A").write(&mut bytes).unwrap();
    assert!(matches!(
        Wad::new(&bytes),
        Err(WadError::CouldntReadLump(IoCause::UnexpectedEof))
    ));
}

#[test]
fn open_a_lump_of_negative_size() {
    let mut bytes = b"PWAD".to_vec();
    bytes.extend_from_slice(&1i32.to_le_bytes());
    bytes.extend_from_slice(&12i32.to_le_bytes());
    entry(0, -3, "A").write(&mut bytes).unwrap();
    assert!(matches!(
        Wad::new(&bytes),
        Err(WadError::CouldntReadLump(IoCause::InvalidInput))
    ));
}

#[test]
fn directory_failure_comes_before_lump_failure() {
    let mut bytes = b"PWAD".to_vec();
    bytes.extend_from_slice(&2i32.to_le_bytes());
    bytes.extend_from_slice(&12i32.to_le_bytes());
    entry(5000, 9, "A").write(&mut bytes).unwrap();
    bytes.extend_from_slice(&[0, 0, 0, 0, 0, 0, 0, 0, 0xff, 0, 0, 0, 0, 0, 0, 0]);
    assert!(matches!(
        Wad::new(&bytes),
        Err(WadError::InvalidLumpName(_))
    ));
}

#[test]
fn later_entry_of_the_same_name_shadows_the_earlier() {
    let bytes = archive(
        b"PWAD",
        &[("DUP", &[1]), ("A", &[2]), ("B", &[3]), ("DUP", &[4, 5])],
    );
    let wad = Wad::new(&bytes).unwrap();
    assert_eq!(wad.lookup("DUP"), Some(3));
    assert_eq!(wad.lookup("A"), Some(1));
    assert_eq!(names_of(&wad), ["DUP", "A", "B", "DUP"]);
    assert_eq!(wad.lumps[0].data, [1]);
    assert_eq!(wad.lumps[3].data, [4, 5]);
    assert_eq!(wad.lump_index.len(), 3);
}

#[test]
fn written_offsets_follow_one_another() {
    let lumps = vec![lump("TEN", &[7; 10]), lump("NONE", &[]), lump("SEVEN", &[9; 7])];
    let bytes = serialize(&lumps).unwrap();
    assert_eq!(bytes.len(), 77);
    assert_eq!(&bytes[..12], b"PWAD\x03\0\0\0\x0c\0\0\0");
    let wad = Wad::new(&bytes).unwrap();
    let offsets: Vec<i32> = (0..3).map(|i| wad.directory.get(i).unwrap().offset).collect();
    let sizes: Vec<i32> = (0..3).map(|i| wad.directory.get(i).unwrap().size).collect();
    assert_eq!(offsets, [60, 70, 70]);
    assert_eq!(sizes, [10, 0, 7]);
    assert_eq!(&bytes[60..70], [7; 10]);
    assert_eq!(&bytes[70..77], [9; 7]);
}

#[test]
fn written_archive_byte_for_byte() {
    let bytes = serialize(&vec![lump("AB", &[1, 2]), lump("C", &[3])]).unwrap();
    let mut want = b"PWAD\x02\0\0\0\x0c\0\0\0".to_vec();
    want.extend_from_slice(b"\x2c\0\0\0\x02\0\0\0AB\0\0\0\0\0\0");
    want.extend_from_slice(b"\x2e\0\0\0\x01\0\0\0C\0\0\0\0\0\0\0");
    want.extend_from_slice(&[1, 2, 3]);
    assert_eq!(bytes, want);
}

#[test]
fn written_archive_without_lumps_is_a_header() {
    assert_eq!(serialize(&Vec::new()).unwrap(), b"PWAD\0\0\0\0\x0c\0\0\0");
}

#[test]
fn write_ends_at_the_first_name_that_is_too_long() {
    let lumps = vec![lump("FINE", &[1]), lump("NINEBYTES", &[2])];
    assert!(matches!(
        serialize(&lumps),
        Err(WadError::CouldntWriteEntry(IoCause::WriteZero))
    ));
}

#[test]
fn round_trip_keeps_names_sizes_and_bytes() {
    let first = Wad::new(&archive(
        b"IWAD",
        &[("E1M1", &[1, 2, 3]), ("", &[]), ("THINGS", &[4; 40]), ("E1M1", &[5])],
    ))
    .unwrap();
    let bytes = first.write().unwrap();
    assert_eq!(&bytes[..4], b"PWAD");
    let again = Wad::new(&bytes).unwrap();
    assert_eq!(names_of(&again), names_of(&first));
    assert_eq!(again.lumps.len(), first.lumps.len());
    for i in 0..first.lumps.len() {
        assert_eq!(again.lumps[i].name, first.lumps[i].name);
        assert_eq!(again.lumps[i].data, first.lumps[i].data);
        assert_eq!(
            again.directory.get(i).unwrap().size,
            first.directory.get(i).unwrap().size
        );
    }
    assert_eq!(again.lookup("E1M1"), Some(3));
    assert_eq!(again.write().unwrap(), bytes);
}
