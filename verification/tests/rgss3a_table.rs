use rgssad::io_util::ByteStream;
use rgssad::{Error, RGSSArchive, RGSSArchiveEntry};

fn entry(name: &str, size: u32, magic: u32) -> RGSSArchiveEntry {
    RGSSArchiveEntry { name: String::from(name), size, offset: 0, magic }
}

fn archive(entries: Vec<RGSSArchiveEntry>, magic: u32) -> RGSSArchive {
    RGSSArchive { version: 3, entries, magic }
}

const TWO_ENTRIES: [u8; 51] = [
    0x78, 0x56, 0x34, 0x12, 0x00, 0x0a, 0xd7, 0xa3, 0x3d, 0x0a, 0xd7, 0xa3, 0x85, 0xb0, 0x29, 0x69,
    0x31, 0x0a, 0xd7, 0xa3, 0x7f, 0x6b, 0xa3, 0xc2, 0x67, 0x6b, 0xf9, 0xc1, 0x52, 0x64, 0x7a, 0x0a,
    0xd7, 0xa3, 0x3a, 0x0a, 0xd7, 0xa3, 0x3c, 0x0a, 0xd7, 0xa3, 0x3a, 0x0a, 0xd7, 0xa3, 0x59, 0x3b,
    0x0a, 0xd7, 0xa3,
];

fn two() -> Vec<RGSSArchiveEntry> {
    vec![entry("Data/a.bin", 6, 0xcafebabe), entry("b", 1, 7)]
}

#[test]
fn fixed_table_without_entries_is_seed_and_end_mark() {
    let mut a = archive(Vec::new(), 0x12345678);
    let mut w = ByteStream::new(Vec::new());
    assert_eq!(a.write_entries(&mut w), Ok(()));
    assert_eq!(w.into_inner(), vec![0x78, 0x56, 0x34, 0x12, 0x3b, 0x0a, 0xd7, 0xa3]);
}

#[test]
fn fixed_table_without_entries_and_seed_zero() {
    let mut a = archive(Vec::new(), 0);
    let mut w = ByteStream::new(Vec::new());
    assert_eq!(a.write_entries(&mut w), Ok(()));
    assert_eq!(w.into_inner(), vec![0, 0, 0, 0, 3, 0, 0, 0]);
}

#[test]
fn fixed_table_without_entries_is_read_as_empty() {
    let mut r = ByteStream::new(vec![0x78, 0x56, 0x34, 0x12, 0x3b, 0x0a, 0xd7, 0xa3]);
    let mut a = archive(Vec::new(), 0);
    assert_eq!(a.read_entries(&mut r), Ok(()));
    assert!(a.entries.is_empty());
    assert_eq!(a.magic, 0x12345678);
    assert_eq!(r.stream_position(), 8);
}

#[test]
fn fixed_archive_without_entries_is_header_seed_and_end_mark() {
    let mut a = archive(Vec::new(), 0x12345678);
    let mut w = ByteStream::new(Vec::new());
    assert_eq!(a.write_header(&mut w), Ok(()));
    assert_eq!(a.write_entries(&mut w), Ok(()));
    let bytes = w.into_inner();
    assert_eq!(
        bytes,
        vec![
            0x52, 0x47, 0x53, 0x53, 0x41, 0x44, 0x00, 0x03, 0x78, 0x56, 0x34, 0x12, 0x3b, 0x0a,
            0xd7, 0xa3
        ]
    );
    let mut r = ByteStream::new(bytes);
    let mut read = RGSSArchive::default();
    assert_eq!(read.read_header(&mut r), Ok(()));
    assert_eq!(read.read_entries(&mut r), Ok(()));
    assert_eq!(read, a);
}

#[test]
fn fixed_table_of_two_entries_is_written() {
    let mut a = archive(two(), 0x12345678);
    let mut w = ByteStream::new(Vec::new());
    assert_eq!(a.write_entries(&mut w), Ok(()));
    assert_eq!(w.into_inner(), TWO_ENTRIES.to_vec());
    assert_eq!(a.entries[0].offset, 59);
    assert_eq!(a.entries[1].offset, 65);
    assert_eq!(a.entries[0].magic, 0xcafebabe);
    assert_eq!(a.entries[1].magic, 7);
    assert_eq!(a.magic, 0x12345678);
}

#[test]
fn fixed_table_of_two_entries_is_read() {
    let mut r = ByteStream::new(TWO_ENTRIES.to_vec());
    let mut a = archive(Vec::new(), 0);
    assert_eq!(a.read_entries(&mut r), Ok(()));
    assert_eq!(a.magic, 0x12345678);
    assert_eq!(
        a.entries,
        vec![
            RGSSArchiveEntry {
                name: String::from("Data/a.bin"),
                size: 6,
                offset: 59,
                magic: 0xcafebabe
            },
            RGSSArchiveEntry { name: String::from("b"), size: 1, offset: 65, magic: 7 },
        ]
    );
    assert_eq!(r.stream_position(), 51);
}

#[test]
fn fixed_table_reads_nothing_behind_the_end_mark() {
    let mut bytes = TWO_ENTRIES.to_vec();
    bytes.extend([0x3c, 0x0a, 0xd7, 0xa3, 1, 2, 3, 4, 5, 6, 7, 8, 9, 10, 11, 12]);
    let mut r = ByteStream::new(bytes);
    let mut a = archive(Vec::new(), 0);
    assert_eq!(a.read_entries(&mut r), Ok(()));
    assert_eq!(a.entries.len(), 2);
    assert_eq!(r.stream_position(), 51);
}

#[test]
fn fixed_table_without_a_seed_is_an_unexpected_end() {
    let mut r = ByteStream::new(vec![0x78, 0x56, 0x34]);
    let mut a = archive(vec![entry("kept", 1, 2)], 99);
    assert_eq!(a.read_entries(&mut r), Err(Error::UnexpectedEof));
    assert_eq!(a.magic, 99);
    assert_eq!(a.entries.len(), 1);
    assert_eq!(r.stream_position(), 3);
}

#[test]
fn fixed_table_without_an_end_mark_ends_in_order() {
    let mut r = ByteStream::new(TWO_ENTRIES[..47].to_vec());
    let mut a = archive(Vec::new(), 0);
    assert_eq!(a.read_entries(&mut r), Ok(()));
    assert_eq!(a.entries.len(), 2);
    assert_eq!(r.stream_position(), 47);
}

#[test]
fn fixed_table_cut_in_the_offset_ends_in_order() {
    for len in [4usize, 5, 7] {
        let mut r = ByteStream::new(TWO_ENTRIES[..len].to_vec());
        let mut a = archive(Vec::new(), 0);
        assert_eq!(a.read_entries(&mut r), Ok(()));
        assert!(a.entries.is_empty());
        assert_eq!(r.stream_position(), len as u64);
    }
}

#[test]
fn fixed_table_cut_behind_the_offset_is_invalid() {
    for len in [8usize, 11, 12, 15, 16, 19, 20, 29] {
        let mut r = ByteStream::new(TWO_ENTRIES[..len].to_vec());
        let mut a = archive(Vec::new(), 0);
        assert_eq!(a.read_entries(&mut r), Err(Error::InvalidData));
        assert!(a.entries.is_empty());
        assert_eq!(a.magic, 0x12345678);
        assert_eq!(r.stream_position(), len as u64);
    }
}

#[test]
fn fixed_table_with_a_name_cut_short_is_invalid() {
    let mut r = ByteStream::new(TWO_ENTRIES[..25].to_vec());
    let mut a = archive(Vec::new(), 0);
    assert_eq!(a.read_entries(&mut r), Err(Error::InvalidData));
    assert!(a.entries.is_empty());
    assert_eq!(a.magic, 0x12345678);
}

#[test]
fn fixed_table_keeps_what_it_read_before_a_broken_record() {
    let mut r = ByteStream::new(TWO_ENTRIES[..46].to_vec());
    let mut a = archive(Vec::new(), 0);
    assert_eq!(a.read_entries(&mut r), Err(Error::InvalidData));
    assert_eq!(a.entries.len(), 1);
    assert_eq!(a.entries[0].name, "Data/a.bin");
}

#[test]
fn fixed_table_ends_at_a_name_that_is_no_text() {
    let mut bytes = TWO_ENTRIES.to_vec();
    bytes[20] ^= 0x80;
    let mut r = ByteStream::new(bytes);
    let mut a = archive(Vec::new(), 0);
    assert_eq!(a.read_entries(&mut r), Ok(()));
    assert!(a.entries.is_empty());
    assert_eq!(r.stream_position(), 30);
}

#[test]
fn fixed_table_whose_offsets_overflow_is_invalid() {
    let before = vec![entry("a", u32::MAX - 40, 1), entry("b", 7, 2)];
    let mut a = archive(before.clone(), 5);
    let mut w = ByteStream::new(vec![5]);
    assert_eq!(a.write_entries(&mut w), Err(Error::InvalidData));
    assert_eq!(a.entries, before);
    assert_eq!(w.into_inner(), vec![5]);
}

#[test]
fn fixed_table_that_just_fits_is_written() {
    let mut a = archive(vec![entry("a", u32::MAX - 33, 1)], 5);
    let mut w = ByteStream::new(Vec::new());
    assert_eq!(a.write_entries(&mut w), Ok(()));
    assert_eq!(a.entries[0].offset, 33);
    let mut a = archive(vec![entry("a", u32::MAX - 32, 1)], 5);
    let mut w = ByteStream::new(Vec::new());
    assert_eq!(a.write_entries(&mut w), Err(Error::InvalidData));
}

#[test]
fn fixed_table_without_room_is_not_written() {
    let before = two();
    let mut a = archive(before.clone(), 5);
    let mut w = ByteStream::new(vec![5]);
    w.seek(u64::MAX - 20);
    assert_eq!(a.write_entries(&mut w), Err(Error::StorageFull));
    assert_eq!(a.entries, before);
    assert_eq!(w.into_inner(), vec![5]);
}

#[test]
fn fixed_table_fields_are_the_values_xored_with_the_mask() {
    let mask = 0xa3d70a3b_u32;
    let word = |at: usize| {
        u32::from_le_bytes([
            TWO_ENTRIES[at],
            TWO_ENTRIES[at + 1],
            TWO_ENTRIES[at + 2],
            TWO_ENTRIES[at + 3],
        ])
    };
    assert_eq!(word(0), 0x12345678);
    assert_eq!(word(4) ^ mask, 59);
    assert_eq!(word(8) ^ mask, 6);
    assert_eq!(word(12) ^ mask, 0xcafebabe);
    assert_eq!(word(16) ^ mask, 10);
    let name: Vec<u8> =
        (0..10).map(|i| TWO_ENTRIES[20 + i] ^ mask.to_le_bytes()[i % 4]).collect();
    assert_eq!(name, b"Data\\a.bin".to_vec());
    assert_eq!(word(30) ^ mask, 65);
    assert_eq!(word(34) ^ mask, 1);
    assert_eq!(word(38) ^ mask, 7);
    assert_eq!(word(42) ^ mask, 1);
    assert_eq!(TWO_ENTRIES[46] ^ 0x3b, b'b');
    assert_eq!(word(47) ^ mask, 0);
}
