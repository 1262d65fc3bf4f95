use rgssad::io_util::ByteStream;
use rgssad::magic::advance_magic;
use rgssad::{Error, RGSSArchive, RGSSArchiveEntry};

fn entry(name: &str, size: u32) -> RGSSArchiveEntry {
    RGSSArchiveEntry { name: String::from(name), size, offset: 0, magic: 0 }
}

fn archive(version: u8, entries: Vec<RGSSArchiveEntry>) -> RGSSArchive {
    RGSSArchive { version, entries, magic: 0 }
}

const ONE_ENTRY: [u8; 16] = [
    0xfb, 0xca, 0xad, 0xde, 0x94, 0x98, 0x89, 0x96, 0xf1, 0xa5, 0x49, 0x66, 0xbb, 0x00, 0x00, 0x00,
];

const THREE_ENTRIES: [u8; 75] = [
    0xec, 0xca, 0xad, 0xde, 0xb1, 0xd7, 0x89, 0x8f, 0xd9, 0xeb, 0xec, 0xae, 0x25, 0xa6, 0x2c, 0xe0,
    0xd7, 0xfe, 0xc9, 0xdf, 0x41, 0x17, 0x38, 0xc1, 0x59, 0x7f, 0x00, 0x00, 0x00, 0x00, 0x00, 0xbc,
    0x48, 0x74, 0x7b, 0x82, 0x14, 0xac, 0xee, 0x3d, 0x3f, 0x3e, 0xfd, 0xb9, 0x85, 0x71, 0x10, 0xb6,
    0x99, 0x53, 0x1e, 0x6b, 0x41, 0x0d, 0x20, 0xc3, 0xf4, 0x5f, 0xe0, 0x55, 0xb1, 0xed, 0x1f, 0xf2,
    0x6f, 0xf1, 0x00, 0x00, 0x00, 0x00, 0x00, 0x00, 0x00, 0x00, 0x00,
];

fn three() -> Vec<RGSSArchiveEntry> {
    vec![entry("Data/Map001.rxdata", 5), entry("Graphics/Ünï.png", 0), entry("x", 9)]
}

#[test]
fn rolling_table_of_one_entry_is_written() {
    for version in [1u8, 2] {
        let mut a = archive(version, vec![entry("a.txt", 3)]);
        let mut w = ByteStream::new(vec![0; 8]);
        w.seek(8);
        assert_eq!(a.write_entries(&mut w), Ok(()));
        assert_eq!(w.stream_position(), 24);
        assert_eq!(&w.get_ref()[8..], &ONE_ENTRY);
        assert_eq!(a.entries[0].offset, 21);
        assert_eq!(a.entries[0].magic, 0x1fcc038d);
        assert_eq!(a.entries[0].name, "a.txt");
        assert_eq!(a.entries[0].size, 3);
    }
}

#[test]
fn rolling_table_of_three_entries_is_written() {
    let mut a = archive(1, three());
    let mut w = ByteStream::new(Vec::new());
    assert_eq!(a.write_entries(&mut w), Ok(()));
    assert_eq!(w.into_inner(), THREE_ENTRIES.to_vec());
    let offsets: Vec<u32> = a.entries.iter().map(|e| e.offset).collect();
    let seeds: Vec<u32> = a.entries.iter().map(|e| e.magic).collect();
    assert_eq!(offsets, vec![34, 65, 74]);
    assert_eq!(seeds, vec![0x7b7448ae, 0xb155e05e, 0x9a0f9e9d]);
}

#[test]
fn rolling_table_without_entries_is_empty() {
    let mut a = archive(2, Vec::new());
    let mut w = ByteStream::new(vec![1, 2, 3]);
    w.seek(3);
    assert_eq!(a.write_entries(&mut w), Ok(()));
    assert_eq!(w.into_inner(), vec![1, 2, 3]);
}

#[test]
fn rolling_table_of_one_entry_is_read() {
    let mut bytes = vec![0x52, 0x47, 0x53, 0x53, 0x41, 0x44, 0x00, 0x01];
    bytes.extend(ONE_ENTRY);
    let mut r = ByteStream::new(bytes);
    let mut a = RGSSArchive::default();
    assert_eq!(a.read_header(&mut r), Ok(()));
    assert_eq!(a.read_entries(&mut r), Ok(()));
    assert_eq!(
        a.entries,
        vec![RGSSArchiveEntry { name: String::from("a.txt"), size: 3, offset: 21, magic: 0x1fcc038d }]
    );
    assert_eq!(r.stream_position(), 24);
}

#[test]
fn rolling_table_of_three_entries_is_read() {
    let mut r = ByteStream::new(THREE_ENTRIES.to_vec());
    let mut a = archive(2, Vec::new());
    assert_eq!(a.read_entries(&mut r), Ok(()));
    let names: Vec<&str> = a.entries.iter().map(|e| e.name.as_str()).collect();
    assert_eq!(names, vec!["Data/Map001.rxdata", "Graphics/Ünï.png", "x"]);
    let sizes: Vec<u32> = a.entries.iter().map(|e| e.size).collect();
    assert_eq!(sizes, vec![5, 0, 9]);
    let offsets: Vec<u32> = a.entries.iter().map(|e| e.offset).collect();
    assert_eq!(offsets, vec![34 - 8, 65 - 8, 74 - 8]);
    let seeds: Vec<u32> = a.entries.iter().map(|e| e.magic).collect();
    assert_eq!(seeds, vec![0x7b7448ae, 0xb155e05e, 0x9a0f9e9d]);
}

#[test]
fn rolling_table_appends_to_the_entries() {
    let mut bytes = vec![0u8; 8];
    bytes.extend(ONE_ENTRY);
    let mut r = ByteStream::new(bytes);
    r.seek(8);
    let mut a = archive(1, vec![entry("kept", 1)]);
    assert_eq!(a.read_entries(&mut r), Ok(()));
    assert_eq!(a.entries.len(), 2);
    assert_eq!(a.entries[0], entry("kept", 1));
    assert_eq!(a.entries[1].name, "a.txt");
}

#[test]
fn rolling_seed_continues_over_the_records() {
    let mut a = archive(1, three());
    let mut w = ByteStream::new(Vec::new());
    assert_eq!(a.write_entries(&mut w), Ok(()));
    let mut magic = 0xdeadcafe_u32;
    for e in &a.entries {
        for _ in 0..(1 + e.name.len() + 1) {
            advance_magic(&mut magic);
        }
        assert_eq!(e.magic, magic);
    }
}

#[test]
fn rolling_table_ends_where_the_data_end() {
    let mut r = ByteStream::new(ONE_ENTRY[..3].to_vec());
    let mut a = archive(1, Vec::new());
    assert_eq!(a.read_entries(&mut r), Ok(()));
    assert!(a.entries.is_empty());
    assert_eq!(r.stream_position(), 3);
}

#[test]
fn rolling_table_with_a_name_cut_short_ends_in_order() {
    let mut r = ByteStream::new(ONE_ENTRY[..7].to_vec());
    let mut a = archive(1, Vec::new());
    assert_eq!(a.read_entries(&mut r), Ok(()));
    assert!(a.entries.is_empty());
    assert_eq!(r.stream_position(), 7);
}

#[test]
fn rolling_table_without_the_size_ends_in_order() {
    let mut r = ByteStream::new(ONE_ENTRY[..11].to_vec());
    let mut a = archive(1, Vec::new());
    assert_eq!(a.read_entries(&mut r), Ok(()));
    assert!(a.entries.is_empty());
}

#[test]
fn rolling_table_keeps_what_it_read_before_the_data_end() {
    let mut bytes = THREE_ENTRIES[..58].to_vec();
    bytes.extend([0xf4, 0x5f, 0xe0, 0x54]);
    let mut r = ByteStream::new(bytes);
    let mut a = archive(1, Vec::new());
    assert_eq!(a.read_entries(&mut r), Ok(()));
    assert_eq!(a.entries.len(), 2);
    assert_eq!(a.entries[1].name, "Graphics/Ünï.png");
    assert_eq!(r.stream_position(), 62);
}

#[test]
fn rolling_table_ends_at_a_name_that_is_no_text() {
    let mut magic = 0xdeadcafe_u32;
    let mut bytes = Vec::new();
    bytes.extend((2u32 ^ advance_magic(&mut magic)).to_le_bytes());
    bytes.push(0xff ^ advance_magic(&mut magic) as u8);
    bytes.push(0xfe ^ advance_magic(&mut magic) as u8);
    bytes.extend((0u32 ^ advance_magic(&mut magic)).to_le_bytes());
    let mut r = ByteStream::new(bytes);
    let mut a = archive(1, Vec::new());
    assert_eq!(a.read_entries(&mut r), Ok(()));
    assert!(a.entries.is_empty());
    assert_eq!(r.stream_position(), 6);
}

#[test]
fn rolling_table_skips_the_payloads() {
    let mut bytes = THREE_ENTRIES.to_vec();
    for b in &mut bytes[26..31] {
        *b = 0xee;
    }
    for b in &mut bytes[66..75] {
        *b = 0x77;
    }
    let mut r = ByteStream::new(bytes);
    let mut a = archive(1, Vec::new());
    assert_eq!(a.read_entries(&mut r), Ok(()));
    assert_eq!(a.entries.len(), 3);
    assert_eq!(r.stream_position(), 75);
}

#[test]
fn rolling_table_reads_past_a_payload_beyond_the_end() {
    let mut r = ByteStream::new(THREE_ENTRIES[..70].to_vec());
    let mut a = archive(1, Vec::new());
    assert_eq!(a.read_entries(&mut r), Ok(()));
    assert_eq!(a.entries.len(), 3);
    assert_eq!(a.entries[2].size, 9);
    assert_eq!(r.stream_position(), 75);
}

#[test]
fn rolling_table_whose_offsets_overflow_is_invalid() {
    let before = vec![entry("a", 7), entry("b", u32::MAX - 20), entry("c", 1)];
    let mut a = archive(1, before.clone());
    let mut w = ByteStream::new(vec![5]);
    assert_eq!(a.write_entries(&mut w), Err(Error::InvalidData));
    assert_eq!(a.entries, before);
    assert_eq!(w.into_inner(), vec![5]);
}

#[test]
fn rolling_table_without_room_is_not_written() {
    let before = vec![entry("a", 7)];
    let mut a = archive(1, before.clone());
    let mut w = ByteStream::new(vec![5]);
    w.seek(u64::MAX - 10);
    assert_eq!(a.write_entries(&mut w), Err(Error::StorageFull));
    assert_eq!(a.entries, before);
    assert_eq!(w.into_inner(), vec![5]);
}

#[test]
fn table_of_unsupported_version_is_refused() {
    for version in [0u8, 4, 9] {
        let before = vec![entry("a", 7)];
        let mut a = archive(version, before.clone());
        let mut w = ByteStream::new(Vec::new());
        assert_eq!(a.write_entries(&mut w), Err(Error::UnsupportedVersion));
        assert!(w.into_inner().is_empty());
        let mut r = ByteStream::new(ONE_ENTRY.to_vec());
        assert_eq!(a.read_entries(&mut r), Err(Error::UnsupportedVersion));
        assert_eq!(r.stream_position(), 0);
        assert_eq!(a.entries, before);
    }
}

#[test]
fn archives_compare_by_their_fields() {
    let a = archive(1, three());
    assert_eq!(a, a.clone());
    assert_ne!(a, archive(2, three()));
    assert_ne!(a, archive(1, Vec::new()));
    assert_ne!(a, RGSSArchive { version: 1, entries: three(), magic: 1 });
    let mut other = three();
    other[2].size = 10;
    assert_ne!(a, archive(1, other));
}
