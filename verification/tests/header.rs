use rgssad::io_util::ByteStream;
use rgssad::{Error, RGSSArchive};

fn header(version: u8) -> Vec<u8> {
    vec![0x52, 0x47, 0x53, 0x53, 0x41, 0x44, 0x00, version]
}

#[test]
fn header_of_version_1_parses() {
    let mut archive = RGSSArchive::default();
    let mut r = ByteStream::new(vec![0x52, 0x47, 0x53, 0x53, 0x41, 0x44, 0x00, 0x01]);
    assert_eq!(archive.read_header(&mut r), Ok(()));
    assert_eq!(archive.version, 1);
    assert_eq!(r.stream_position(), 8);
}

#[test]
fn header_of_every_version_parses() {
    for version in 1..=3u8 {
        let mut archive = RGSSArchive::default();
        let mut r = ByteStream::new(header(version));
        assert_eq!(archive.read_header(&mut r), Ok(()));
        assert_eq!(archive.version, version);
    }
}

#[test]
fn header_with_wrong_signature_is_invalid() {
    let mut archive = RGSSArchive::default();
    let mut r = ByteStream::new(vec![0x52, 0x47, 0x53, 0x53, 0x41, 0x45, 0x00, 0x01]);
    assert_eq!(archive.read_header(&mut r), Err(Error::InvalidHeader));
    assert_eq!(archive.version, 0);
    assert_eq!(r.stream_position(), 8);
}

#[test]
fn header_with_wrong_first_byte_is_invalid() {
    let mut archive = RGSSArchive::default();
    let mut r = ByteStream::new(vec![0x53, 0x47, 0x53, 0x53, 0x41, 0x44, 0x00, 0x03]);
    assert_eq!(archive.read_header(&mut r), Err(Error::InvalidHeader));
}

#[test]
fn header_of_version_0_and_4_is_unsupported() {
    for version in [0u8, 4, 255] {
        let mut archive = RGSSArchive::default();
        archive.version = 2;
        let mut r = ByteStream::new(header(version));
        assert_eq!(archive.read_header(&mut r), Err(Error::UnsupportedVersion));
        assert_eq!(archive.version, version);
    }
}

#[test]
fn header_ignores_the_seventh_byte() {
    let mut archive = RGSSArchive::default();
    let mut r = ByteStream::new(vec![0x52, 0x47, 0x53, 0x53, 0x41, 0x44, 0x7f, 0x02]);
    assert_eq!(archive.read_header(&mut r), Ok(()));
    assert_eq!(archive.version, 2);
}

#[test]
fn short_header_is_an_unexpected_end() {
    let mut archive = RGSSArchive::default();
    let mut r = ByteStream::new(vec![0x52, 0x47, 0x53, 0x53, 0x41, 0x44, 0x00]);
    assert_eq!(archive.read_header(&mut r), Err(Error::UnexpectedEof));
    assert_eq!(archive.version, 0);
    assert_eq!(r.stream_position(), 7);
}

#[test]
fn header_is_read_at_the_position() {
    let mut bytes = vec![9, 9, 9];
    bytes.extend(header(3));
    bytes.push(0xaa);
    let mut r = ByteStream::new(bytes);
    r.seek(3);
    let mut archive = RGSSArchive::default();
    assert_eq!(archive.read_header(&mut r), Ok(()));
    assert_eq!(archive.version, 3);
    assert_eq!(r.stream_position(), 11);
}

#[test]
fn written_header_is_signature_zero_version() {
    for version in 1..=3u8 {
        let archive = RGSSArchive { version, entries: Vec::new(), magic: 0 };
        let mut w = ByteStream::new(Vec::new());
        assert_eq!(archive.write_header(&mut w), Ok(()));
        assert_eq!(w.stream_position(), 8);
        assert_eq!(w.into_inner(), header(version));
    }
}

#[test]
fn header_of_unsupported_version_is_not_written() {
    for version in [0u8, 4, 200] {
        let archive = RGSSArchive { version, entries: Vec::new(), magic: 0 };
        let mut w = ByteStream::new(vec![1, 2, 3]);
        assert_eq!(archive.write_header(&mut w), Err(Error::UnsupportedVersion));
        assert_eq!(w.stream_position(), 0);
        assert_eq!(w.into_inner(), vec![1, 2, 3]);
    }
}

#[test]
fn header_without_room_is_not_written() {
    let archive = RGSSArchive { version: 1, entries: Vec::new(), magic: 0 };
    let mut w = ByteStream::new(vec![1, 2, 3]);
    w.seek(u64::MAX - 3);
    assert_eq!(archive.write_header(&mut w), Err(Error::StorageFull));
    assert_eq!(w.stream_position(), u64::MAX - 3);
    assert_eq!(w.into_inner(), vec![1, 2, 3]);
}

#[test]
fn written_header_is_read_back() {
    for version in 1..=3u8 {
        let archive = RGSSArchive { version, entries: Vec::new(), magic: 0 };
        let mut w = ByteStream::new(Vec::new());
        assert_eq!(archive.write_header(&mut w), Ok(()));
        let mut r = ByteStream::new(w.into_inner());
        let mut read = RGSSArchive::default();
        assert_eq!(read.read_header(&mut r), Ok(()));
        assert_eq!(read.version, version);
    }
}

#[test]
fn version_follows_the_extension() {
    assert_eq!(RGSSArchive::version_for_extension(Some("rgss3a")), 3);
    assert_eq!(RGSSArchive::version_for_extension(Some("rgss2a")), 2);
    assert_eq!(RGSSArchive::version_for_extension(Some("rgssad")), 1);
    assert_eq!(RGSSArchive::version_for_extension(Some("RGSS3A")), 1);
    assert_eq!(RGSSArchive::version_for_extension(Some("rgss3")), 1);
    assert_eq!(RGSSArchive::version_for_extension(Some("rgss3ab")), 1);
    assert_eq!(RGSSArchive::version_for_extension(Some("")), 1);
    assert_eq!(RGSSArchive::version_for_extension(None), 1);
}

#[test]
fn default_archive_is_empty() {
    let archive = RGSSArchive::default();
    assert_eq!(archive.version, 0);
    assert_eq!(archive.magic, 0);
    assert!(archive.entries.is_empty());
}

#[test]
fn errors_have_messages() {
    assert_eq!(Error::InvalidHeader.message(), "Invalid header");
    assert_eq!(Error::UnsupportedVersion.message(), "Unsupported version");
    assert_eq!(Error::InvalidData.message(), "Invalid data");
    assert_eq!(Error::UnexpectedEof.message(), "Unexpected end of archive");
    assert_eq!(Error::StorageFull.message(), "No room left to write");
    assert_eq!(Error::InvalidFilter.message(), "Invalid regex filter");
}
