use rgssad::io_util::ByteStream;
use rgssad::name::{backslashes, load_name, same_text, slashes, store_name, stored_len};
use rgssad::{RGSSArchive, RGSSArchiveEntry};

#[test]
fn slashes_are_stored_as_backslashes() {
    assert_eq!(store_name("Data/Map/a.b"), b"Data\\Map\\a.b".to_vec());
    assert_eq!(store_name("a.txt"), b"a.txt".to_vec());
    assert_eq!(store_name(""), Vec::<u8>::new());
    assert_eq!(store_name("/"), vec![0x5c]);
}

#[test]
fn backslashes_are_read_as_slashes() {
    assert_eq!(load_name(b"Data\\Map\\a.b".to_vec()), Some(String::from("Data/Map/a.b")));
    assert_eq!(load_name(b"a/b\\c".to_vec()), Some(String::from("a/b/c")));
    assert_eq!(load_name(Vec::new()), Some(String::new()));
}

#[test]
fn stored_names_keep_their_other_bytes() {
    assert_eq!(store_name("Ünï/日本"), "Ünï\\日本".as_bytes().to_vec());
    assert_eq!(load_name("Ünï\\日本".as_bytes().to_vec()), Some(String::from("Ünï/日本")));
    assert_eq!(stored_len("Ünï/日本"), 12);
    assert_eq!(stored_len(""), 0);
}

#[test]
fn bytes_that_are_no_text_are_no_name() {
    assert_eq!(load_name(vec![0xff, 0xfe]), None);
    assert_eq!(load_name(vec![0x61, 0x80]), None);
    assert_eq!(load_name(vec![0xc0, 0xaf]), None);
    assert_eq!(load_name(vec![0xed, 0xa0, 0x80]), None);
    assert_eq!(load_name(vec![0xe6, 0x97]), None);
}

#[test]
fn name_without_backslash_is_read_as_it_was_stored() {
    for name in ["a.txt", "Data/Map001.rxdata", "Graphics/Ünï/日本語.png", "", "///", "a b\tc"] {
        let stored = store_name(name);
        assert!(!stored.contains(&0x2f));
        assert_eq!(stored.len(), name.len());
        assert_eq!(load_name(stored), Some(String::from(name)));
    }
}

#[test]
fn name_with_backslash_is_read_with_slash() {
    assert_eq!(load_name(store_name("a\\b/c")), Some(String::from("a/b/c")));
}

#[test]
fn slashes_and_backslashes_are_turned_in_place() {
    let mut bytes = b"/a/\\b".to_vec();
    backslashes(&mut bytes);
    assert_eq!(bytes, b"\\a\\\\b".to_vec());
    slashes(&mut bytes);
    assert_eq!(bytes, b"/a//b".to_vec());
}

#[test]
fn texts_are_compared() {
    assert!(same_text("rgss3a", "rgss3a"));
    assert!(same_text("", ""));
    assert!(!same_text("rgss3a", "rgss2a"));
    assert!(!same_text("rgss3a", "rgss3"));
    assert!(!same_text("a", ""));
    assert!(same_text("日本", "日本"));
    assert!(!same_text("日本", "日木"));
}

#[test]
fn name_with_slash_goes_through_an_archive() {
    for version in 1..=3u8 {
        let mut archive = RGSSArchive {
            version,
            entries: vec![RGSSArchiveEntry {
                name: String::from("Data/Sub/a.txt"),
                size: 0,
                offset: 0,
                magic: 0,
            }],
            magic: 0,
        };
        let mut w = ByteStream::new(Vec::new());
        assert_eq!(archive.write_entries(&mut w), Ok(()));
        let bytes = w.into_inner();
        let at = if version == 3 { 20 } else { 4 };
        let mut stored = bytes[at..at + 14].to_vec();
        if version == 3 {
            rgssad::magic::mask_fixed(&mut stored, rgssad::magic::fixed_mask_of(0));
        } else {
            let mut magic = 0x16c08cf5;
            rgssad::magic::mask_rolling(&mut stored, &mut magic);
        }
        assert_eq!(stored, b"Data\\Sub\\a.txt".to_vec());
        let mut read = RGSSArchive { version, entries: Vec::new(), magic: 0 };
        let mut r = ByteStream::new(bytes);
        assert_eq!(read.read_entries(&mut r), Ok(()));
        assert_eq!(read.entries[0].name, "Data/Sub/a.txt");
    }
}
