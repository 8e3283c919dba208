use easy_fs::dir_entry::{DirEntry, DIRENT_SZ, NAME_LENGTH_LIMIT};

#[test]
fn entry_is_32_bytes() {
    assert_eq!(DIRENT_SZ, 32);
    assert_eq!(NAME_LENGTH_LIMIT, 27);
    assert_eq!(DirEntry::empty().as_bytes().len(), 32);
}

#[test]
fn empty_entry_is_all_zero() {
    let e = DirEntry::empty();
    assert_eq!(e.as_bytes(), [0u8; 32]);
    assert_eq!(e.inode_number(), 0);
    assert_eq!(e.name(), "");
    assert_eq!(e.name_len(), 0);
}

#[test]
fn dir_entry_round_trip() {
    let e = DirEntry::new("foo", 7);
    let bytes = e.as_bytes();
    let mut want = [0u8; 32];
    want[0] = b'f';
    want[1] = b'o';
    want[2] = b'o';
    want[28] = 7;
    assert_eq!(bytes, want);
    let back = DirEntry::from_bytes(&bytes);
    assert_eq!(back.name(), "foo");
    assert_eq!(back.inode_number(), 7);
}

#[test]
fn new_entry_holds_name_and_number() {
    let e = DirEntry::new("hello.txt", 0x01020304);
    assert_eq!(e.name(), "hello.txt");
    assert_eq!(e.name_len(), 9);
    assert_eq!(e.inode_number(), 0x01020304);
    let bytes = e.as_bytes();
    assert_eq!(&bytes[..9], b"hello.txt");
    assert!(bytes[9..28].iter().all(|b| *b == 0));
    assert_eq!(&bytes[28..], &[4u8, 3, 2, 1]);
}

#[test]
fn name_of_greatest_length() {
    let name = "abcdefghijklmnopqrstuvwxyz0";
    assert_eq!(name.len(), 27);
    let e = DirEntry::new(name, 1);
    assert_eq!(e.name(), name);
    assert_eq!(e.as_bytes()[27], 0);
    assert_eq!(DirEntry::from_bytes(&e.as_bytes()).name(), name);
}

#[test]
fn empty_name_is_allowed() {
    let e = DirEntry::new("", 3);
    assert_eq!(e.name(), "");
    assert_eq!(e.inode_number(), 3);
}

#[test]
fn name_ends_at_first_zero_byte() {
    let e = DirEntry::new("a\0b", 1);
    assert_eq!(e.name(), "a");
    assert_eq!(e.as_bytes()[2], b'b');
}

#[test]
fn name_may_hold_multibyte_text() {
    let e = DirEntry::new("h\u{e9}llo \u{4e16}", 9);
    assert_eq!(e.name(), "h\u{e9}llo \u{4e16}");
    assert_eq!(e.checked_name(), Some("h\u{e9}llo \u{4e16}"));
}

#[test]
fn checked_name_rejects_invalid_text() {
    let mut bytes = [0u8; 32];
    bytes[0] = 0xff;
    bytes[1] = 0xfe;
    let e = DirEntry::from_bytes(&bytes);
    assert_eq!(e.checked_name(), None);
}

#[test]
fn checked_name_rejects_field_without_zero() {
    let mut bytes = [b'x'; 32];
    bytes[28] = 1;
    bytes[29] = 0;
    bytes[30] = 0;
    bytes[31] = 0;
    let e = DirEntry::from_bytes(&bytes);
    assert_eq!(e.name_len(), 28);
    assert_eq!(e.checked_name(), None);
    assert_eq!(e.inode_number(), 1);
}

#[test]
fn from_bytes_reads_number_little_endian() {
    let mut bytes = [0u8; 32];
    bytes[0] = b'z';
    bytes[28] = 0x78;
    bytes[29] = 0x56;
    bytes[30] = 0x34;
    bytes[31] = 0x12;
    let e = DirEntry::from_bytes(&bytes);
    assert_eq!(e.inode_number(), 0x12345678);
    assert_eq!(e.name(), "z");
    assert_eq!(e.as_bytes(), bytes);
}

#[test]
fn greatest_inode_number_round_trips() {
    let e = DirEntry::new("n", u32::MAX);
    let back = DirEntry::from_bytes(&e.as_bytes());
    assert_eq!(back.inode_number(), u32::MAX);
}
