use easy_fs::device::BlockDevice;
use easy_fs::inode::{DiskInode, DiskInodeType};
use easy_fs::record::{INODE_SZ, SUPER_BLOCK_SZ};
use easy_fs::super_block::SuperBlock;

fn word(bytes: &[u8], w: usize) -> u32 {
    u32::from_le_bytes([bytes[4 * w], bytes[4 * w + 1], bytes[4 * w + 2], bytes[4 * w + 3]])
}

#[test]
fn record_sizes() {
    assert_eq!(SUPER_BLOCK_SZ, 24);
    assert_eq!(INODE_SZ, 128);
    assert_eq!(512 % INODE_SZ, 0);
}

#[test]
fn super_block_lies_magic_first() {
    let mut sb = SuperBlock::from_bytes(&[0u8; 24]);
    assert!(!sb.is_valid());
    sb.initialize(4096, 1, 64, 2, 4028);
    let bytes = sb.as_bytes();
    assert_eq!(&bytes[..4], &[0x01, 0x00, 0x80, 0x3b]);
    assert_eq!(word(&bytes, 1), 4096);
    assert_eq!(word(&bytes, 2), 1);
    assert_eq!(word(&bytes, 3), 64);
    assert_eq!(word(&bytes, 4), 2);
    assert_eq!(word(&bytes, 5), 4028);
}

#[test]
fn super_block_round_trip() {
    let mut sb = SuperBlock::from_bytes(&[0xffu8; 24]);
    assert!(!sb.is_valid());
    assert_eq!(sb.total_blocks, u32::MAX);
    sb.initialize(0x01020304, 5, 6, 7, 0xfffffffe);
    let back = SuperBlock::from_bytes(&sb.as_bytes());
    assert!(back.is_valid());
    assert_eq!(back.total_blocks, 0x01020304);
    assert_eq!(back.inode_bitmap_blocks, 5);
    assert_eq!(back.inode_area_blocks, 6);
    assert_eq!(back.data_bitmap_blocks, 7);
    assert_eq!(back.data_area_blocks, 0xfffffffe);
    assert_eq!(back.as_bytes(), sb.as_bytes());
}

#[test]
fn garbage_is_no_valid_super_block() {
    let mut bytes = [0u8; 24];
    for (i, b) in bytes.iter_mut().enumerate() {
        *b = (i * 37 % 256) as u8;
    }
    assert!(!SuperBlock::from_bytes(&bytes).is_valid());
    // the magic number in the wrong byte order
    let mut bytes = [0u8; 24];
    bytes[..4].copy_from_slice(&[0x3b, 0x80, 0x00, 0x01]);
    assert!(!SuperBlock::from_bytes(&bytes).is_valid());
    bytes[..4].copy_from_slice(&[0x01, 0x00, 0x80, 0x3b]);
    assert!(SuperBlock::from_bytes(&bytes).is_valid());
}

#[test]
fn empty_inode_is_all_zero_but_for_the_type() {
    assert_eq!(DiskInode::new(DiskInodeType::File).as_bytes(), [0u8; 128]);
    let mut want = [0u8; 128];
    want[124] = 1;
    assert_eq!(DiskInode::new(DiskInodeType::Directory).as_bytes(), want);
}

#[test]
fn inode_lies_size_pointers_type() {
    let mut disk = BlockDevice::new(512);
    let mut inode = DiskInode::new(DiskInodeType::Directory);
    inode.increase_size(156 * 512 + 9, (100..260).collect(), &mut disk);
    let bytes = inode.as_bytes();
    assert_eq!(word(&bytes, 0), 156 * 512 + 9);
    for k in 0..27 {
        assert_eq!(word(&bytes, 1 + k), 100 + k as u32);
    }
    assert_eq!(word(&bytes, 28), 127);
    assert_eq!(word(&bytes, 29), 256);
    assert_eq!(word(&bytes, 30), 0);
    assert_eq!(&bytes[124..], &[1, 0, 0, 0]);
}

#[test]
fn inode_round_trip() {
    let mut disk = BlockDevice::new(512);
    let mut inode = DiskInode::new(DiskInodeType::File);
    inode.increase_size(300 * 512, (1..=DiskInode::total_blocks(300 * 512)).collect(), &mut disk);
    let back = DiskInode::from_bytes(&inode.as_bytes()).unwrap();
    assert_eq!(back.size, inode.size);
    assert_eq!(back.direct, inode.direct);
    assert_eq!(back.indirect1, inode.indirect1);
    assert_eq!(back.indirect2, inode.indirect2);
    assert_eq!(back.indirect3, inode.indirect3);
    assert!(back.is_file());
    for k in 0..300 {
        assert_eq!(back.get_block_id(k, &disk), inode.get_block_id(k, &disk));
    }
}

#[test]
fn inode_of_unknown_type_is_not_read() {
    let mut bytes = [0u8; 128];
    bytes[124] = 2;
    assert!(DiskInode::from_bytes(&bytes).is_none());
    bytes[124] = 0xff;
    assert!(DiskInode::from_bytes(&bytes).is_none());
    bytes[124] = 1;
    // only the first of the last four bytes tells the type
    bytes[125] = 0xaa;
    bytes[127] = 0x55;
    let inode = DiskInode::from_bytes(&bytes).unwrap();
    assert!(inode.is_dir());
    assert_eq!(inode.size, 0);
}

#[test]
fn inode_fields_are_read_little_endian() {
    let mut bytes = [0u8; 128];
    bytes[..4].copy_from_slice(&[0x78, 0x56, 0x34, 0x12]);
    bytes[4..8].copy_from_slice(&[1, 0, 0, 0]);
    bytes[108..112].copy_from_slice(&[0, 0, 0, 0x80]);
    bytes[112..116].copy_from_slice(&[2, 0, 0, 0]);
    bytes[116..120].copy_from_slice(&[3, 0, 0, 0]);
    bytes[120..124].copy_from_slice(&[4, 0, 0, 0]);
    let inode = DiskInode::from_bytes(&bytes).unwrap();
    assert_eq!(inode.size, 0x12345678);
    assert_eq!(inode.direct[0], 1);
    assert_eq!(inode.direct[26], 0x80000000);
    assert_eq!(inode.indirect1, 2);
    assert_eq!(inode.indirect2, 3);
    assert_eq!(inode.indirect3, 4);
    assert!(inode.is_file());
}
