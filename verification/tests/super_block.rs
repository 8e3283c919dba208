use easy_fs::super_block::{SuperBlock, EFS_MAGIC};

fn blank() -> SuperBlock {
    SuperBlock {
        magic: 0,
        total_blocks: 0,
        inode_bitmap_blocks: 0,
        inode_area_blocks: 0,
        data_bitmap_blocks: 0,
        data_area_blocks: 0,
    }
}

#[test]
fn blank_super_block_is_not_valid() {
    let sb = blank();
    assert!(!sb.is_valid());
}

#[test]
fn initialize_sets_magic_and_counts() {
    let mut sb = blank();
    sb.initialize(4096, 1, 64, 1, 4029);
    assert!(sb.is_valid());
    assert_eq!(sb.magic, EFS_MAGIC);
    assert_eq!(sb.magic, 0x3b800001);
    assert_eq!(sb.total_blocks, 4096);
    assert_eq!(sb.inode_bitmap_blocks, 1);
    assert_eq!(sb.inode_area_blocks, 64);
    assert_eq!(sb.data_bitmap_blocks, 1);
    assert_eq!(sb.data_area_blocks, 4029);
}

#[test]
fn initialize_does_not_check_counts() {
    let mut sb = blank();
    sb.initialize(1, 100, 100, 100, 100);
    assert!(sb.is_valid());
    assert_eq!(sb.total_blocks, 1);
    assert_eq!(sb.data_area_blocks, 100);
}

#[test]
fn wrong_magic_is_not_valid() {
    let mut sb = blank();
    sb.initialize(10, 1, 1, 1, 7);
    sb.magic = 0x3b800002;
    assert!(!sb.is_valid());
}
