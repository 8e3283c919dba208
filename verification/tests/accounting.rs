use easy_fs::inode::{DiskInode, DiskInodeType};

fn file_of_size(size: u32) -> DiskInode {
    let mut inode = DiskInode::new(DiskInodeType::File);
    inode.size = size;
    inode
}

#[test]
fn data_blocks_round_up() {
    assert_eq!(file_of_size(0).data_blocks(), 0);
    assert_eq!(file_of_size(1).data_blocks(), 1);
    assert_eq!(file_of_size(511).data_blocks(), 1);
    assert_eq!(file_of_size(512).data_blocks(), 1);
    assert_eq!(file_of_size(513).data_blocks(), 2);
    assert_eq!(file_of_size(1000).data_blocks(), 2);
    assert_eq!(file_of_size(27 * 512).data_blocks(), 27);
    assert_eq!(file_of_size(27 * 512 + 1).data_blocks(), 28);
}

#[test]
fn data_blocks_of_greatest_size() {
    assert_eq!(file_of_size(u32::MAX).data_blocks(), 8388608);
    assert_eq!(file_of_size(u32::MAX - 510).data_blocks(), 8388608);
    assert_eq!(file_of_size(u32::MAX - 511).data_blocks(), 8388607);
}

#[test]
fn total_blocks_in_direct_tier() {
    assert_eq!(DiskInode::total_blocks(0), 0);
    assert_eq!(DiskInode::total_blocks(1), 1);
    assert_eq!(DiskInode::total_blocks(512), 1);
    assert_eq!(DiskInode::total_blocks(513), 2);
    assert_eq!(DiskInode::total_blocks(27 * 512), 27);
}

#[test]
fn total_blocks_in_single_indirect_tier() {
    assert_eq!(DiskInode::total_blocks(27 * 512 + 1), 29);
    assert_eq!(DiskInode::total_blocks(28 * 512), 29);
    assert_eq!(DiskInode::total_blocks(100 * 512), 101);
    assert_eq!(DiskInode::total_blocks(155 * 512), 156);
}

#[test]
fn total_blocks_in_double_indirect_tier() {
    // 156 data blocks, two roots, one index block of the double tier
    assert_eq!(DiskInode::total_blocks(155 * 512 + 1), 159);
    assert_eq!(DiskInode::total_blocks((155 + 128) * 512), 155 + 128 + 3);
    assert_eq!(DiskInode::total_blocks((155 + 129) * 512), 155 + 129 + 4);
    assert_eq!(DiskInode::total_blocks(16539 * 512), 16539 + 1 + 1 + 128);
}

#[test]
fn total_blocks_in_triple_indirect_tier() {
    assert_eq!(DiskInode::total_blocks(16539 * 512 + 1), 16540 + 1 + 129 + 3);
    assert_eq!(DiskInode::total_blocks((16539 + 128) * 512), 16667 + 1 + 129 + 3);
    assert_eq!(DiskInode::total_blocks((16539 + 129) * 512), 16668 + 1 + 129 + 4);
    assert_eq!(DiskInode::total_blocks((16539 + 16384) * 512), 32923 + 1 + 129 + 1 + 1 + 128);
    assert_eq!(
        DiskInode::total_blocks((16539 + 16385) * 512),
        32924 + 1 + 129 + 1 + 2 + 129
    );
}

#[test]
fn total_blocks_of_greatest_addressable_size() {
    assert_eq!(DiskInode::total_blocks(2113691 * 512), 2130334);
}

#[test]
fn total_blocks_of_greatest_size() {
    assert_eq!(DiskInode::total_blocks(u32::MAX), 8454657);
}

#[test]
fn total_blocks_is_at_least_data_blocks() {
    let sizes = [0u32, 1, 511, 512, 13824, 13825, 79360, 79361, 8467968, 8467969, 100_000_000];
    for s in sizes {
        let data = (s as u64 + 511) / 512;
        assert!(DiskInode::total_blocks(s) as u64 >= data);
    }
}

#[test]
fn blocks_num_needed_is_difference_of_totals() {
    let pairs = [
        (0u32, 0u32),
        (0, 1),
        (0, 27 * 512),
        (0, 27 * 512 + 1),
        (27 * 512, 27 * 512 + 1),
        (1000, 1000),
        (1000, 155 * 512 + 1),
        (155 * 512, 16539 * 512 + 1),
        (16539 * 512 + 1, 16539 * 512 + 2),
        (5, 40_000_000),
    ];
    for (s1, s2) in pairs {
        let inode = file_of_size(s1);
        assert_eq!(
            inode.blocks_num_needed(s2),
            DiskInode::total_blocks(s2) - DiskInode::total_blocks(s1)
        );
    }
}

#[test]
fn blocks_num_needed_exact_values() {
    assert_eq!(file_of_size(0).blocks_num_needed(27 * 512), 27);
    assert_eq!(file_of_size(27 * 512).blocks_num_needed(27 * 512 + 1), 2);
    assert_eq!(file_of_size(0).blocks_num_needed(27 * 512 + 1), 29);
    assert_eq!(file_of_size(155 * 512).blocks_num_needed(155 * 512 + 1), 3);
    assert_eq!(file_of_size(16539 * 512).blocks_num_needed(16539 * 512 + 1), 4);
    assert_eq!(file_of_size(700).blocks_num_needed(1024), 0);
    assert_eq!(file_of_size(1024).blocks_num_needed(1025), 1);
}

#[test]
fn new_inode_is_empty() {
    let inode = DiskInode::new(DiskInodeType::File);
    assert_eq!(inode.size, 0);
    assert_eq!(inode.direct, [0u32; 27]);
    assert_eq!(inode.indirect1, 0);
    assert_eq!(inode.indirect2, 0);
    assert_eq!(inode.indirect3, 0);
    assert!(inode.is_file());
    assert!(!inode.is_dir());
}

#[test]
fn initialize_resets_inode() {
    let mut inode = DiskInode::new(DiskInodeType::File);
    inode.size = 77;
    inode.direct[3] = 9;
    inode.indirect1 = 4;
    inode.indirect2 = 5;
    inode.indirect3 = 6;
    inode.initialize(DiskInodeType::Directory);
    assert_eq!(inode.size, 0);
    assert_eq!(inode.direct, [0u32; 27]);
    assert_eq!(inode.indirect1, 0);
    assert_eq!(inode.indirect2, 0);
    assert_eq!(inode.indirect3, 0);
    assert!(inode.is_dir());
    assert!(!inode.is_file());
}
