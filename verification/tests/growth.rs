use easy_fs::device::BlockDevice;
use easy_fs::inode::{DiskInode, DiskInodeType};

/// Grows `inode` to `new_size` with the block ids that follow `*next_id`, and
/// returns the ids that were handed over.
fn grow(inode: &mut DiskInode, disk: &mut BlockDevice, new_size: u32, next_id: &mut u32) -> Vec<u32> {
    let needed = inode.blocks_num_needed(new_size);
    let ids: Vec<u32> = (*next_id..*next_id + needed).collect();
    *next_id += needed;
    inode.increase_size(new_size, ids.clone(), disk);
    ids
}

#[test]
fn grow_to_27_blocks_needs_27_ids_and_no_index_block() {
    let mut disk = BlockDevice::new(64);
    let mut inode = DiskInode::new(DiskInodeType::File);
    assert_eq!(inode.blocks_num_needed(27 * 512), 27);
    let ids: Vec<u32> = (1..=27).collect();
    inode.increase_size(27 * 512, ids.clone(), &mut disk);
    assert_eq!(inode.size, 27 * 512);
    assert_eq!(inode.indirect1, 0);
    assert_eq!(inode.indirect2, 0);
    assert_eq!(inode.indirect3, 0);
    for k in 0..27u32 {
        assert_eq!(inode.direct[k as usize], k + 1);
        assert_eq!(inode.get_block_id(k, &disk), k + 1);
    }
}

#[test]
fn one_byte_past_27_blocks_needs_two_more_ids() {
    let mut disk = BlockDevice::new(64);
    let mut inode = DiskInode::new(DiskInodeType::File);
    inode.increase_size(27 * 512, (1..=27).collect(), &mut disk);
    assert_eq!(inode.blocks_num_needed(27 * 512 + 1), 2);
    inode.increase_size(27 * 512 + 1, vec![40, 41], &mut disk);
    assert_eq!(inode.size, 27 * 512 + 1);
    assert_ne!(inode.indirect1, 0);
    // the root of the tier is taken before the data block
    assert_eq!(inode.indirect1, 40);
    assert_eq!(inode.get_block_id(27, &disk), 41);
    assert_eq!(disk.read_ptr(40, 0), 41);
    assert_eq!(inode.indirect2, 0);
    assert_eq!(inode.indirect3, 0);
}

#[test]
fn growth_within_a_block_takes_nothing() {
    let mut disk = BlockDevice::new(8);
    let mut inode = DiskInode::new(DiskInodeType::File);
    inode.increase_size(10, vec![3], &mut disk);
    assert_eq!(inode.blocks_num_needed(512), 0);
    inode.increase_size(512, Vec::new(), &mut disk);
    assert_eq!(inode.size, 512);
    assert_eq!(inode.direct[0], 3);
    assert_eq!(inode.direct[1], 0);
    assert_eq!(inode.get_block_id(0, &disk), 3);
}

#[test]
fn growth_to_same_size_changes_nothing() {
    let mut disk = BlockDevice::new(8);
    let mut inode = DiskInode::new(DiskInodeType::Directory);
    inode.increase_size(0, Vec::new(), &mut disk);
    assert_eq!(inode.size, 0);
    assert_eq!(inode.direct, [0u32; 27]);
    assert!(inode.is_dir());
}

#[test]
fn growth_keeps_the_type() {
    let mut disk = BlockDevice::new(8);
    let mut inode = DiskInode::new(DiskInodeType::Directory);
    inode.increase_size(600, vec![1, 2], &mut disk);
    assert!(inode.is_dir());
    assert!(!inode.is_file());
}

#[test]
fn ids_are_installed_in_order_through_the_double_tier() {
    let mut disk = BlockDevice::new(512);
    let mut inode = DiskInode::new(DiskInodeType::File);
    let size = 157 * 512;
    assert_eq!(inode.blocks_num_needed(size), 160);
    let ids: Vec<u32> = (100..260).collect();
    inode.increase_size(size, ids.clone(), &mut disk);
    // direct blocks
    assert_eq!(inode.get_block_id(0, &disk), 100);
    assert_eq!(inode.get_block_id(26, &disk), 126);
    // root of the single tier, then its 128 data blocks
    assert_eq!(inode.indirect1, 127);
    assert_eq!(inode.get_block_id(27, &disk), 128);
    assert_eq!(inode.get_block_id(154, &disk), 255);
    assert_eq!(disk.read_ptr(127, 0), 128);
    assert_eq!(disk.read_ptr(127, 127), 255);
    // root of the double tier, its first index block, two data blocks
    assert_eq!(inode.indirect2, 256);
    assert_eq!(disk.read_ptr(256, 0), 257);
    assert_eq!(disk.read_ptr(257, 0), 258);
    assert_eq!(disk.read_ptr(257, 1), 259);
    assert_eq!(inode.get_block_id(155, &disk), 258);
    assert_eq!(inode.get_block_id(156, &disk), 259);
    assert_eq!(inode.indirect3, 0);
    assert_eq!(inode.clear_size(&disk), ids);
}

#[test]
fn double_tier_takes_an_index_block_at_each_group() {
    let mut disk = BlockDevice::new(1024);
    let mut inode = DiskInode::new(DiskInodeType::File);
    let mut next_id = 1;
    grow(&mut inode, &mut disk, 155 * 512, &mut next_id);
    assert_eq!(next_id, 157);
    // 130 data blocks in the double tier: root, group 0 with 128, group 1 with 2
    let ids = grow(&mut inode, &mut disk, (155 + 130) * 512, &mut next_id);
    assert_eq!(ids.len(), 1 + 1 + 128 + 1 + 2);
    assert_eq!(inode.indirect2, 157);
    assert_eq!(disk.read_ptr(157, 0), 158);
    assert_eq!(inode.get_block_id(155, &disk), 159);
    assert_eq!(inode.get_block_id(155 + 127, &disk), 286);
    assert_eq!(disk.read_ptr(157, 1), 287);
    assert_eq!(inode.get_block_id(155 + 128, &disk), 288);
    assert_eq!(inode.get_block_id(155 + 129, &disk), 289);
}

#[test]
fn partly_filled_group_is_extended_in_place() {
    let mut disk = BlockDevice::new(1024);
    let mut inode = DiskInode::new(DiskInodeType::File);
    let mut next_id = 1;
    grow(&mut inode, &mut disk, (155 + 3) * 512, &mut next_id);
    let sub = disk.read_ptr(inode.indirect2, 0);
    let first = inode.get_block_id(155, &disk);
    let ids = grow(&mut inode, &mut disk, (155 + 5) * 512, &mut next_id);
    // no new index block: two data blocks only
    assert_eq!(ids.len(), 2);
    assert_eq!(disk.read_ptr(inode.indirect2, 0), sub);
    assert_eq!(inode.get_block_id(155, &disk), first);
    assert_eq!(inode.get_block_id(155 + 3, &disk), ids[0]);
    assert_eq!(inode.get_block_id(155 + 4, &disk), ids[1]);
    assert_eq!(disk.read_ptr(sub, 3), ids[0]);
    assert_eq!(disk.read_ptr(sub, 4), ids[1]);
}

#[test]
fn ids_are_installed_in_order_through_the_triple_tier() {
    let mut disk = BlockDevice::new(17000);
    let mut inode = DiskInode::new(DiskInodeType::File);
    let size = (16539 + 129) * 512;
    assert_eq!(inode.blocks_num_needed(size), 16802);
    let ids: Vec<u32> = (1..=16802).collect();
    inode.increase_size(size, ids.clone(), &mut disk);
    assert_eq!(inode.indirect1, 28);
    assert_eq!(inode.indirect2, 157);
    assert_eq!(inode.get_block_id(16538, &disk), 16669);
    // root, first index block of each level, 128 data blocks, next index block
    assert_eq!(inode.indirect3, 16670);
    assert_eq!(disk.read_ptr(16670, 0), 16671);
    assert_eq!(disk.read_ptr(16671, 0), 16672);
    assert_eq!(inode.get_block_id(16539, &disk), 16673);
    assert_eq!(inode.get_block_id(16539 + 127, &disk), 16800);
    assert_eq!(disk.read_ptr(16671, 1), 16801);
    assert_eq!(inode.get_block_id(16539 + 128, &disk), 16802);
    assert_eq!(inode.clear_size(&disk), ids);
}

#[test]
fn triple_tier_is_extended_in_place() {
    let mut disk = BlockDevice::new(17500);
    let mut inode = DiskInode::new(DiskInodeType::File);
    let mut next_id = 1;
    let mut all = Vec::new();
    all.extend(grow(&mut inode, &mut disk, (16539 + 5) * 512, &mut next_id));
    let root = inode.indirect3;
    let level1 = disk.read_ptr(root, 0);
    let level2 = disk.read_ptr(level1, 0);
    let fifth = inode.get_block_id(16539 + 4, &disk);
    let ids = grow(&mut inode, &mut disk, (16539 + 300) * 512, &mut next_id);
    // 295 data blocks and two index blocks of the lowest level
    assert_eq!(ids.len(), 297);
    all.extend(ids.clone());
    assert_eq!(inode.indirect3, root);
    assert_eq!(disk.read_ptr(root, 0), level1);
    assert_eq!(disk.read_ptr(level1, 0), level2);
    assert_eq!(inode.get_block_id(16539 + 4, &disk), fifth);
    assert_eq!(inode.get_block_id(16539 + 5, &disk), ids[0]);
    assert_eq!(inode.get_block_id(16539 + 127, &disk), ids[122]);
    assert_eq!(disk.read_ptr(level1, 1), ids[123]);
    assert_eq!(inode.get_block_id(16539 + 128, &disk), ids[124]);
    assert_eq!(inode.get_block_id(16539 + 299, &disk), ids[296]);
    assert_eq!(inode.clear_size(&disk), all);
}

#[test]
fn clear_size_returns_what_growths_consumed() {
    let mut disk = BlockDevice::new(20000);
    let mut inode = DiskInode::new(DiskInodeType::File);
    let mut next_id = 1;
    let mut consumed = Vec::new();
    let sizes = [
        1u32,
        10 * 512,
        27 * 512,
        27 * 512 + 1,
        100 * 512,
        155 * 512,
        156 * 512,
        300 * 512 + 17,
        16539 * 512,
        16540 * 512,
        (16539 + 400) * 512,
    ];
    for s in sizes {
        consumed.extend(grow(&mut inode, &mut disk, s, &mut next_id));
    }
    assert_eq!(consumed.len() as u32, DiskInode::total_blocks((16539 + 400) * 512));
    let returned = inode.clear_size(&disk);
    assert_eq!(returned, consumed);
    let mut sorted = returned.clone();
    sorted.sort();
    sorted.dedup();
    assert_eq!(sorted.len(), returned.len());
}

#[test]
fn clear_size_resets_the_inode() {
    let mut disk = BlockDevice::new(1024);
    let mut inode = DiskInode::new(DiskInodeType::Directory);
    let mut next_id = 5;
    grow(&mut inode, &mut disk, 200 * 512, &mut next_id);
    inode.clear_size(&disk);
    assert_eq!(inode.size, 0);
    assert_eq!(inode.direct, [0u32; 27]);
    assert_eq!(inode.indirect1, 0);
    assert_eq!(inode.indirect2, 0);
    assert_eq!(inode.indirect3, 0);
    assert!(inode.is_dir());
}

#[test]
fn clear_size_twice_returns_nothing() {
    let mut disk = BlockDevice::new(1024);
    let mut inode = DiskInode::new(DiskInodeType::File);
    let mut next_id = 1;
    grow(&mut inode, &mut disk, 300 * 512, &mut next_id);
    let first = inode.clear_size(&disk);
    assert_eq!(first.len() as u32, DiskInode::total_blocks(300 * 512));
    let second = inode.clear_size(&disk);
    assert!(second.is_empty());
    assert_eq!(inode.size, 0);
}

#[test]
fn clear_size_of_empty_inode_returns_nothing() {
    let disk = BlockDevice::new(4);
    let mut inode = DiskInode::new(DiskInodeType::File);
    assert!(inode.clear_size(&disk).is_empty());
    assert_eq!(inode.size, 0);
}

#[test]
fn clear_size_leaves_the_blocks_as_they_are() {
    let mut disk = BlockDevice::new(64);
    let mut inode = DiskInode::new(DiskInodeType::File);
    inode.increase_size(28 * 512, (1..=29).collect(), &mut disk);
    let data = [0x5au8; 16];
    assert_eq!(inode.write_at(27 * 512, &data, &mut disk), 16);
    let root = inode.indirect1;
    let leaf = inode.get_block_id(27, &disk);
    inode.clear_size(&disk);
    assert_eq!(disk.read_ptr(root, 0), leaf);
    assert_eq!(disk.read_byte(leaf, 0), 0x5a);
    assert_eq!(disk.read_byte(leaf, 15), 0x5a);
}

#[test]
fn cleared_inode_can_grow_again() {
    let mut disk = BlockDevice::new(512);
    let mut inode = DiskInode::new(DiskInodeType::File);
    let mut next_id = 1;
    let first = grow(&mut inode, &mut disk, 160 * 512, &mut next_id);
    assert_eq!(inode.clear_size(&disk), first);
    let mut again = first.clone();
    again.reverse();
    inode.increase_size(160 * 512, again.clone(), &mut disk);
    assert_eq!(inode.get_block_id(0, &disk), again[0]);
    assert_eq!(inode.get_block_id(159, &disk), *again.last().unwrap());
    assert_eq!(inode.clear_size(&disk), again);
}

#[test]
fn growth_leaves_data_blocks_untouched() {
    let mut disk = BlockDevice::new(512);
    let mut inode = DiskInode::new(DiskInodeType::File);
    let mut next_id = 1;
    grow(&mut inode, &mut disk, 1000, &mut next_id);
    let pattern: Vec<u8> = (0..1000u32).map(|i| (i % 251) as u8).collect();
    assert_eq!(inode.write_at(0, &pattern, &mut disk), 1000);
    grow(&mut inode, &mut disk, 200 * 512, &mut next_id);
    let mut buf = vec![0u8; 1000];
    assert_eq!(inode.read_at(0, &mut buf, &disk), 1000);
    assert_eq!(buf, pattern);
}

#[test]
fn block_ids_do_not_depend_on_the_steps() {
    let mut disk_a = BlockDevice::new(1024);
    let mut disk_b = BlockDevice::new(1024);
    let mut a = DiskInode::new(DiskInodeType::File);
    let mut b = DiskInode::new(DiskInodeType::File);
    let size = 400 * 512;
    let mut next_a = 1;
    grow(&mut a, &mut disk_a, size, &mut next_a);
    let mut next_b = 1;
    for s in [20 * 512, 27 * 512 + 3, 154 * 512, 156 * 512, 283 * 512, size] {
        grow(&mut b, &mut disk_b, s, &mut next_b);
    }
    assert_eq!(next_a, next_b);
    for k in 0..400 {
        assert_eq!(a.get_block_id(k, &disk_a), b.get_block_id(k, &disk_b));
    }
    assert_eq!(a.clear_size(&disk_a), b.clear_size(&disk_b));
}
