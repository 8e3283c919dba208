use easy_fs::device::BlockDevice;
use easy_fs::tree::{build_tree, collect_tree_blocks, leaves_under};

#[test]
fn leaves_under_each_height() {
    assert_eq!(leaves_under(0), 1);
    assert_eq!(leaves_under(1), 128);
    assert_eq!(leaves_under(2), 128 * 128);
    assert_eq!(leaves_under(3), 128 * 128 * 128);
}

#[test]
fn build_tree_at_a_leaf_counts_one() {
    let mut disk = BlockDevice::new(4);
    let blocks: Vec<u32> = Vec::new();
    assert_eq!(build_tree(&mut disk, &blocks, 0, 2, 5, 0, 9, 3, 3), (6, 0));
}

#[test]
fn build_tree_of_height_1_fills_pointers() {
    let mut disk = BlockDevice::new(16);
    let blocks = vec![5u32, 6, 7];
    assert_eq!(build_tree(&mut disk, &blocks, 0, 4, 0, 0, 3, 0, 1), (3, 3));
    assert_eq!(disk.read_ptr(4, 0), 5);
    assert_eq!(disk.read_ptr(4, 1), 6);
    assert_eq!(disk.read_ptr(4, 2), 7);
    assert_eq!(disk.read_ptr(4, 3), 0);
}

#[test]
fn build_tree_extends_from_the_old_leaves() {
    let mut disk = BlockDevice::new(16);
    let blocks = vec![5u32, 6, 7, 8, 9];
    assert_eq!(build_tree(&mut disk, &blocks, 0, 4, 0, 0, 2, 0, 1), (2, 2));
    assert_eq!(build_tree(&mut disk, &blocks, 2, 4, 0, 2, 5, 0, 1), (5, 5));
    for i in 0..5 {
        assert_eq!(disk.read_ptr(4, i), 5 + i as u32);
    }
}

#[test]
fn build_tree_of_height_2_takes_child_before_leaves() {
    let mut disk = BlockDevice::new(512);
    let blocks: Vec<u32> = (10..10 + 132).collect();
    // 130 leaves: child 0 with 128 leaves, child 1 with 2
    assert_eq!(build_tree(&mut disk, &blocks, 0, 1, 0, 0, 130, 0, 2), (130, 132));
    assert_eq!(disk.read_ptr(1, 0), 10);
    assert_eq!(disk.read_ptr(10, 0), 11);
    assert_eq!(disk.read_ptr(10, 127), 138);
    assert_eq!(disk.read_ptr(1, 1), 139);
    assert_eq!(disk.read_ptr(139, 0), 140);
    assert_eq!(disk.read_ptr(139, 1), 141);
    let mut collected = vec![1u32];
    assert_eq!(collect_tree_blocks(&mut collected, 1, 0, 130, 0, 2, &disk), 130);
    let mut want = vec![1u32];
    want.extend(blocks.iter());
    assert_eq!(collected, want);
}

#[test]
fn build_tree_stops_at_its_capacity() {
    let mut disk = BlockDevice::new(512);
    let blocks: Vec<u32> = (100..228).collect();
    // a node of height 1 whose first leaf is number 128 of a tree of 300
    assert_eq!(build_tree(&mut disk, &blocks, 0, 3, 128, 0, 300, 1, 2), (256, 128));
    assert_eq!(disk.read_ptr(3, 0), 100);
    assert_eq!(disk.read_ptr(3, 127), 227);
}

#[test]
fn collect_tree_blocks_at_a_leaf_adds_nothing() {
    let disk = BlockDevice::new(4);
    let mut collected = vec![4u32];
    assert_eq!(collect_tree_blocks(&mut collected, 2, 7, 9, 3, 3, &disk), 8);
    assert_eq!(collected, vec![4]);
}

#[test]
fn collect_tree_blocks_lists_child_before_leaves() {
    let mut disk = BlockDevice::new(64);
    disk.write_ptr(1, 0, 2);
    disk.write_ptr(1, 1, 3);
    disk.write_ptr(2, 0, 20);
    disk.write_ptr(2, 1, 21);
    for i in 2..128 {
        disk.write_ptr(2, i, 30);
    }
    disk.write_ptr(3, 0, 40);
    let mut collected = Vec::new();
    assert_eq!(collect_tree_blocks(&mut collected, 1, 0, 129, 0, 2, &disk), 129);
    assert_eq!(collected.len(), 1 + 128 + 1 + 1);
    assert_eq!(&collected[..3], &[2, 20, 21]);
    assert_eq!(&collected[129..], &[3, 40]);
}

#[test]
fn build_tree_past_the_last_leaf_does_nothing() {
    let mut disk = BlockDevice::new(8);
    let blocks = vec![5u32];
    // a node whose first leaf is not below the target is not entered
    assert_eq!(build_tree(&mut disk, &blocks, 0, 3, 128, 0, 100, 1, 2), (128, 0));
    assert_eq!(build_tree(&mut disk, &blocks, 0, 3, 100, 0, 100, 0, 1), (100, 0));
    // a leaf is passed whatever its number
    assert_eq!(build_tree(&mut disk, &blocks, 0, 3, 100, 0, 100, 2, 2), (101, 0));
    assert_eq!(disk.read_ptr(3, 0), 0);
}

#[test]
fn collect_tree_blocks_past_the_last_leaf_adds_nothing() {
    let disk = BlockDevice::new(8);
    let mut collected = vec![9u32];
    assert_eq!(collect_tree_blocks(&mut collected, 3, 128, 100, 1, 2, &disk), 128);
    assert_eq!(collect_tree_blocks(&mut collected, 3, 0, 0, 0, 3, &disk), 0);
    assert_eq!(collect_tree_blocks(&mut collected, 3, 100, 100, 1, 1, &disk), 101);
    assert_eq!(collected, vec![9]);
}
