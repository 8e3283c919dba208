use easy_fs::checked::LayoutError;
use easy_fs::device::BlockDevice;
use easy_fs::inode::{DiskInode, DiskInodeType};

#[test]
fn needed_blocks_of_smaller_size_is_refused() {
    let mut inode = DiskInode::new(DiskInodeType::File);
    inode.size = 1000;
    assert_eq!(inode.checked_blocks_num_needed(999), Err(LayoutError::Shrinks));
    assert_eq!(inode.checked_blocks_num_needed(0), Err(LayoutError::Shrinks));
    assert_eq!(inode.checked_blocks_num_needed(1000), Ok(0));
    assert_eq!(inode.checked_blocks_num_needed(1025), Ok(1));
    assert_eq!(inode.checked_blocks_num_needed(27 * 512 + 1), Ok(27));
}

#[test]
fn block_number_past_the_size_is_refused() {
    let mut disk = BlockDevice::new(8);
    let mut inode = DiskInode::new(DiskInodeType::File);
    assert_eq!(inode.checked_get_block_id(0, &disk), Err(LayoutError::OutOfRange));
    inode.increase_size(513, vec![5, 6], &mut disk);
    assert_eq!(inode.checked_get_block_id(0, &disk), Ok(5));
    assert_eq!(inode.checked_get_block_id(1, &disk), Ok(6));
    assert_eq!(inode.checked_get_block_id(2, &disk), Err(LayoutError::OutOfRange));
    assert_eq!(inode.checked_get_block_id(u32::MAX, &disk), Err(LayoutError::OutOfRange));
}

#[test]
fn shrinking_growth_is_refused() {
    let mut disk = BlockDevice::new(8);
    let mut inode = DiskInode::new(DiskInodeType::File);
    inode.increase_size(600, vec![1, 2], &mut disk);
    assert_eq!(inode.checked_increase_size(599, Vec::new(), &mut disk), Err(LayoutError::Shrinks));
    assert_eq!(inode.checked_increase_size(10, vec![3], &mut disk), Err(LayoutError::Shrinks));
    assert_eq!(inode.size, 600);
    assert_eq!(inode.get_block_id(1, &disk), 2);
}

#[test]
fn growth_past_what_can_be_addressed_is_refused() {
    let mut disk = BlockDevice::new(8);
    let mut inode = DiskInode::new(DiskInodeType::File);
    assert_eq!(
        inode.checked_increase_size(2113691 * 512 + 1, Vec::new(), &mut disk),
        Err(LayoutError::NotAddressable)
    );
    assert_eq!(
        inode.checked_increase_size(u32::MAX, vec![1], &mut disk),
        Err(LayoutError::NotAddressable)
    );
    assert_eq!(inode.size, 0);
}

#[test]
fn growth_with_wrong_number_of_blocks_is_refused() {
    let mut disk = BlockDevice::new(64);
    let mut inode = DiskInode::new(DiskInodeType::File);
    // too few and too many
    assert_eq!(inode.checked_increase_size(1024, vec![1], &mut disk), Err(LayoutError::BlockCount));
    assert_eq!(
        inode.checked_increase_size(1024, vec![1, 2, 3], &mut disk),
        Err(LayoutError::BlockCount)
    );
    // the root of the single indirect tier is forgotten
    assert_eq!(
        inode.checked_increase_size(28 * 512, (1..=28).collect(), &mut disk),
        Err(LayoutError::BlockCount)
    );
    assert_eq!(inode.size, 0);
    assert_eq!(inode.direct, [0u32; 27]);
    assert_eq!(inode.indirect1, 0);
    for b in 0..64u32 {
        assert_eq!(disk.read_ptr(b, 0), 0);
    }
}

#[test]
fn accepted_growth_is_done() {
    let mut disk = BlockDevice::new(64);
    let mut inode = DiskInode::new(DiskInodeType::File);
    assert_eq!(inode.checked_increase_size(28 * 512, (1..=29).collect(), &mut disk), Ok(()));
    assert_eq!(inode.size, 28 * 512);
    assert_eq!(inode.indirect1, 28);
    assert_eq!(inode.checked_get_block_id(27, &disk), Ok(29));
    assert_eq!(inode.checked_increase_size(28 * 512, Vec::new(), &mut disk), Ok(()));
    assert_eq!(inode.clear_size(&disk), (1..=29).collect::<Vec<u32>>());
}
