use easy_fs::device::BlockDevice;
use easy_fs::inode::{DiskInode, DiskInodeType};

fn file_of(disk: &mut BlockDevice, size: u32, first_id: u32) -> DiskInode {
    let mut inode = DiskInode::new(DiskInodeType::File);
    let needed = inode.blocks_num_needed(size);
    inode.increase_size(size, (first_id..first_id + needed).collect(), disk);
    inode
}

fn pattern(len: usize) -> Vec<u8> {
    (0..len).map(|i| (i * 7 % 256) as u8).collect()
}

#[test]
fn write_then_read_reproduces_the_pattern() {
    let mut disk = BlockDevice::new(16);
    let mut inode = file_of(&mut disk, 1000, 1);
    let data = pattern(1000);
    assert_eq!(inode.write_at(0, &data, &mut disk), 1000);
    let mut buf = vec![0u8; 1000];
    assert_eq!(inode.read_at(0, &mut buf, &disk), 1000);
    assert_eq!(buf, data);
}

#[test]
fn read_is_clipped_to_the_size() {
    let mut disk = BlockDevice::new(16);
    let mut inode = file_of(&mut disk, 1000, 1);
    let data = pattern(1000);
    inode.write_at(0, &data, &mut disk);
    let mut buf = vec![0xeeu8; 200];
    assert_eq!(inode.read_at(900, &mut buf, &disk), 100);
    assert_eq!(&buf[..100], &data[900..]);
    // what lies past the bytes read is left as it was
    assert!(buf[100..].iter().all(|b| *b == 0xee));
}

#[test]
fn write_at_the_size_writes_nothing() {
    let mut disk = BlockDevice::new(16);
    let mut inode = file_of(&mut disk, 1000, 1);
    let data = pattern(1000);
    inode.write_at(0, &data, &mut disk);
    let before: Vec<Vec<u8>> = (0..16u32)
        .map(|b| (0..512).map(|k| disk.read_byte(b, k)).collect())
        .collect();
    assert_eq!(inode.write_at(1000, &[0xffu8; 50], &mut disk), 0);
    let after: Vec<Vec<u8>> = (0..16u32)
        .map(|b| (0..512).map(|k| disk.read_byte(b, k)).collect())
        .collect();
    assert_eq!(before, after);
    assert_eq!(inode.size, 1000);
}

#[test]
fn write_past_the_size_writes_nothing() {
    let mut disk = BlockDevice::new(16);
    let mut inode = file_of(&mut disk, 1024, 1);
    assert_eq!(inode.write_at(5000, &[1u8; 8], &mut disk), 0);
    assert_eq!(inode.write_at(1024, &[1u8; 8], &mut disk), 0);
    assert_eq!(inode.size, 1024);
    let mut buf = vec![9u8; 1024];
    assert_eq!(inode.read_at(0, &mut buf, &disk), 1024);
    assert!(buf.iter().all(|b| *b == 0));
}

#[test]
fn write_is_clipped_to_the_size() {
    let mut disk = BlockDevice::new(16);
    let mut inode = file_of(&mut disk, 1000, 1);
    assert_eq!(inode.write_at(990, &[7u8; 50], &mut disk), 10);
    assert_eq!(inode.size, 1000);
    let mut buf = vec![0u8; 20];
    assert_eq!(inode.read_at(980, &mut buf, &disk), 20);
    assert_eq!(&buf[..10], &[0u8; 10]);
    assert_eq!(&buf[10..], &[7u8; 10]);
    // the rest of the last block is not written
    let last = inode.get_block_id(1, &disk);
    assert_eq!(disk.read_byte(last, 1000 - 512), 0);
}

#[test]
fn read_at_or_past_the_size_reads_nothing() {
    let mut disk = BlockDevice::new(16);
    let inode = file_of(&mut disk, 1000, 1);
    let mut buf = vec![3u8; 10];
    assert_eq!(inode.read_at(1000, &mut buf, &disk), 0);
    assert_eq!(inode.read_at(1001, &mut buf, &disk), 0);
    assert_eq!(inode.read_at(usize::MAX, &mut buf, &disk), 0);
    assert_eq!(buf, vec![3u8; 10]);
}

#[test]
fn empty_inode_reads_and_writes_nothing() {
    let mut disk = BlockDevice::new(4);
    let mut inode = DiskInode::new(DiskInodeType::File);
    let mut buf = vec![1u8; 4];
    assert_eq!(inode.read_at(0, &mut buf, &disk), 0);
    assert_eq!(inode.write_at(0, &[2u8; 4], &mut disk), 0);
    assert_eq!(buf, vec![1u8; 4]);
}

#[test]
fn empty_buffer_moves_nothing() {
    let mut disk = BlockDevice::new(16);
    let mut inode = file_of(&mut disk, 1000, 1);
    let mut buf: Vec<u8> = Vec::new();
    assert_eq!(inode.read_at(10, &mut buf, &disk), 0);
    assert_eq!(inode.write_at(10, &[], &mut disk), 0);
}

#[test]
fn huge_request_does_not_overflow() {
    let mut disk = BlockDevice::new(16);
    let mut inode = file_of(&mut disk, 600, 1);
    let data = pattern(600);
    assert_eq!(inode.write_at(0, &data, &mut disk), 600);
    let mut buf = vec![0u8; 4096];
    assert_eq!(inode.read_at(1, &mut buf, &disk), 599);
    assert_eq!(&buf[..599], &data[1..]);
}

#[test]
fn write_in_the_middle_keeps_the_rest() {
    let mut disk = BlockDevice::new(16);
    let mut inode = file_of(&mut disk, 2000, 1);
    let data = pattern(2000);
    inode.write_at(0, &data, &mut disk);
    assert_eq!(inode.write_at(500, &[0xaau8; 30], &mut disk), 30);
    let mut buf = vec![0u8; 2000];
    assert_eq!(inode.read_at(0, &mut buf, &disk), 2000);
    assert_eq!(&buf[..500], &data[..500]);
    assert_eq!(&buf[500..530], &[0xaau8; 30]);
    assert_eq!(&buf[530..], &data[530..]);
}

#[test]
fn bytes_land_in_the_blocks_of_the_inode() {
    let mut disk = BlockDevice::new(16);
    let mut inode = DiskInode::new(DiskInodeType::File);
    inode.increase_size(1024, vec![9, 4], &mut disk);
    let data = pattern(1024);
    inode.write_at(0, &data, &mut disk);
    assert_eq!(disk.read_byte(9, 0), data[0]);
    assert_eq!(disk.read_byte(9, 511), data[511]);
    assert_eq!(disk.read_byte(4, 0), data[512]);
    assert_eq!(disk.read_byte(4, 511), data[1023]);
    assert_eq!(disk.read_byte(5, 0), 0);
}

#[test]
fn io_crosses_every_tier() {
    let mut disk = BlockDevice::new(17500);
    let size = (16539 + 200) * 512 + 100;
    let mut inode = file_of(&mut disk, size, 1);
    let spots = [
        26usize * 512 + 500,
        154 * 512 + 500,
        (155 + 127) * 512 + 500,
        16538 * 512 + 500,
        (16539 + 127) * 512 + 500,
        size as usize - 60,
    ];
    let mut seed = 1u8;
    for at in spots {
        let data: Vec<u8> = (0..60u8).map(|i| i.wrapping_mul(3).wrapping_add(seed)).collect();
        assert_eq!(inode.write_at(at, &data, &mut disk), 60);
        seed = seed.wrapping_add(40);
    }
    let mut seed = 1u8;
    for at in spots {
        let want: Vec<u8> = (0..60u8).map(|i| i.wrapping_mul(3).wrapping_add(seed)).collect();
        let mut buf = vec![0u8; 60];
        assert_eq!(inode.read_at(at, &mut buf, &disk), 60);
        assert_eq!(buf, want);
        seed = seed.wrapping_add(40);
    }
    // the pointers are as they were
    assert_eq!(inode.clear_size(&disk), (1..=DiskInode::total_blocks(size)).collect::<Vec<u32>>());
}

#[test]
fn whole_file_round_trip_over_three_tiers() {
    let mut disk = BlockDevice::new(800);
    let size = 300 * 512 + 123;
    let mut inode = file_of(&mut disk, size, 10);
    let data = pattern(size as usize);
    assert_eq!(inode.write_at(0, &data, &mut disk), size as usize);
    let mut buf = vec![0u8; size as usize + 50];
    assert_eq!(inode.read_at(0, &mut buf, &disk), size as usize);
    assert_eq!(&buf[..size as usize], &data[..]);
    assert!(buf[size as usize..].iter().all(|b| *b == 0));
}
