use easy_fs::device::{BlockDevice, BLOCK_SZ, PTRS_PER_BLOCK};

#[test]
fn new_device_is_zeroed() {
    let dev = BlockDevice::new(4);
    assert_eq!(dev.num_blocks(), 4);
    for b in 0..4u32 {
        for k in 0..BLOCK_SZ {
            assert_eq!(dev.read_byte(b, k), 0);
        }
    }
}

#[test]
fn empty_device_has_no_blocks() {
    let dev = BlockDevice::new(0);
    assert_eq!(dev.num_blocks(), 0);
}

#[test]
fn block_size_holds_128_pointers() {
    assert_eq!(BLOCK_SZ, 512);
    assert_eq!(PTRS_PER_BLOCK, 128);
    assert_eq!(PTRS_PER_BLOCK * 4, BLOCK_SZ);
}

#[test]
fn write_byte_changes_one_byte() {
    let mut dev = BlockDevice::new(3);
    dev.write_byte(1, 7, 0xab);
    assert_eq!(dev.read_byte(1, 7), 0xab);
    assert_eq!(dev.read_byte(1, 6), 0);
    assert_eq!(dev.read_byte(1, 8), 0);
    assert_eq!(dev.read_byte(0, 7), 0);
    assert_eq!(dev.read_byte(2, 7), 0);
}

#[test]
fn pointer_is_little_endian() {
    let mut dev = BlockDevice::new(2);
    dev.write_ptr(1, 1, 0x01020304);
    assert_eq!(dev.read_byte(1, 4), 0x04);
    assert_eq!(dev.read_byte(1, 5), 0x03);
    assert_eq!(dev.read_byte(1, 6), 0x02);
    assert_eq!(dev.read_byte(1, 7), 0x01);
    assert_eq!(dev.read_ptr(1, 1), 0x01020304);
    assert_eq!(dev.read_ptr(1, 0), 0);
    assert_eq!(dev.read_ptr(1, 2), 0);
}

#[test]
fn pointer_read_decodes_bytes() {
    let mut dev = BlockDevice::new(1);
    dev.write_byte(0, 508, 0x78);
    dev.write_byte(0, 509, 0x56);
    dev.write_byte(0, 510, 0x34);
    dev.write_byte(0, 511, 0x12);
    assert_eq!(dev.read_ptr(0, 127), 0x12345678);
}

#[test]
fn pointer_extremes_round_trip() {
    let mut dev = BlockDevice::new(1);
    dev.write_ptr(0, 0, u32::MAX);
    dev.write_ptr(0, 1, 0);
    dev.write_ptr(0, 127, 0x80000001);
    assert_eq!(dev.read_ptr(0, 0), u32::MAX);
    assert_eq!(dev.read_ptr(0, 1), 0);
    assert_eq!(dev.read_ptr(0, 127), 0x80000001);
}

#[test]
fn write_ptr_leaves_neighbours() {
    let mut dev = BlockDevice::new(2);
    for i in 0..PTRS_PER_BLOCK {
        dev.write_ptr(0, i, 1000 + i as u32);
    }
    dev.write_ptr(0, 64, 7);
    for i in 0..PTRS_PER_BLOCK {
        let want = if i == 64 { 7 } else { 1000 + i as u32 };
        assert_eq!(dev.read_ptr(0, i), want);
    }
    for i in 0..PTRS_PER_BLOCK {
        assert_eq!(dev.read_ptr(1, i), 0);
    }
}

#[test]
fn write_bytes_then_read_bytes() {
    let mut dev = BlockDevice::new(2);
    let src = [9u8, 8, 7, 6, 5, 4];
    dev.write_bytes(1, 510, &src, 2, 2);
    assert_eq!(dev.read_byte(1, 509), 0);
    assert_eq!(dev.read_byte(1, 510), 7);
    assert_eq!(dev.read_byte(1, 511), 6);
    let mut out = [1u8; 5];
    dev.read_bytes(1, 509, &mut out, 1, 3);
    assert_eq!(out, [1, 0, 7, 6, 1]);
}

#[test]
fn copying_no_bytes_changes_nothing() {
    let mut dev = BlockDevice::new(1);
    let src = [3u8; 4];
    dev.write_bytes(0, 512, &src, 4, 0);
    for k in 0..BLOCK_SZ {
        assert_eq!(dev.read_byte(0, k), 0);
    }
    let mut out = [5u8; 2];
    dev.read_bytes(0, 0, &mut out, 2, 0);
    assert_eq!(out, [5, 5]);
}
