//! An in-memory block device: an arena of fixed-size blocks addressed by a
//! 32-bit block id, with byte access for data blocks and pointer access for
//! index blocks.

use vstd::prelude::*;

verus! {

/// Size of a block in bytes.
pub const BLOCK_SZ: usize = 512;

/// Number of 4-byte block pointers that fill one block.
pub const PTRS_PER_BLOCK: usize = 128;

/// The value of four bytes read as a little-endian unsigned number.
pub open spec fn le_u32(b0: u8, b1: u8, b2: u8, b3: u8) -> u32 {
    (b0 as int + 256 * (b1 as int) + 65536 * (b2 as int) + 16777216 * (b3 as int)) as u32
}

/// Byte `k` (0 to 3) of the little-endian form of `v`.
pub open spec fn le_byte(v: u32, k: int) -> u8 {
    if k == 0 {
        (v % 256) as u8
    } else if k == 1 {
        (v / 256 % 256) as u8
    } else if k == 2 {
        (v / 65536 % 256) as u8
    } else {
        (v / 16777216) as u8
    }
}

/// Pointer number `i` of a block that is read as an array of little-endian
/// 4-byte block ids.
pub open spec fn ptr_at(block: Seq<u8>, i: int) -> u32 {
    le_u32(block[4 * i], block[4 * i + 1], block[4 * i + 2], block[4 * i + 3])
}

/// The block with pointer number `i` replaced by `v`.
pub open spec fn set_ptr(block: Seq<u8>, i: int, v: u32) -> Seq<u8> {
    block.update(4 * i, le_byte(v, 0)).update(4 * i + 1, le_byte(v, 1)).update(
        4 * i + 2,
        le_byte(v, 2),
    ).update(4 * i + 3, le_byte(v, 3))
}

/// Pointer number `i` of block `b` of the disk `d`.
pub open spec fn ptr(d: Seq<Seq<u8>>, b: u32, i: int) -> u32 {
    ptr_at(d[b as int], i)
}

/// Decoding the little-endian form of a number gives the number back.
pub proof fn lemma_le_round_trip(v: u32)
    ensures
        le_u32(le_byte(v, 0), le_byte(v, 1), le_byte(v, 2), le_byte(v, 3)) == v,
{
}

/// Writing one pointer of a block sets that pointer and leaves every other
/// pointer, and the length of the block, as they were.
pub proof fn lemma_set_ptr(block: Seq<u8>, i: int, v: u32)
    requires
        block.len() == BLOCK_SZ,
        0 <= i < PTRS_PER_BLOCK,
    ensures
        set_ptr(block, i, v).len() == BLOCK_SZ,
        ptr_at(set_ptr(block, i, v), i) == v,
        forall|j: int| 0 <= j < PTRS_PER_BLOCK && j != i ==> ptr_at(set_ptr(block, i, v), j) == ptr_at(block, j),
{
    lemma_le_round_trip(v);
}

/// A block device held in memory. Block `b` is `blocks[b]`.
pub struct BlockDevice {
    pub blocks: Vec<[u8; BLOCK_SZ]>,
}

impl View for BlockDevice {
    type V = Seq<Seq<u8>>;

    /// The content of the device: one sequence of `BLOCK_SZ` bytes per block.
    open spec fn view(&self) -> Seq<Seq<u8>> {
        Seq::new(self.blocks@.len(), |b: int| self.blocks@[b]@)
    }
}

impl BlockDevice {
    /// A device of `num_blocks` blocks, every byte zero.
    pub fn new(num_blocks: usize) -> (dev: Self)
        ensures
            dev@.len() == num_blocks,
            forall|b: int, k: int| 0 <= b < num_blocks && 0 <= k < BLOCK_SZ ==> dev@[b][k] == 0u8,
    {
        let mut blocks: Vec<[u8; BLOCK_SZ]> = Vec::new();
        let mut n: usize = 0;
        while n < num_blocks
            invariant
                n <= num_blocks,
                blocks@.len() == n,
                forall|b: int, k: int| 0 <= b < n && 0 <= k < BLOCK_SZ ==> blocks@[b]@[k] == 0u8,
            decreases num_blocks - n,
        {
            blocks.push([0u8; BLOCK_SZ]);
            n += 1;
        }
        BlockDevice { blocks }
    }

    /// Number of blocks of the device.
    pub fn num_blocks(&self) -> (n: usize)
        ensures
            n == self@.len(),
    {
        self.blocks.len()
    }

    /// Reads one byte of a block.
    pub fn read_byte(&self, block_id: u32, offset: usize) -> (v: u8)
        requires
            block_id < self@.len(),
            offset < BLOCK_SZ,
        ensures
            v == self@[block_id as int][offset as int],
    {
        self.blocks[block_id as usize][offset]
    }

    /// Writes one byte of a block.
    pub fn write_byte(&mut self, block_id: u32, offset: usize, v: u8)
        requires
            block_id < old(self)@.len(),
            offset < BLOCK_SZ,
        ensures
            final(self)@ == old(self)@.update(
                block_id as int,
                old(self)@[block_id as int].update(offset as int, v),
            ),
    {
        self.blocks[block_id as usize][offset] = v;
        assert(self@ =~= old(self)@.update(
            block_id as int,
            old(self)@[block_id as int].update(offset as int, v),
        ));
    }

    /// Reads pointer number `index` of an index block.
    pub fn read_ptr(&self, block_id: u32, index: usize) -> (v: u32)
        requires
            block_id < self@.len(),
            index < PTRS_PER_BLOCK,
        ensures
            v == ptr(self@, block_id, index as int),
    {
        let b0 = self.blocks[block_id as usize][4 * index];
        let b1 = self.blocks[block_id as usize][4 * index + 1];
        let b2 = self.blocks[block_id as usize][4 * index + 2];
        let b3 = self.blocks[block_id as usize][4 * index + 3];
        b0 as u32 + 256 * (b1 as u32) + 65536 * (b2 as u32) + 16777216 * (b3 as u32)
    }

    /// Writes pointer number `index` of an index block. Every other pointer
    /// of that block, and every other block, stays as it was.
    pub fn write_ptr(&mut self, block_id: u32, index: usize, v: u32)
        requires
            block_id < old(self)@.len(),
            index < PTRS_PER_BLOCK,
        ensures
            final(self)@ == old(self)@.update(
                block_id as int,
                set_ptr(old(self)@[block_id as int], index as int, v),
            ),
            ptr(final(self)@, block_id, index as int) == v,
            forall|j: int|
                0 <= j < PTRS_PER_BLOCK && j != index ==> ptr(final(self)@, block_id, j) == ptr(
                    old(self)@,
                    block_id,
                    j,
                ),
    {
        self.blocks[block_id as usize][4 * index] = (v % 256) as u8;
        self.blocks[block_id as usize][4 * index + 1] = (v / 256 % 256) as u8;
        self.blocks[block_id as usize][4 * index + 2] = (v / 65536 % 256) as u8;
        self.blocks[block_id as usize][4 * index + 3] = (v / 16777216) as u8;
        proof {
            lemma_set_ptr(old(self)@[block_id as int], index as int, v);
            assert(self@[block_id as int] =~= set_ptr(
                old(self)@[block_id as int],
                index as int,
                v,
            ));
            assert(self@ =~= old(self)@.update(
                block_id as int,
                set_ptr(old(self)@[block_id as int], index as int, v),
            ));
        }
    }

    /// Copies `len` bytes of a block, from byte `offset` on, into `buf`, from
    /// index `at` on. The rest of `buf` stays as it was.
    pub fn read_bytes(&self, block_id: u32, offset: usize, buf: &mut [u8], at: usize, len: usize)
        requires
            block_id < self@.len(),
            offset + len <= BLOCK_SZ,
            at + len <= old(buf)@.len(),
        ensures
            final(buf)@.len() == old(buf)@.len(),
            forall|i: int|
                0 <= i < final(buf)@.len() ==> final(buf)@[i] == (if at <= i < at + len {
                    self@[block_id as int][offset + i - at]
                } else {
                    old(buf)@[i]
                }),
    {
        let total = buf.len();
        let mut k: usize = 0;
        while k < len
            invariant
                k <= len,
                block_id < self@.len(),
                offset + len <= BLOCK_SZ,
                at + len <= buf@.len(),
                total == buf@.len(),
                buf@.len() == old(buf)@.len(),
                forall|i: int|
                    0 <= i < buf@.len() ==> buf@[i] == (if at <= i < at + k {
                        self@[block_id as int][offset + i - at]
                    } else {
                        old(buf)@[i]
                    }),
            decreases len - k,
        {
            buf[at + k] = self.blocks[block_id as usize][offset + k];
            k += 1;
        }
    }

    /// Copies `len` bytes of `buf`, from index `from` on, into a block, from
    /// byte `offset` on. The rest of the block, and every other block, stays
    /// as it was.
    pub fn write_bytes(&mut self, block_id: u32, offset: usize, buf: &[u8], from: usize, len: usize)
        requires
            block_id < old(self)@.len(),
            offset + len <= BLOCK_SZ,
            from + len <= buf@.len(),
        ensures
            final(self)@.len() == old(self)@.len(),
            forall|b: int|
                0 <= b < final(self)@.len() && b != block_id ==> final(self)@[b] == old(self)@[b],
            final(self)@[block_id as int].len() == BLOCK_SZ,
            forall|i: int|
                0 <= i < BLOCK_SZ ==> final(self)@[block_id as int][i] == (if offset <= i < offset
                    + len {
                    buf@[from + i - offset]
                } else {
                    old(self)@[block_id as int][i]
                }),
    {
        let total = buf.len();
        let mut k: usize = 0;
        while k < len
            invariant
                k <= len,
                block_id < self@.len(),
                offset + len <= BLOCK_SZ,
                from + len <= buf@.len(),
                total == buf@.len(),
                self@.len() == old(self)@.len(),
                forall|b: int|
                    0 <= b < self@.len() && b != block_id ==> self@[b] == old(self)@[b],
                forall|i: int|
                    0 <= i < BLOCK_SZ ==> self@[block_id as int][i] == (if offset <= i < offset + k {
                        buf@[from + i - offset]
                    } else {
                        old(self)@[block_id as int][i]
                    }),
            decreases len - k,
        {
            let v = buf[from + k];
            self.write_byte(block_id, offset + k, v);
            k += 1;
        }
    }
}

} // verus!
