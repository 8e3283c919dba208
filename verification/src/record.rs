//! The records of the filesystem as they lie on the disk: the super block in
//! 24 bytes, the inode in 128 bytes, every number as 4 bytes with the least
//! byte first.

use vstd::prelude::*;
use crate::device::{le_byte, le_u32, lemma_le_round_trip};
use crate::inode::{DiskInode, DiskInodeType};
use crate::super_block::SuperBlock;

verus! {

/// Size of a super block on the disk in bytes.
pub const SUPER_BLOCK_SZ: usize = 24;

/// Size of an inode on the disk in bytes. Four inodes fill a block.
pub const INODE_SZ: usize = 128;

/// The number that the 4 bytes of `s` from position `at` on hold.
pub open spec fn u32_at(s: Seq<u8>, at: int) -> u32 {
    le_u32(s[at], s[at + 1], s[at + 2], s[at + 3])
}

/// Writes `v` into the 4 bytes of `buf` from position `at` on.
fn put_u32(buf: &mut [u8], at: usize, v: u32)
    requires
        at + 4 <= old(buf)@.len(),
    ensures
        final(buf)@.len() == old(buf)@.len(),
        forall|i: int|
            0 <= i < final(buf)@.len() ==> final(buf)@[i] == (if at <= i < at + 4 {
                le_byte(v, i - at)
            } else {
                old(buf)@[i]
            }),
{
    buf[at] = (v % 256) as u8;
    buf[at + 1] = (v / 256 % 256) as u8;
    buf[at + 2] = (v / 65536 % 256) as u8;
    buf[at + 3] = (v / 16777216) as u8;
}

/// Reads the number that the 4 bytes of `buf` from position `at` on hold.
fn get_u32(buf: &[u8], at: usize) -> (v: u32)
    requires
        at + 4 <= buf@.len(),
    ensures
        v == u32_at(buf@, at as int),
{
    buf[at] as u32 + 256 * (buf[at + 1] as u32) + 65536 * (buf[at + 2] as u32) + 16777216 * (buf[at
        + 3] as u32)
}

impl SuperBlock {
    /// Number `w` (0 to 5) of the record: the magic number, then the five
    /// counts.
    pub open spec fn word(&self, w: int) -> u32 {
        if w == 0 {
            self.magic
        } else if w == 1 {
            self.total_blocks
        } else if w == 2 {
            self.inode_bitmap_blocks
        } else if w == 3 {
            self.inode_area_blocks
        } else if w == 4 {
            self.data_bitmap_blocks
        } else {
            self.data_area_blocks
        }
    }

    /// The 24 bytes of the record on the disk.
    pub open spec fn bytes(&self) -> Seq<u8> {
        Seq::new(SUPER_BLOCK_SZ as nat, |i: int| le_byte(self.word(i / 4), i % 4))
    }

    /// Whether the record is the one that the 24 bytes `bytes` hold.
    pub open spec fn is_from(&self, bytes: Seq<u8>) -> bool {
        forall|w: int| 0 <= w < 6 ==> #[trigger] self.word(w) == u32_at(bytes, 4 * w)
    }

    /// The record as it lies on the disk.
    pub fn as_bytes(&self) -> (bytes: [u8; 24])
        ensures
            bytes@ == self.bytes(),
    {
        let mut bytes = [0u8; 24];
        put_u32(&mut bytes, 0, self.magic);
        put_u32(&mut bytes, 4, self.total_blocks);
        put_u32(&mut bytes, 8, self.inode_bitmap_blocks);
        put_u32(&mut bytes, 12, self.inode_area_blocks);
        put_u32(&mut bytes, 16, self.data_bitmap_blocks);
        put_u32(&mut bytes, 20, self.data_area_blocks);
        assert(bytes@ =~= self.bytes());
        bytes
    }

    /// The record that 24 bytes of the disk hold.
    pub fn from_bytes(bytes: &[u8]) -> (sb: Self)
        requires
            bytes@.len() == SUPER_BLOCK_SZ,
        ensures
            sb.is_from(bytes@),
    {
        SuperBlock {
            magic: get_u32(bytes, 0),
            total_blocks: get_u32(bytes, 4),
            inode_bitmap_blocks: get_u32(bytes, 8),
            inode_area_blocks: get_u32(bytes, 12),
            data_bitmap_blocks: get_u32(bytes, 16),
            data_area_blocks: get_u32(bytes, 20),
        }
    }

    /// A record read back from its own bytes is the record.
    pub proof fn lemma_bytes_round_trip(&self, other: &SuperBlock)
        requires
            other.is_from(self.bytes()),
        ensures
            *other == *self,
            self.bytes().len() == SUPER_BLOCK_SZ,
    {
        assert forall|w: int| 0 <= w < 6 implies u32_at(self.bytes(), 4 * w) == self.word(w) by {
            lemma_le_round_trip(self.word(w));
        }
        assert(other.word(0) == self.word(0));
        assert(other.word(1) == self.word(1));
        assert(other.word(2) == self.word(2));
        assert(other.word(3) == self.word(3));
        assert(other.word(4) == self.word(4));
        assert(other.word(5) == self.word(5));
    }
}

/// The byte that stands for the type of an inode on the disk.
pub open spec fn type_tag(type_: DiskInodeType) -> u8 {
    match type_ {
        DiskInodeType::File => 0,
        DiskInodeType::Directory => 1,
    }
}

impl DiskInode {
    /// Number `w` (0 to 31) of the record: the size, the 27 direct pointers,
    /// the three indirect pointers, and the type.
    pub open spec fn word(&self, w: int) -> u32 {
        if w == 0 {
            self.size
        } else if w <= 27 {
            self.direct@[w - 1]
        } else if w == 28 {
            self.indirect1
        } else if w == 29 {
            self.indirect2
        } else if w == 30 {
            self.indirect3
        } else {
            type_tag(self.type_) as u32
        }
    }

    /// The 128 bytes of the record on the disk.
    pub open spec fn bytes(&self) -> Seq<u8> {
        Seq::new(INODE_SZ as nat, |i: int| le_byte(self.word(i / 4), i % 4))
    }

    /// Whether the record is the one that the 128 bytes `bytes` hold. Of
    /// the last four bytes only the first tells the type.
    pub open spec fn is_from(&self, bytes: Seq<u8>) -> bool {
        &&& forall|w: int| 0 <= w < 31 ==> #[trigger] self.word(w) == u32_at(bytes, 4 * w)
        &&& type_tag(self.type_) == bytes[124]
    }

    /// The record as it lies on the disk.
    pub fn as_bytes(&self) -> (bytes: [u8; 128])
        ensures
            bytes@ == self.bytes(),
    {
        let mut bytes = [0u8; 128];
        put_u32(&mut bytes, 0, self.size);
        let mut k: usize = 0;
        while k < 27
            invariant
                k <= 27,
                forall|i: int|
                    0 <= i < 128 ==> bytes@[i] == (if i < 4 + 4 * k {
                        le_byte(self.word(i / 4), i % 4)
                    } else {
                        0u8
                    }),
            decreases 27 - k,
        {
            put_u32(&mut bytes, 4 + 4 * k, self.direct[k]);
            k += 1;
        }
        put_u32(&mut bytes, 112, self.indirect1);
        put_u32(&mut bytes, 116, self.indirect2);
        put_u32(&mut bytes, 120, self.indirect3);
        bytes[124] = match self.type_ {
            DiskInodeType::File => 0,
            DiskInodeType::Directory => 1,
        };
        assert(bytes@ =~= self.bytes());
        bytes
    }

    /// The record that 128 bytes of the disk hold, or nothing where they do
    /// not tell whether it is a file or a directory.
    pub fn from_bytes(bytes: &[u8]) -> (r: Option<Self>)
        requires
            bytes@.len() == INODE_SZ,
        ensures
            r is Some <==> bytes@[124] <= 1,
            r matches Some(inode) ==> inode.is_from(bytes@),
    {
        let type_ = if bytes[124] == 0 {
            DiskInodeType::File
        } else if bytes[124] == 1 {
            DiskInodeType::Directory
        } else {
            return None;
        };
        let mut direct = [0u32; 27];
        let mut k: usize = 0;
        while k < 27
            invariant
                k <= 27,
                bytes@.len() == INODE_SZ,
                forall|j: int| 0 <= j < k ==> direct@[j] == u32_at(bytes@, 4 + 4 * j),
            decreases 27 - k,
        {
            direct[k] = get_u32(bytes, 4 + 4 * k);
            k += 1;
        }
        Some(
            DiskInode {
                size: get_u32(bytes, 0),
                direct,
                indirect1: get_u32(bytes, 112),
                indirect2: get_u32(bytes, 116),
                indirect3: get_u32(bytes, 120),
                type_,
            },
        )
    }

    /// A record read back from its own bytes is the record.
    pub proof fn lemma_bytes_round_trip(&self, other: &DiskInode)
        requires
            other.is_from(self.bytes()),
        ensures
            *other == *self,
            self.bytes().len() == INODE_SZ,
            self.bytes()[124] <= 1,
    {
        assert forall|w: int| 0 <= w < 32 implies u32_at(self.bytes(), 4 * w) == self.word(w) by {
            lemma_le_round_trip(self.word(w));
        }
        assert(other.word(0) == self.word(0));
        assert(other.word(28) == self.word(28));
        assert(other.word(29) == self.word(29));
        assert(other.word(30) == self.word(30));
        assert forall|j: int| 0 <= j < 27 implies other.direct@[j] == self.direct@[j] by {
            assert(other.word(j + 1) == self.word(j + 1));
        }
        assert(other.direct@ =~= self.direct@);
        assert(other.direct == self.direct);
        assert(type_tag(other.type_) == type_tag(self.type_));
    }
}

} // verus!
