//! The super block: the record that describes the regions of a filesystem.

use vstd::prelude::*;

verus! {

/// Magic number that marks a formatted filesystem.
pub const EFS_MAGIC: u32 = 0x3b800001;

/// Super block of a filesystem.
#[derive(Debug)]
pub struct SuperBlock {
    /// `EFS_MAGIC` in a formatted filesystem.
    pub magic: u32,
    /// Number of blocks of the filesystem.
    pub total_blocks: u32,
    /// Number of blocks of the inode bitmap.
    pub inode_bitmap_blocks: u32,
    /// Number of blocks of the inode area.
    pub inode_area_blocks: u32,
    /// Number of blocks of the data bitmap.
    pub data_bitmap_blocks: u32,
    /// Number of blocks of the data area.
    pub data_area_blocks: u32,
}

impl SuperBlock {
    /// Initialize a super block: the magic number and the five counts as
    /// they are given. The counts are not checked.
    pub fn initialize(
        &mut self,
        total_blocks: u32,
        inode_bitmap_blocks: u32,
        inode_area_blocks: u32,
        data_bitmap_blocks: u32,
        data_area_blocks: u32,
    )
        ensures
            *final(self) == (SuperBlock {
                magic: EFS_MAGIC,
                total_blocks,
                inode_bitmap_blocks,
                inode_area_blocks,
                data_bitmap_blocks,
                data_area_blocks,
            }),
    {
        *self = SuperBlock {
            magic: EFS_MAGIC,
            total_blocks,
            inode_bitmap_blocks,
            inode_area_blocks,
            data_bitmap_blocks,
            data_area_blocks,
        };
    }

    /// Check if a super block is valid: whether it holds the magic number.
    pub fn is_valid(&self) -> (valid: bool)
        ensures
            valid == (self.magic == EFS_MAGIC),
    {
        self.magic == EFS_MAGIC
    }
}

} // verus!
