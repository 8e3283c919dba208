//! The operations of an inode for callers that cannot promise what the
//! operations ask: a request that breaks the contract is refused with an
//! error, and nothing is changed.

use vstd::prelude::*;
use crate::device::BlockDevice;
use crate::inode::{data_blocks_of, total_blocks_of, DiskInode, MAX_DATA_BLOCKS};
use crate::tier::distinct_on_disk;

verus! {

/// Why a request was refused.
#[derive(Clone, Copy, Debug, PartialEq, Eq, Structural)]
pub enum LayoutError {
    /// The new size is smaller than the size of the inode.
    Shrinks,
    /// The size takes more data blocks than an inode can address.
    NotAddressable,
    /// The number of blocks handed over is not the number that is needed.
    BlockCount,
    /// The block number is not below the number of data blocks.
    OutOfRange,
}

/// The error with which growth to `new_size` bytes with `given` blocks is
/// refused for an inode of `size` bytes, if it is refused.
pub open spec fn growth_error(size: u32, new_size: u32, given: int) -> Option<LayoutError> {
    if new_size < size {
        Some(LayoutError::Shrinks)
    } else if data_blocks_of(new_size) > MAX_DATA_BLOCKS {
        Some(LayoutError::NotAddressable)
    } else if given != total_blocks_of(new_size) - total_blocks_of(size) {
        Some(LayoutError::BlockCount)
    } else {
        None
    }
}

impl DiskInode {
    /// Number of blocks that must be obtained before the inode can grow to
    /// `new_size` bytes, or an error where the new size is smaller than the
    /// size of the inode.
    pub fn checked_blocks_num_needed(&self, new_size: u32) -> (r: Result<u32, LayoutError>)
        ensures
            new_size < self.size ==> r == Err::<u32, LayoutError>(LayoutError::Shrinks),
            new_size >= self.size ==> r == Ok::<u32, LayoutError>(
                (total_blocks_of(new_size) - total_blocks_of(self.size)) as u32,
            ),
    {
        if new_size < self.size {
            Err(LayoutError::Shrinks)
        } else {
            Ok(self.blocks_num_needed(new_size))
        }
    }

    /// Get the id of the block that holds data block number `inner_id`, or
    /// an error where the inode has no data block of that number.
    pub fn checked_get_block_id(&self, inner_id: u32, disk: &BlockDevice) -> (r: Result<
        u32,
        LayoutError,
    >)
        requires
            self.wf(disk@),
        ensures
            inner_id >= self.blocks() ==> r == Err::<u32, LayoutError>(LayoutError::OutOfRange),
            inner_id < self.blocks() ==> r == Ok::<u32, LayoutError>(
                self.block_id_of(disk@, inner_id as int),
            ),
    {
        if inner_id >= self.data_blocks() {
            Err(LayoutError::OutOfRange)
        } else {
            Ok(self.get_block_id(inner_id, disk))
        }
    }

    /// Increase the size of the inode to `new_size` bytes as `increase_size`
    /// does, or refuse with an error and change nothing: where the new size
    /// is smaller than the size of the inode, where it cannot be addressed,
    /// or where `new_blocks` does not hold as many blocks as are needed.
    pub fn checked_increase_size(
        &mut self,
        new_size: u32,
        new_blocks: Vec<u32>,
        disk: &mut BlockDevice,
    ) -> (r: Result<(), LayoutError>)
        requires
            old(self).wf(old(disk)@),
            growth_error(old(self).size, new_size, new_blocks@.len() as int) is None
                ==> distinct_on_disk(old(self).owned(old(disk)@) + new_blocks@, old(disk)@),
        ensures
            growth_error(old(self).size, new_size, new_blocks@.len() as int) matches Some(e) ==> r
                == Err::<(), LayoutError>(e) && *final(self) == *old(self) && final(disk)@ == old(
                disk,
            )@,
            growth_error(old(self).size, new_size, new_blocks@.len() as int) is None ==> r is Ok
                && final(self).size == new_size && final(self).type_ == old(self).type_ && old(
                self,
            ).grown(old(disk)@, final(self), final(disk)@, new_blocks@),
    {
        if new_size < self.size {
            return Err(LayoutError::Shrinks);
        }
        if DiskInode::_data_blocks(new_size) as usize > MAX_DATA_BLOCKS {
            return Err(LayoutError::NotAddressable);
        }
        if new_blocks.len() != self.blocks_num_needed(new_size) as usize {
            return Err(LayoutError::BlockCount);
        }
        self.increase_size(new_size, new_blocks, disk);
        Ok(())
    }
}

} // verus!
