//! The disk inode: the size of a file or directory, its type, and the
//! pointers that lead from a position in it to the block that holds it.

use vstd::prelude::*;
use crate::device::{ptr, BlockDevice};
use crate::tier::{distinct_on_disk, seg};
use crate::tree::{
    ceil_128, ceil_16384, collect_tree_blocks, index_blocks_on_disk, is_index_block_of,
    is_index_pos, leaf_at, leaf_pos,
    leaves_below, lemma_leaf_1, lemma_leaf_2, lemma_leaf_3, min_int, node_at, path_pos, tree_len,
};

verus! {

/// Number of direct block pointers of an inode.
pub const INODE_DIRECT_COUNT: usize = 27;

/// Number of data blocks reached through the single indirect pointer.
pub const INODE_INDIRECT1_COUNT: usize = 128;

/// Number of data blocks reached through the double indirect pointer.
pub const INODE_INDIRECT2_COUNT: usize = 16384;

/// Number of data blocks reached through the triple indirect pointer.
pub const INODE_INDIRECT3_COUNT: usize = 2097152;

/// First block number that is not reached through the single indirect pointer.
pub const INDIRECT1_BOUND: usize = 155;

/// First block number that is not reached through the double indirect pointer.
pub const INDIRECT2_BOUND: usize = 16539;

/// Greatest number of data blocks of one inode.
pub const MAX_DATA_BLOCKS: usize = 2113691;

/// Type of a disk inode.
#[derive(Clone, Copy, Debug, PartialEq, Eq, Structural)]
pub enum DiskInodeType {
    File,
    Directory,
}

/// A disk inode.
#[derive(Clone, Copy, Debug)]
pub struct DiskInode {
    /// Length of the content in bytes.
    pub size: u32,
    /// The blocks that hold the first 27 blocks of the content.
    pub direct: [u32; 27],
    /// The index block of the single indirect tier, 0 where it is unused.
    pub indirect1: u32,
    /// The index block of the double indirect tier, 0 where it is unused.
    pub indirect2: u32,
    /// The index block of the triple indirect tier, 0 where it is unused.
    pub indirect3: u32,
    /// Whether the inode is a file or a directory.
    pub type_: DiskInodeType,
}

/// Number of blocks that hold `size` bytes.
pub open spec fn data_blocks_of(size: u32) -> int {
    (size + 511) / 512
}

/// Number of index blocks that lead to `nb` data blocks: the root of the
/// single indirect tier once there are more than 27 data blocks; the root of
/// the double indirect tier and one index block for each group of 128 data
/// blocks begun in it once there are more than 155; the root of the triple
/// indirect tier, one index block for each group of 16384 and one for each
/// group of 128 data blocks begun in it once there are more than 16539.
pub open spec fn index_blocks_of(nb: int) -> int {
    (if nb > 27 {
        1int
    } else {
        0int
    }) + (if nb > 155 {
        1 + min_int(ceil_128(nb - 155), 128)
    } else {
        0int
    }) + (if nb > 16539 {
        1 + ceil_16384(nb - 16539) + ceil_128(nb - 16539)
    } else {
        0int
    })
}

/// Number of blocks that an inode of `size` bytes owns: data blocks and index
/// blocks.
pub open spec fn total_blocks_of(size: u32) -> int {
    data_blocks_of(size) + index_blocks_of(data_blocks_of(size))
}

/// Number of the first data block of tier `t`: 0 for the direct pointers.
pub open spec fn tier_base(t: nat) -> int {
    if t == 0 {
        0
    } else if t == 1 {
        27
    } else if t == 2 {
        155
    } else {
        16539
    }
}

/// Number of data blocks in tier `t` (1 to 3) of an inode with `nb` data
/// blocks.
pub open spec fn tier_count(nb: int, t: nat) -> int {
    leaves_below(nb, tier_base(t), t)
}

/// Number of blocks of tier `t` (1 to 3) of an inode with `nb` data blocks,
/// index blocks included.
pub open spec fn tier_size(nb: int, t: nat) -> int {
    if nb <= tier_base(t) {
        0
    } else {
        1 + tree_len(t, tier_count(nb, t))
    }
}

/// Position of the root of tier `t` (1 to 3) among the blocks that an inode
/// with `nb` data blocks owns.
pub open spec fn tier_start(nb: int, t: nat) -> int {
    if t <= 1 {
        min_int(nb, 27)
    } else if t == 2 {
        min_int(nb, 27) + tier_size(nb, 1)
    } else {
        min_int(nb, 27) + tier_size(nb, 1) + tier_size(nb, 2)
    }
}

/// Position of data block number `k` among the blocks that an inode owns.
pub open spec fn data_pos(k: int) -> int {
    if k < 27 {
        k
    } else if k < 155 {
        28 + (k - 27)
    } else if k < 16539 {
        157 + leaf_pos(2, k - 155)
    } else {
        16670 + leaf_pos(3, k - 16539)
    }
}

/// The monotonicity of the block count in the size.
pub proof fn lemma_total_blocks_monotone(s1: u32, s2: u32)
    requires
        s1 <= s2,
    ensures
        data_blocks_of(s1) <= data_blocks_of(s2),
        total_blocks_of(s1) <= total_blocks_of(s2),
        0 <= total_blocks_of(s1),
        total_blocks_of(s2) <= 8500000,
{
}

impl DiskInode {
    /// Number of data blocks of the inode.
    pub open spec fn blocks(&self) -> int {
        data_blocks_of(self.size)
    }

    /// The index block at the root of tier `t` (1 to 3).
    pub open spec fn root(&self, t: nat) -> u32 {
        if t <= 1 {
            self.indirect1
        } else if t == 2 {
            self.indirect2
        } else {
            self.indirect3
        }
    }

    /// The blocks of tier `t` (1 to 3): its root and the listing below it.
    pub open spec fn tier_ids(&self, d: Seq<Seq<u8>>, t: nat) -> Seq<u32> {
        seg(d, self.root(t), t, tier_count(self.blocks(), t))
    }

    /// Every block that the inode owns on the disk `d`, in the order in which
    /// they were installed: the direct blocks, then tier by tier the root and
    /// below it each child followed by what is below that child.
    pub open spec fn owned(&self, d: Seq<Seq<u8>>) -> Seq<u32> {
        self.direct@.subrange(0, min_int(self.blocks(), 27)) + self.tier_ids(d, 1) + self.tier_ids(
            d,
            2,
        ) + self.tier_ids(d, 3)
    }

    /// The block that holds data block number `k`.
    pub open spec fn block_id_of(&self, d: Seq<Seq<u8>>, k: int) -> u32 {
        if k < 27 {
            self.direct@[k]
        } else if k < 155 {
            leaf_at(d, self.indirect1, 1, k - 27)
        } else if k < 16539 {
            leaf_at(d, self.indirect2, 2, k - 155)
        } else {
            leaf_at(d, self.indirect3, 3, k - 16539)
        }
    }

    /// Whether `blk` is an index block of the inode.
    pub open spec fn is_index_block(&self, d: Seq<Seq<u8>>, blk: int) -> bool {
        exists|t: nat|
            1 <= t <= 3 && tier_count(self.blocks(), t) > 0 && #[trigger] is_index_block_of(
                d,
                self.root(t),
                t,
                tier_count(self.blocks(), t),
                blk,
            )
    }

    /// The pointers of the unused tiers and the unused direct pointers are 0.
    pub open spec fn unused_are_zero(&self) -> bool {
        &&& forall|k: int| self.blocks() <= k < 27 ==> self.direct@[k] == 0
        &&& self.blocks() <= 27 ==> self.indirect1 == 0
        &&& self.blocks() <= 155 ==> self.indirect2 == 0
        &&& self.blocks() <= 16539 ==> self.indirect3 == 0
    }

    /// The inode is well formed on the disk `d`: its size can be addressed,
    /// what it does not use is 0, and the blocks it owns are blocks of the
    /// disk, none of them twice.
    pub open spec fn wf(&self, d: Seq<Seq<u8>>) -> bool {
        &&& self.blocks() <= MAX_DATA_BLOCKS
        &&& self.unused_are_zero()
        &&& distinct_on_disk(self.owned(d), d)
    }

    /// The content of the inode on the disk `d`.
    pub open spec fn content(&self, d: Seq<Seq<u8>>) -> Seq<u8> {
        Seq::new(self.size as nat, |j: int| d[self.block_id_of(d, j / 512) as int][j % 512])
    }

    /// An inode of the given type that holds nothing.
    pub fn new(type_: DiskInodeType) -> (inode: Self)
        ensures
            inode.size == 0,
            inode.type_ == type_,
            inode.indirect1 == 0,
            inode.indirect2 == 0,
            inode.indirect3 == 0,
            forall|k: int| 0 <= k < 27 ==> inode.direct@[k] == 0,
            forall|d: Seq<Seq<u8>>| #[trigger] inode.wf(d),
    {
        let inode = DiskInode {
            size: 0,
            direct: [0u32; 27],
            indirect1: 0,
            indirect2: 0,
            indirect3: 0,
            type_,
        };
        assert forall|d: Seq<Seq<u8>>| #[trigger] inode.wf(d) by {
            assert(inode.owned(d) =~= Seq::<u32>::empty());
        }
        inode
    }

    /// Initialize a disk inode, as well as all direct pointers under it.
    pub fn initialize(&mut self, type_: DiskInodeType)
        ensures
            final(self).size == 0,
            final(self).type_ == type_,
            final(self).indirect1 == 0,
            final(self).indirect2 == 0,
            final(self).indirect3 == 0,
            forall|k: int| 0 <= k < 27 ==> final(self).direct@[k] == 0,
            forall|d: Seq<Seq<u8>>| #[trigger] final(self).wf(d),
    {
        self.size = 0;
        self.direct = [0u32; 27];
        self.indirect1 = 0;
        self.indirect2 = 0;
        self.indirect3 = 0;
        self.type_ = type_;
        assert forall|d: Seq<Seq<u8>>| #[trigger] self.wf(d) by {
            assert(self.owned(d) =~= Seq::<u32>::empty());
        }
    }

    /// Whether this inode is a directory.
    pub fn is_dir(&self) -> (r: bool)
        ensures
            r == (self.type_ == DiskInodeType::Directory),
    {
        self.type_ == DiskInodeType::Directory
    }

    /// Whether this inode is a file.
    pub fn is_file(&self) -> (r: bool)
        ensures
            r == (self.type_ == DiskInodeType::File),
    {
        self.type_ == DiskInodeType::File
    }

    /// Number of data blocks that hold the content.
    pub fn data_blocks(&self) -> (n: u32)
        ensures
            n == data_blocks_of(self.size),
    {
        Self::_data_blocks(self.size)
    }

    /// Number of data blocks that hold `size` bytes.
    pub fn _data_blocks(size: u32) -> (n: u32)
        ensures
            n == data_blocks_of(size),
    {
        if size % 512 == 0 {
            size / 512
        } else {
            size / 512 + 1
        }
    }

    /// Number of blocks that an inode of `size` bytes owns, index blocks
    /// included.
    pub fn total_blocks(size: u32) -> (total: u32)
        ensures
            total == total_blocks_of(size),
            total == data_blocks_of(size) + index_blocks_of(data_blocks_of(size)),
            total >= data_blocks_of(size),
    {
        let data_blocks = Self::_data_blocks(size) as usize;
        let mut total = data_blocks;
        // single indirect tier
        if data_blocks > INODE_DIRECT_COUNT {
            total += 1;
        }
        // double indirect tier
        if data_blocks > INDIRECT1_BOUND {
            total += 1;
            let level2_extra = (data_blocks - INDIRECT1_BOUND + INODE_INDIRECT1_COUNT - 1)
                / INODE_INDIRECT1_COUNT;
            total += if level2_extra < INODE_INDIRECT1_COUNT {
                level2_extra
            } else {
                INODE_INDIRECT1_COUNT
            };
        }
        // triple indirect tier
        if data_blocks > INDIRECT2_BOUND {
            let remaining = data_blocks - INDIRECT2_BOUND;
            let level2_extra = (remaining + INODE_INDIRECT2_COUNT - 1) / INODE_INDIRECT2_COUNT;
            let level3_extra = (remaining + INODE_INDIRECT1_COUNT - 1) / INODE_INDIRECT1_COUNT;
            total += 1 + level2_extra + level3_extra;
        }
        total as u32
    }

    /// Number of blocks that must be obtained before the inode can grow to
    /// `new_size` bytes.
    pub fn blocks_num_needed(&self, new_size: u32) -> (n: u32)
        requires
            new_size >= self.size,
        ensures
            n == total_blocks_of(new_size) - total_blocks_of(self.size),
    {
        proof {
            lemma_total_blocks_monotone(self.size, new_size);
        }
        Self::total_blocks(new_size) - Self::total_blocks(self.size)
    }

    /// Where each block stands among the blocks that the inode owns, and how
    /// many there are: as many as `total_blocks_of` counts.
    pub proof fn lemma_owned_at(&self, d: Seq<Seq<u8>>)
        requires
            self.blocks() <= MAX_DATA_BLOCKS,
        ensures
            self.owned(d).len() == total_blocks_of(self.size),
            self.owned(d).len() == tier_start(self.blocks(), 3) + tier_size(self.blocks(), 3),
            forall|k: int|
                0 <= k < min_int(self.blocks(), 27) ==> self.owned(d)[k] == self.direct@[k],
            forall|t: nat|
                1 <= t <= 3 && tier_count(self.blocks(), t) > 0 ==> self.owned(d)[tier_start(
                    self.blocks(),
                    t,
                )] == #[trigger] self.root(t),
            forall|t: nat, p: int|
                1 <= t <= 3 && 0 <= p < tree_len(t, tier_count(self.blocks(), t)) ==> self.owned(
                    d,
                )[tier_start(self.blocks(), t) + 1 + p] == #[trigger] node_at(
                    d,
                    self.root(t),
                    t,
                    p,
                ),
    {
        let nb = self.blocks();
        let o = self.owned(d);
        assert forall|t: nat, p: int|
            1 <= t <= 3 && 0 <= p < tree_len(t, tier_count(nb, t)) implies o[tier_start(nb, t) + 1
            + p] == #[trigger] node_at(d, self.root(t), t, p) by {
            assert(self.tier_ids(d, t)[1 + p] == node_at(d, self.root(t), t, p));
        }
        assert forall|t: nat| 1 <= t <= 3 && tier_count(nb, t) > 0 implies o[tier_start(nb, t)]
            == #[trigger] self.root(t) by {
            assert(self.tier_ids(d, t)[0] == self.root(t));
        }
    }

    /// The lookups that lead to data block number `k` pass through blocks
    /// that the inode owns, and end in the block at position `data_pos(k)`.
    pub proof fn lemma_path(&self, d: Seq<Seq<u8>>, k: int)
        requires
            self.wf(d),
            0 <= k < self.blocks(),
        ensures
            0 <= data_pos(k) < self.owned(d).len(),
            self.block_id_of(d, k) == self.owned(d)[data_pos(k)],
            self.block_id_of(d, k) < d.len(),
            27 <= k < 155 ==> self.root(1) < d.len(),
            155 <= k < 16539 ==> self.root(2) < d.len() && ptr(d, self.root(2), (k - 155) / 128)
                < d.len(),
            16539 <= k ==> self.root(3) < d.len() && ptr(d, self.root(3), (k - 16539) / 16384)
                < d.len() && ptr(
                d,
                ptr(d, self.root(3), (k - 16539) / 16384),
                (k - 16539) % 16384 / 128,
            ) < d.len(),
    {
        let nb = self.blocks();
        let o = self.owned(d);
        self.lemma_owned_at(d);
        if k < 27 {
        } else if k < 155 {
            lemma_leaf_1(d, self.root(1), k - 27, tier_count(nb, 1));
            assert(self.root(1) == o[tier_start(nb, 1)]);
            assert(node_at(d, self.root(1), 1, k - 27) == o[tier_start(nb, 1) + 1 + (k - 27)]);
        } else if k < 16539 {
            let j = k - 155;
            lemma_leaf_2(d, self.root(2), j, tier_count(nb, 2));
            assert(self.root(1) == o[tier_start(nb, 1)]);
            assert(self.root(2) == o[tier_start(nb, 2)]);
            assert(node_at(d, self.root(2), 2, path_pos(2, 1, j)) == o[tier_start(nb, 2) + 1
                + path_pos(2, 1, j)]);
            assert(node_at(d, self.root(2), 2, leaf_pos(2, j)) == o[tier_start(nb, 2) + 1
                + leaf_pos(2, j)]);
        } else {
            let j = k - 16539;
            lemma_leaf_3(d, self.root(3), j, tier_count(nb, 3));
            assert(self.root(1) == o[tier_start(nb, 1)]);
            assert(self.root(2) == o[tier_start(nb, 2)]);
            assert(self.root(3) == o[tier_start(nb, 3)]);
            assert(node_at(d, self.root(3), 3, path_pos(3, 1, j)) == o[tier_start(nb, 3) + 1
                + path_pos(3, 1, j)]);
            assert(node_at(d, self.root(3), 3, path_pos(3, 2, j)) == o[tier_start(nb, 3) + 1
                + path_pos(3, 2, j)]);
            assert(node_at(d, self.root(3), 3, leaf_pos(3, j)) == o[tier_start(nb, 3) + 1
                + leaf_pos(3, j)]);
        }
    }

    /// Get the id of the block that holds data block number `inner_id`.
    pub fn get_block_id(&self, inner_id: u32, disk: &BlockDevice) -> (id: u32)
        requires
            self.wf(disk@),
            inner_id < self.blocks(),
        ensures
            id == self.block_id_of(disk@, inner_id as int),
            id == self.owned(disk@)[data_pos(inner_id as int)],
            id < disk@.len(),
    {
        proof {
            self.lemma_path(disk@, inner_id as int);
        }
        let inner_id = inner_id as usize;
        if inner_id < INODE_DIRECT_COUNT {
            self.direct[inner_id]
        } else if inner_id < INDIRECT1_BOUND {
            disk.read_ptr(self.indirect1, inner_id - INODE_DIRECT_COUNT)
        } else if inner_id < INDIRECT2_BOUND {
            let last = inner_id - INDIRECT1_BOUND;
            let indirect1 = disk.read_ptr(self.indirect2, last / INODE_INDIRECT1_COUNT);
            disk.read_ptr(indirect1, last % INODE_INDIRECT1_COUNT)
        } else {
            let last = inner_id - INDIRECT2_BOUND;
            let indirect1 = disk.read_ptr(self.indirect3, last / INODE_INDIRECT2_COUNT);
            let indirect2 = disk.read_ptr(
                indirect1,
                (last % INODE_INDIRECT2_COUNT) / INODE_INDIRECT1_COUNT,
            );
            disk.read_ptr(indirect2, (last % INODE_INDIRECT2_COUNT) % INODE_INDIRECT1_COUNT)
        }
    }

    /// The root and the index blocks of a tier in use are blocks of the disk.
    pub proof fn lemma_tier_on_disk(&self, d: Seq<Seq<u8>>, t: nat)
        requires
            self.wf(d),
            1 <= t <= 3,
            tier_count(self.blocks(), t) > 0,
        ensures
            self.root(t) < d.len(),
            index_blocks_on_disk(d, self.root(t), t, tier_count(self.blocks(), t)),
    {
        let nb = self.blocks();
        let o = self.owned(d);
        self.lemma_owned_at(d);
        assert(self.root(t) == o[tier_start(nb, t)]);
        assert forall|p: int|
            0 <= p < tree_len(t, tier_count(nb, t)) && is_index_pos(t, p) implies (
        #[trigger] node_at(d, self.root(t), t, p)) < d.len() by {
            assert(node_at(d, self.root(t), t, p) == o[tier_start(nb, t) + 1 + p]);
        }
    }

    /// Clear size to zero and return the blocks that should be deallocated:
    /// every block that the inode owns, data blocks and index blocks, in the
    /// order in which they were installed. The content of the blocks is left
    /// as it is.
    pub fn clear_size(&mut self, disk: &BlockDevice) -> (v: Vec<u32>)
        requires
            old(self).wf(disk@),
        ensures
            v@ == old(self).owned(disk@),
            final(self).size == 0,
            final(self).type_ == old(self).type_,
            final(self).indirect1 == 0,
            final(self).indirect2 == 0,
            final(self).indirect3 == 0,
            forall|k: int| 0 <= k < 27 ==> final(self).direct@[k] == 0,
            final(self).wf(disk@),
            final(self).owned(disk@) == Seq::<u32>::empty(),
    {
        let mut v: Vec<u32> = Vec::new();
        let data_blocks = self.data_blocks() as usize;
        let ghost nb = data_blocks as int;
        let ghost d = disk@;
        let ghost pre = *self;
        self.size = 0;
        let mut current_blocks: usize = 0;
        let direct_end = if data_blocks < INODE_DIRECT_COUNT {
            data_blocks
        } else {
            INODE_DIRECT_COUNT
        };
        // direct
        while current_blocks < direct_end
            invariant
                current_blocks <= direct_end <= 27,
                direct_end == min_int(nb, 27),
                self.size == 0,
                self.type_ == pre.type_,
                self.indirect1 == pre.indirect1,
                self.indirect2 == pre.indirect2,
                self.indirect3 == pre.indirect3,
                forall|k: int| current_blocks <= k < 27 ==> self.direct@[k] == pre.direct@[k],
                forall|k: int| 0 <= k < current_blocks ==> self.direct@[k] == 0,
                v@ == pre.direct@.subrange(0, current_blocks as int),
            decreases direct_end - current_blocks,
        {
            v.push(self.direct[current_blocks]);
            self.direct[current_blocks] = 0;
            current_blocks += 1;
            assert(v@ =~= pre.direct@.subrange(0, current_blocks as int));
        }
        assert(self.owned(d) =~= Seq::<u32>::empty());
        assert(pre.wf(d));
        assert(pre.unused_are_zero());
        assert forall|k: int| 0 <= k < 27 implies self.direct@[k] == 0 by {
            if k >= current_blocks {
                assert(self.direct@[k] == pre.direct@[k]);
                assert(pre.blocks() <= k);
            }
        }
        // single indirect tier
        if data_blocks <= INODE_DIRECT_COUNT {
            assert(v@ =~= pre.owned(d));
            return v;
        }
        proof {
            pre.lemma_tier_on_disk(d, 1);
        }
        v.push(self.indirect1);
        let leaves1 = if data_blocks - INODE_DIRECT_COUNT < INODE_INDIRECT1_COUNT {
            data_blocks - INODE_DIRECT_COUNT
        } else {
            INODE_INDIRECT1_COUNT
        };
        collect_tree_blocks(&mut v, self.indirect1, 0, leaves1, 0, 1, disk);
        self.indirect1 = 0;
        assert(v@ =~= pre.direct@.subrange(0, 27) + pre.tier_ids(d, 1));
        // double indirect tier
        if data_blocks <= INDIRECT1_BOUND {
            assert(v@ =~= pre.owned(d));
            return v;
        }
        proof {
            pre.lemma_tier_on_disk(d, 2);
        }
        v.push(self.indirect2);
        let leaves2 = if data_blocks - INDIRECT1_BOUND < INODE_INDIRECT2_COUNT {
            data_blocks - INDIRECT1_BOUND
        } else {
            INODE_INDIRECT2_COUNT
        };
        collect_tree_blocks(&mut v, self.indirect2, 0, leaves2, 0, 2, disk);
        self.indirect2 = 0;
        assert(v@ =~= pre.direct@.subrange(0, 27) + pre.tier_ids(d, 1) + pre.tier_ids(d, 2));
        // triple indirect tier
        if data_blocks <= INDIRECT2_BOUND {
            assert(v@ =~= pre.owned(d));
            return v;
        }
        proof {
            pre.lemma_tier_on_disk(d, 3);
        }
        v.push(self.indirect3);
        collect_tree_blocks(&mut v, self.indirect3, 0, data_blocks - INDIRECT2_BOUND, 0, 3, disk);
        self.indirect3 = 0;
        assert(v@ =~= pre.owned(d));
        v
    }
}

} // verus!
