//! Reading and writing the content of an inode.

use vstd::prelude::*;
use crate::device::{BlockDevice, BLOCK_SZ};
use crate::inode::{data_pos, tier_base, tier_count, tier_start, DiskInode};
use crate::tier::{lemma_seg_frame, seg};
use crate::tree::{
    is_index_pos, leaf_pos, lemma_leaf_1, lemma_leaf_2, lemma_leaf_3, min_int, node_at, tree_len,
};

verus! {

/// Number of bytes of a request of `len` bytes at `offset` that lie within a
/// content of `size` bytes.
pub open spec fn clipped_len(offset: int, len: int, size: int) -> int {
    if offset >= size {
        0
    } else {
        min_int(len, size - offset)
    }
}

impl DiskInode {
    /// Whether `blk` holds one of the data blocks of the inode.
    pub open spec fn is_data_block(&self, d: Seq<Seq<u8>>, blk: int) -> bool {
        exists|k: int| 0 <= k < self.blocks() && #[trigger] self.block_id_of(d, k) == blk
    }

    /// Position of leaf `k - tier_base(t)` of tier `t` among the blocks that
    /// the inode owns.
    pub proof fn lemma_data_pos(&self, k: int)
        requires
            0 <= k < self.blocks() <= 2113691,
        ensures
            k < 27 ==> data_pos(k) == k,
            27 <= k < 155 ==> data_pos(k) == tier_start(self.blocks(), 1) + 1 + leaf_pos(1, k - 27),
            155 <= k < 16539 ==> data_pos(k) == tier_start(self.blocks(), 2) + 1 + leaf_pos(
                2,
                k - 155,
            ),
            16539 <= k ==> data_pos(k) == tier_start(self.blocks(), 3) + 1 + leaf_pos(
                3,
                k - 16539,
            ),
    {
    }

    /// Two data blocks of an inode are held by different blocks.
    pub proof fn lemma_data_blocks_distinct(&self, d: Seq<Seq<u8>>, k1: int, k2: int)
        requires
            self.wf(d),
            0 <= k1 < k2 < self.blocks(),
        ensures
            self.block_id_of(d, k1) != self.block_id_of(d, k2),
    {
        self.lemma_path(d, k1);
        self.lemma_path(d, k2);
        assert(data_pos(k1) < data_pos(k2));
    }

    /// A block that holds data of the inode is neither the root of a tier nor
    /// an index block below it.
    pub proof fn lemma_data_not_index(&self, d: Seq<Seq<u8>>, k: int, t: nat, p: int)
        requires
            self.wf(d),
            0 <= k < self.blocks(),
            1 <= t <= 3,
            tier_count(self.blocks(), t) > 0,
            0 <= p < tree_len(t, tier_count(self.blocks(), t)),
            is_index_pos(t, p),
        ensures
            self.block_id_of(d, k) != self.root(t),
            self.block_id_of(d, k) != node_at(d, self.root(t), t, p),
    {
        let nb = self.blocks();
        let o = self.owned(d);
        self.lemma_path(d, k);
        self.lemma_owned_at(d);
        self.lemma_data_pos(k);
        assert(o[tier_start(nb, t)] == self.root(t));
        assert(o[tier_start(nb, t) + 1 + p] == node_at(d, self.root(t), t, p));
        if 27 <= k < 155 {
            lemma_leaf_1(d, self.root(1), k - 27, tier_count(nb, 1));
        } else if 155 <= k < 16539 {
            lemma_leaf_2(d, self.root(2), k - 155, tier_count(nb, 2));
        } else if 16539 <= k {
            lemma_leaf_3(d, self.root(3), k - 16539, tier_count(nb, 3));
        }
        assert(data_pos(k) != tier_start(nb, t));
        assert(data_pos(k) != tier_start(nb, t) + 1 + p);
    }

    /// The root of a tier in use is not a data block of the inode.
    pub proof fn lemma_root_not_data(&self, d: Seq<Seq<u8>>, k: int, t: nat)
        requires
            self.wf(d),
            0 <= k < self.blocks(),
            1 <= t <= 3,
            tier_count(self.blocks(), t) > 0,
        ensures
            self.block_id_of(d, k) != self.root(t),
    {
        let nb = self.blocks();
        let o = self.owned(d);
        self.lemma_path(d, k);
        self.lemma_owned_at(d);
        self.lemma_data_pos(k);
        assert(o[tier_start(nb, t)] == self.root(t));
        if 27 <= k < 155 {
            lemma_leaf_1(d, self.root(1), k - 27, tier_count(nb, 1));
        } else if 155 <= k < 16539 {
            lemma_leaf_2(d, self.root(2), k - 155, tier_count(nb, 2));
        } else if 16539 <= k {
            lemma_leaf_3(d, self.root(3), k - 16539, tier_count(nb, 3));
        }
        assert(data_pos(k) != tier_start(nb, t));
    }

    /// Writing into data blocks of an inode leaves its pointers as they are:
    /// on a disk that differs only in data blocks of the inode, the inode
    /// owns the same blocks, finds each data block in the same block, and is
    /// well formed.
    pub proof fn lemma_data_write_frame(&self, d: Seq<Seq<u8>>, d2: Seq<Seq<u8>>)
        requires
            self.wf(d),
            d2.len() == d.len(),
            forall|blk: int|
                0 <= blk < d.len() && #[trigger] d2[blk] != d[blk] ==> self.is_data_block(d, blk),
        ensures
            self.owned(d2) == self.owned(d),
            self.wf(d2),
            forall|k: int|
                0 <= k < self.blocks() ==> #[trigger] self.block_id_of(d2, k) == self.block_id_of(
                    d,
                    k,
                ),
    {
        let nb = self.blocks();
        assert forall|t: nat| 1 <= t <= 3 implies #[trigger] seg(
            d2,
            self.root(t),
            t,
            tier_count(nb, t),
        ) == seg(d, self.root(t), t, tier_count(nb, t)) && (forall|p: int|
            0 <= p < tree_len(t, tier_count(nb, t)) ==> #[trigger] node_at(d2, self.root(t), t, p)
                == node_at(d, self.root(t), t, p)) by {
            self.lemma_tier_frame(d, d2, t);
        }
        assert(self.tier_ids(d2, 1) == self.tier_ids(d, 1));
        assert(self.tier_ids(d2, 2) == self.tier_ids(d, 2));
        assert(self.tier_ids(d2, 3) == self.tier_ids(d, 3));
        assert forall|k: int| 0 <= k < nb implies #[trigger] self.block_id_of(d2, k)
            == self.block_id_of(d, k) by {
            if 27 <= k < 155 {
                lemma_leaf_1(d, self.root(1), k - 27, tier_count(nb, 1));
                lemma_leaf_1(d2, self.root(1), k - 27, tier_count(nb, 1));
                assert(node_at(d2, self.root(1), 1, leaf_pos(1, k - 27)) == node_at(
                    d,
                    self.root(1),
                    1,
                    leaf_pos(1, k - 27),
                ));
            } else if 155 <= k < 16539 {
                lemma_leaf_2(d, self.root(2), k - 155, tier_count(nb, 2));
                lemma_leaf_2(d2, self.root(2), k - 155, tier_count(nb, 2));
                assert(node_at(d2, self.root(2), 2, leaf_pos(2, k - 155)) == node_at(
                    d,
                    self.root(2),
                    2,
                    leaf_pos(2, k - 155),
                ));
            } else if 16539 <= k {
                lemma_leaf_3(d, self.root(3), k - 16539, tier_count(nb, 3));
                lemma_leaf_3(d2, self.root(3), k - 16539, tier_count(nb, 3));
                assert(node_at(d2, self.root(3), 3, leaf_pos(3, k - 16539)) == node_at(
                    d,
                    self.root(3),
                    3,
                    leaf_pos(3, k - 16539),
                ));
            }
        }
    }

    /// Tier `t` lists the same blocks on a disk that differs only in data
    /// blocks of the inode.
    pub proof fn lemma_tier_frame(&self, d: Seq<Seq<u8>>, d2: Seq<Seq<u8>>, t: nat)
        requires
            self.wf(d),
            d2.len() == d.len(),
            1 <= t <= 3,
            forall|blk: int|
                0 <= blk < d.len() && #[trigger] d2[blk] != d[blk] ==> self.is_data_block(d, blk),
        ensures
            seg(d2, self.root(t), t, tier_count(self.blocks(), t)) == seg(
                d,
                self.root(t),
                t,
                tier_count(self.blocks(), t),
            ),
            forall|p: int|
                0 <= p < tree_len(t, tier_count(self.blocks(), t)) ==> #[trigger] node_at(
                    d2,
                    self.root(t),
                    t,
                    p,
                ) == node_at(d, self.root(t), t, p),
    {
        let nb = self.blocks();
        let c = tier_count(nb, t);
        let r = self.root(t);
        if c > 0 {
            self.lemma_tier_on_disk(d, t);
            assert(d2[r as int] == d[r as int]) by {
                if d2[r as int] != d[r as int] {
                    let k = choose|k: int|
                        0 <= k < self.blocks() && #[trigger] self.block_id_of(d, k) == r as int;
                    self.lemma_root_not_data(d, k, t);
                }
            }
            assert forall|p: int| 0 <= p < tree_len(t, c) && is_index_pos(t, p) implies d2[(
            #[trigger] node_at(d, r, t, p)) as int] == d[node_at(d, r, t, p) as int] by {
                let x = node_at(d, r, t, p);
                if d2[x as int] != d[x as int] {
                    let k = choose|k: int|
                        0 <= k < self.blocks() && #[trigger] self.block_id_of(d, k) == x as int;
                    self.lemma_data_not_index(d, k, t, p);
                }
            }
        }
        lemma_seg_frame(d, d2, r, t, c);
    }

    /// Read data from the inode: the part of the content that lies within
    /// `buf.len()` bytes from `offset` on is copied to the front of `buf`.
    /// Returns the number of bytes copied, 0 where `offset` is at or past the
    /// size. The rest of `buf` stays as it was.
    pub fn read_at(&self, offset: usize, buf: &mut [u8], disk: &BlockDevice) -> (n: usize)
        requires
            self.wf(disk@),
        ensures
            n == clipped_len(offset as int, old(buf)@.len() as int, self.size as int),
            final(buf)@.len() == old(buf)@.len(),
            forall|i: int| 0 <= i < n ==> final(buf)@[i] == self.content(disk@)[offset + i],
            forall|i: int| n <= i < final(buf)@.len() ==> final(buf)@[i] == old(buf)@[i],
    {
        let size = self.size as usize;
        let len = buf.len();
        if offset >= size {
            return 0;
        }
        let end = if len < size - offset {
            offset + len
        } else {
            size
        };
        let mut start = offset;
        let mut read_size: usize = 0;
        while start < end
            invariant
                self.wf(disk@),
                size == self.size,
                len == old(buf)@.len(),
                buf@.len() == len,
                offset <= start <= end <= size,
                end - offset == clipped_len(offset as int, len as int, size as int),
                read_size == start - offset,
                forall|i: int| 0 <= i < read_size ==> buf@[i] == self.content(disk@)[offset + i],
                forall|i: int| read_size <= i < len ==> buf@[i] == old(buf)@[i],
            decreases end - start,
        {
            let start_block = start / BLOCK_SZ;
            let in_block = start % BLOCK_SZ;
            // how far the current block reaches
            let block_read_size = if end - start < BLOCK_SZ - in_block {
                end - start
            } else {
                BLOCK_SZ - in_block
            };
            let block_id = self.get_block_id(start_block as u32, disk);
            let ghost before = buf@;
            disk.read_bytes(block_id, in_block, buf, read_size, block_read_size);
            proof {
                assert forall|i: int| 0 <= i < read_size + block_read_size implies buf@[i]
                    == self.content(disk@)[offset + i] by {
                    if i >= read_size {
                        let j = offset + i;
                        assert(j / 512 == start_block as int);
                        assert(j % 512 == in_block + i - read_size);
                    } else {
                        assert(buf@[i] == before[i]);
                    }
                }
            }
            read_size += block_read_size;
            start += block_read_size;
        }
        read_size
    }

    /// What `write_at` leaves on the disk `d2`, begun on the disk `d`, once
    /// the bytes of `buf` up to position `upto` of the content are written.
    pub open spec fn written(
        &self,
        d: Seq<Seq<u8>>,
        d2: Seq<Seq<u8>>,
        offset: int,
        upto: int,
        buf: Seq<u8>,
    ) -> bool {
        &&& d2.len() == d.len()
        &&& forall|blk: int|
            0 <= blk < d.len() && #[trigger] d2[blk] != d[blk] ==> self.is_data_block(d, blk)
        &&& forall|j: int|
            0 <= j < self.size ==> #[trigger] d2[self.block_id_of(d, j / 512) as int][j % 512] == (
            if offset <= j < upto {
                buf[j - offset]
            } else {
                d[self.block_id_of(d, j / 512) as int][j % 512]
            })
    }

    /// Write data into the inode: the bytes of `buf` that fall within the
    /// size replace the content from `offset` on. The size is not changed:
    /// what would lie past it is not written. Returns the number of bytes
    /// written, 0 where `offset` is at or past the size. Only data blocks of
    /// the inode are written.
    pub fn write_at(&mut self, offset: usize, buf: &[u8], disk: &mut BlockDevice) -> (n: usize)
        requires
            old(self).wf(old(disk)@),
        ensures
            n == clipped_len(offset as int, buf@.len() as int, old(self).size as int),
            *final(self) == *old(self),
            final(disk)@.len() == old(disk)@.len(),
            final(self).wf(final(disk)@),
            final(self).owned(final(disk)@) == old(self).owned(old(disk)@),
            final(self).content(final(disk)@).len() == old(self).size,
            forall|j: int|
                0 <= j < old(self).size ==> final(self).content(final(disk)@)[j] == (if offset <= j
                    < offset + n {
                    buf@[j - offset]
                } else {
                    old(self).content(old(disk)@)[j]
                }),
            forall|blk: int|
                0 <= blk < old(disk)@.len() && #[trigger] final(disk)@[blk] != old(disk)@[blk]
                    ==> old(self).is_data_block(old(disk)@, blk),
            n == 0 ==> final(disk)@ == old(disk)@,
    {
        let size = self.size as usize;
        let len = buf.len();
        if offset >= size {
            return 0;
        }
        let end = if len < size - offset {
            offset + len
        } else {
            size
        };
        let ghost d0 = disk@;
        let mut start = offset;
        let mut write_size: usize = 0;
        while start < end
            invariant
                *self == *old(self),
                self.wf(d0),
                d0 == old(disk)@,
                size == self.size,
                len == buf@.len(),
                offset <= start <= end <= size,
                end - offset == clipped_len(offset as int, len as int, size as int),
                write_size == start - offset,
                self.written(d0, disk@, offset as int, start as int, buf@),
                write_size == 0 ==> disk@ == d0,
            decreases end - start,
        {
            let start_block = start / BLOCK_SZ;
            let in_block = start % BLOCK_SZ;
            // how far the current block reaches
            let block_write_size = if end - start < BLOCK_SZ - in_block {
                end - start
            } else {
                BLOCK_SZ - in_block
            };
            let ghost d1 = disk@;
            proof {
                self.lemma_data_write_frame(d0, d1);
            }
            let block_id = self.get_block_id(start_block as u32, disk);
            disk.write_bytes(block_id, in_block, buf, write_size, block_write_size);
            proof {
                self.lemma_chunk_written(
                    d0,
                    d1,
                    disk@,
                    offset as int,
                    start as int,
                    block_write_size as int,
                    buf@,
                );
            }
            write_size += block_write_size;
            start += block_write_size;
        }
        proof {
            self.lemma_data_write_frame(d0, disk@);
        }
        write_size
    }

    /// The state of `write_at` after one more block was written.
    pub proof fn lemma_chunk_written(
        &self,
        d0: Seq<Seq<u8>>,
        d1: Seq<Seq<u8>>,
        d2: Seq<Seq<u8>>,
        offset: int,
        start: int,
        n: int,
        buf: Seq<u8>,
    )
        requires
            self.wf(d0),
            0 <= offset <= start,
            0 < n,
            start + n <= self.size,
            start % 512 + n <= 512,
            start - offset + n <= buf.len(),
            self.written(d0, d1, offset, start, buf),
            d2.len() == d1.len(),
            forall|b: int|
                0 <= b < d2.len() && b != self.block_id_of(d0, start / 512) ==> d2[b] == d1[b],
            forall|i: int|
                0 <= i < 512 ==> #[trigger] d2[self.block_id_of(d0, start / 512) as int][i] == (if start
                    % 512 <= i < start % 512 + n {
                    buf[start - offset + i - start % 512]
                } else {
                    d1[self.block_id_of(d0, start / 512) as int][i]
                }),
        ensures
            self.written(d0, d2, offset, start + n, buf),
    {
        let kb = start / 512;
        let x = self.block_id_of(d0, kb);
        self.lemma_path(d0, kb);
        assert forall|blk: int| 0 <= blk < d0.len() && #[trigger] d2[blk] != d0[blk] implies
            self.is_data_block(d0, blk) by {
            if blk == x {
                assert(self.block_id_of(d0, kb) == blk);
            } else {
                assert(d2[blk] == d1[blk]);
            }
        }
        assert forall|j: int| 0 <= j < self.size implies #[trigger] d2[self.block_id_of(
            d0,
            j / 512,
        ) as int][j % 512] == (if offset <= j < start + n {
            buf[j - offset]
        } else {
            d0[self.block_id_of(d0, j / 512) as int][j % 512]
        }) by {
            let k = j / 512;
            let y = self.block_id_of(d0, k);
            self.lemma_path(d0, k);
            assert(d1[y as int][j % 512] == (if offset <= j < start {
                buf[j - offset]
            } else {
                d0[y as int][j % 512]
            }));
            if k != kb {
                if k < kb {
                    self.lemma_data_blocks_distinct(d0, k, kb);
                } else {
                    self.lemma_data_blocks_distinct(d0, kb, k);
                }
                assert(d2[y as int] == d1[y as int]);
            }
        }
    }
}

} // verus!
