//! Growth of an inode: the blocks that the allocator hands over are installed
//! tier by tier, in the order in which they are given.

use vstd::prelude::*;
use crate::device::BlockDevice;
use crate::inode::{
    data_blocks_of, data_pos, lemma_total_blocks_monotone, tier_base, tier_count, total_blocks_of,
    DiskInode, INDIRECT1_BOUND, INDIRECT2_BOUND, INODE_DIRECT_COUNT, MAX_DATA_BLOCKS,
};
use crate::tier::{distinct_on_disk, grow_tier, lemma_seg_frame, seg, tier_growth};
use crate::tree::{
    cap, is_index_block_of, is_index_pos, leaves_under, lemma_tree_len_monotone, min_int, node_at,
    tree_len,
};

verus! {

/// Number of blocks taken when an inode grows from `nb0` to `nb1` data
/// blocks, once the direct pointers and the tiers up to `k` are filled.
pub open spec fn consumed(nb0: int, nb1: int, k: nat) -> int {
    min_int(nb1, 27) - min_int(nb0, 27) + (if k >= 1 {
        tier_growth(1, tier_count(nb0, 1), tier_count(nb1, 1))
    } else {
        0
    }) + (if k >= 2 {
        tier_growth(2, tier_count(nb0, 2), tier_count(nb1, 2))
    } else {
        0
    }) + (if k >= 3 {
        tier_growth(3, tier_count(nb0, 3), tier_count(nb1, 3))
    } else {
        0
    })
}

/// Number of data blocks in tier `t` while an inode grows from `nb0` to `nb1`
/// data blocks and the tiers up to `k` are filled.
pub open spec fn count_at(nb0: int, nb1: int, k: nat, t: nat) -> int {
    if t <= k {
        tier_count(nb1, t)
    } else {
        tier_count(nb0, t)
    }
}

/// A prefix of a sequence without duplicates on the disk is one too.
pub proof fn lemma_prefix_distinct(s: Seq<u32>, n: int, d: Seq<Seq<u8>>)
    requires
        distinct_on_disk(s, d),
        0 <= n <= s.len(),
    ensures
        distinct_on_disk(s.subrange(0, n), d),
{
    let t = s.subrange(0, n);
    assert forall|i: int, j: int| 0 <= i < t.len() && 0 <= j < t.len() && i != j implies t[i]
        != t[j] by {
        assert(s[i] != s[j]);
    }
    assert forall|k: int| 0 <= k < t.len() implies (#[trigger] t[k]) < d.len() by {
        assert(s[k] < d.len());
    }
}

/// A tier lists the same blocks on two disks that agree on every block of a
/// sequence in which the tier's blocks stand.
pub proof fn lemma_seg_unchanged(
    d: Seq<Seq<u8>>,
    d2: Seq<Seq<u8>>,
    root: u32,
    t: nat,
    n: int,
    s: Seq<u32>,
    off: int,
)
    requires
        1 <= t <= 3,
        0 <= n <= cap(t),
        0 <= off,
        off + seg(d, root, t, n).len() <= s.len(),
        forall|i: int| 0 <= i < seg(d, root, t, n).len() ==> s[off + i] == seg(d, root, t, n)[i],
        forall|k: int| 0 <= k < s.len() ==> d2[(#[trigger] s[k]) as int] == d[s[k] as int],
    ensures
        seg(d2, root, t, n) == seg(d, root, t, n),
        forall|p: int|
            0 <= p < tree_len(t, n) ==> #[trigger] node_at(d2, root, t, p) == node_at(
                d,
                root,
                t,
                p,
            ),
{
    if n > 0 {
        lemma_tree_len_monotone(t, 0, n);
        assert(s[off + 0] == seg(d, root, t, n)[0]);
        assert(s[off] == root);
        assert forall|p: int| 0 <= p < tree_len(t, n) && is_index_pos(t, p) implies d2[(
        #[trigger] node_at(d, root, t, p)) as int] == d[node_at(d, root, t, p) as int] by {
            assert(s[off + (1 + p)] == seg(d, root, t, n)[1 + p]);
            assert(seg(d, root, t, n)[1 + p] == node_at(d, root, t, p));
        }
    }
    lemma_seg_frame(d, d2, root, t, n);
}

impl DiskInode {
    /// The blocks that the inode owns while it grows from `nb0` to `nb1` data
    /// blocks, once the direct pointers and the tiers up to `k` are filled.
    pub open spec fn hybrid(&self, d: Seq<Seq<u8>>, nb0: int, nb1: int, k: nat) -> Seq<u32> {
        self.direct@.subrange(0, min_int(nb1, 27)) + seg(
            d,
            self.root(1),
            1,
            count_at(nb0, nb1, k, 1),
        ) + seg(d, self.root(2), 2, count_at(nb0, nb1, k, 2)) + seg(
            d,
            self.root(3),
            3,
            count_at(nb0, nb1, k, 3),
        )
    }

    /// Whether `blk` is an index block of one of the tiers up to `k` of an
    /// inode with `nb` data blocks.
    pub open spec fn index_block_upto(&self, d: Seq<Seq<u8>>, nb: int, k: nat, blk: int) -> bool {
        exists|t: nat|
            1 <= t <= k && tier_count(nb, t) > 0 && #[trigger] is_index_block_of(
                d,
                self.root(t),
                t,
                tier_count(nb, t),
                blk,
            )
    }

    /// The inode as it was, but for the root of tier `t`.
    pub open spec fn same_but_root(&self, other: &DiskInode, t: nat) -> bool {
        &&& self.size == other.size
        &&& self.type_ == other.type_
        &&& self.direct == other.direct
        &&& t != 1 ==> self.indirect1 == other.indirect1
        &&& t != 2 ==> self.indirect2 == other.indirect2
        &&& t != 3 ==> self.indirect3 == other.indirect3
    }

    /// The blocks of the direct pointers and of the tiers below `t`, which
    /// are filled, while the inode grows.
    pub open spec fn before_of(&self, d: Seq<Seq<u8>>, nb1: int, t: nat) -> Seq<u32> {
        let direct_part = self.direct@.subrange(0, min_int(nb1, 27));
        if t <= 1 {
            direct_part
        } else if t == 2 {
            direct_part + seg(d, self.root(1), 1, tier_count(nb1, 1))
        } else {
            direct_part + seg(d, self.root(1), 1, tier_count(nb1, 1)) + seg(
                d,
                self.root(2),
                2,
                tier_count(nb1, 2),
            )
        }
    }

    /// The blocks of the tiers above `t`, which are as they were, while the
    /// inode grows.
    pub open spec fn after_of(&self, d: Seq<Seq<u8>>, nb0: int, t: nat) -> Seq<u32> {
        if t <= 1 {
            seg(d, self.root(2), 2, tier_count(nb0, 2)) + seg(
                d,
                self.root(3),
                3,
                tier_count(nb0, 3),
            )
        } else if t == 2 {
            seg(d, self.root(3), 3, tier_count(nb0, 3))
        } else {
            Seq::empty()
        }
    }

    /// Before tier `t` is filled: no block occurs twice among what the inode
    /// owns and the blocks that the tier will take.
    pub proof fn lemma_stage_pre(
        &self,
        d: Seq<Seq<u8>>,
        nb0: int,
        nb1: int,
        t: nat,
        all: Seq<u32>,
        blocks: Seq<u32>,
        next: int,
    )
        requires
            1 <= t <= 3,
            0 <= nb0 <= nb1 <= MAX_DATA_BLOCKS,
            nb1 > tier_base(t),
            all.len() >= blocks.len(),
            blocks == all.subrange(all.len() - blocks.len(), all.len() as int),
            distinct_on_disk(all, d),
            0 <= next,
            next + tier_growth(t, tier_count(nb0, t), tier_count(nb1, t)) <= blocks.len(),
            self.hybrid(d, nb0, nb1, (t - 1) as nat) == all.subrange(
                0,
                all.len() - blocks.len() + next,
            ),
        ensures
            distinct_on_disk(
                self.before_of(d, nb1, t) + seg(d, self.root(t), t, tier_count(nb0, t))
                    + self.after_of(d, nb0, t) + blocks.subrange(
                    next,
                    next + tier_growth(t, tier_count(nb0, t), tier_count(nb1, t)),
                ),
                d,
            ),
    {
        let g = tier_growth(t, tier_count(nb0, t), tier_count(nb1, t));
        let o0 = all.len() - blocks.len();
        let newids = blocks.subrange(next, next + g);
        lemma_tree_len_monotone(t, tier_count(nb0, t), tier_count(nb1, t));
        assert(self.hybrid(d, nb0, nb1, (t - 1) as nat) =~= self.before_of(d, nb1, t) + seg(
            d,
            self.root(t),
            t,
            tier_count(nb0, t),
        ) + self.after_of(d, nb0, t));
        assert(all.subrange(0, o0 + next) + newids =~= all.subrange(0, o0 + next + g));
        lemma_prefix_distinct(all, o0 + next + g, d);
    }

    /// After tier `t` was filled: the tiers below and above it list the
    /// blocks that they listed before.
    pub proof fn lemma_stage_others(
        &self,
        post: &DiskInode,
        d: Seq<Seq<u8>>,
        d2: Seq<Seq<u8>>,
        nb0: int,
        nb1: int,
        t: nat,
    )
        requires
            1 <= t <= 3,
            0 <= nb0 <= nb1 <= MAX_DATA_BLOCKS,
            post.same_but_root(self, t),
            forall|k: int|
                0 <= k < self.before_of(d, nb1, t).len() ==> d2[(#[trigger] self.before_of(
                    d,
                    nb1,
                    t,
                )[k]) as int] == d[self.before_of(d, nb1, t)[k] as int],
            forall|k: int|
                0 <= k < self.after_of(d, nb0, t).len() ==> d2[(#[trigger] self.after_of(
                    d,
                    nb0,
                    t,
                )[k]) as int] == d[self.after_of(d, nb0, t)[k] as int],
        ensures
            post.before_of(d2, nb1, t) == self.before_of(d, nb1, t),
            post.after_of(d2, nb0, t) == self.after_of(d, nb0, t),
            forall|t1: nat, p: int|
                1 <= t1 < t && 0 <= p < tree_len(t1, tier_count(nb1, t1)) ==> #[trigger] node_at(
                    d2,
                    self.root(t1),
                    t1,
                    p,
                ) == node_at(d, self.root(t1), t1, p),
    {
        let direct_part = self.direct@.subrange(0, min_int(nb1, 27));
        let b = self.before_of(d, nb1, t);
        let a = self.after_of(d, nb0, t);
        let s1 = seg(d, self.root(1), 1, tier_count(nb1, 1));
        if t == 1 {
            let s2 = seg(d, self.root(2), 2, tier_count(nb0, 2));
            lemma_seg_unchanged(d, d2, self.root(2), 2, tier_count(nb0, 2), a, 0);
            lemma_seg_unchanged(d, d2, self.root(3), 3, tier_count(nb0, 3), a, s2.len() as int);
        } else if t == 2 {
            lemma_seg_unchanged(
                d,
                d2,
                self.root(1),
                1,
                tier_count(nb1, 1),
                b,
                direct_part.len() as int,
            );
            lemma_seg_unchanged(d, d2, self.root(3), 3, tier_count(nb0, 3), a, 0);
        } else {
            lemma_seg_unchanged(
                d,
                d2,
                self.root(1),
                1,
                tier_count(nb1, 1),
                b,
                direct_part.len() as int,
            );
            lemma_seg_unchanged(
                d,
                d2,
                self.root(2),
                2,
                tier_count(nb1, 2),
                b,
                (direct_part.len() + s1.len()) as int,
            );
        }
    }

    /// After tier `t` was filled: what the inode owns is what it owned,
    /// followed by the blocks taken so far.
    #[verifier::rlimit(60)]
    pub proof fn lemma_stage_post(
        &self,
        post: &DiskInode,
        d: Seq<Seq<u8>>,
        d2: Seq<Seq<u8>>,
        nb0: int,
        nb1: int,
        t: nat,
        all: Seq<u32>,
        blocks: Seq<u32>,
        next: int,
    )
        requires
            1 <= t <= 3,
            0 <= nb0 <= nb1 <= MAX_DATA_BLOCKS,
            nb1 > tier_base(t),
            all.len() >= blocks.len(),
            blocks == all.subrange(all.len() - blocks.len(), all.len() as int),
            0 <= next,
            next + tier_growth(t, tier_count(nb0, t), tier_count(nb1, t)) <= blocks.len(),
            self.hybrid(d, nb0, nb1, (t - 1) as nat) == all.subrange(
                0,
                all.len() - blocks.len() + next,
            ),
            post.same_but_root(self, t),
            post.before_of(d2, nb1, t) == self.before_of(d, nb1, t),
            post.after_of(d2, nb0, t) == self.after_of(d, nb0, t),
            seg(d2, post.root(t), t, tier_count(nb1, t)) == seg(
                d,
                self.root(t),
                t,
                tier_count(nb0, t),
            ) + blocks.subrange(
                next,
                next + tier_growth(t, tier_count(nb0, t), tier_count(nb1, t)),
            ),
        ensures
            post.hybrid(d2, nb0, nb1, t) == all.subrange(
                0,
                all.len() - blocks.len() + next + tier_growth(
                    t,
                    tier_count(nb0, t),
                    tier_count(nb1, t),
                ),
            ),
    {
        let g = tier_growth(t, tier_count(nb0, t), tier_count(nb1, t));
        let o0 = all.len() - blocks.len();
        let newids = blocks.subrange(next, next + g);
        let b = self.before_of(d, nb1, t);
        let a = self.after_of(d, nb0, t);
        let s_old = seg(d, self.root(t), t, tier_count(nb0, t));
        lemma_tree_len_monotone(t, tier_count(nb0, t), tier_count(nb1, t));
        assert(self.hybrid(d, nb0, nb1, (t - 1) as nat) =~= b + s_old + a);
        assert(post.hybrid(d2, nb0, nb1, t) =~= b + (s_old + newids) + a);
        if g > 0 {
            assert(a =~= Seq::<u32>::empty());
        } else {
            assert(newids =~= Seq::<u32>::empty());
        }
        assert(b + (s_old + newids) + a =~= (b + s_old + a) + newids);
        assert(all.subrange(0, o0 + next) + newids =~= all.subrange(0, o0 + next + g));
    }

    /// After tier `t` was filled: whatever block has changed since the inode
    /// began to grow is an index block of a tier up to `t`.
    pub proof fn lemma_stage_frame(
        &self,
        post: &DiskInode,
        d0: Seq<Seq<u8>>,
        d: Seq<Seq<u8>>,
        d2: Seq<Seq<u8>>,
        nb1: int,
        t: nat,
    )
        requires
            1 <= t <= 3,
            nb1 > tier_base(t),
            post.same_but_root(self, t),
            d.len() == d0.len(),
            d2.len() == d0.len(),
            forall|blk: int|
                0 <= blk < d0.len() && #[trigger] d[blk] != d0[blk] ==> self.index_block_upto(
                    d,
                    nb1,
                    (t - 1) as nat,
                    blk,
                ),
            forall|blk: int|
                0 <= blk < d2.len() && #[trigger] d2[blk] != d[blk] ==> is_index_block_of(
                    d2,
                    post.root(t),
                    t,
                    tier_count(nb1, t),
                    blk,
                ),
            forall|t1: nat, p: int|
                1 <= t1 < t && 0 <= p < tree_len(t1, tier_count(nb1, t1)) ==> #[trigger] node_at(
                    d2,
                    self.root(t1),
                    t1,
                    p,
                ) == node_at(d, self.root(t1), t1, p),
        ensures
            forall|blk: int|
                0 <= blk < d0.len() && #[trigger] d2[blk] != d0[blk] ==> post.index_block_upto(
                    d2,
                    nb1,
                    t,
                    blk,
                ),
    {
        assert forall|blk: int| 0 <= blk < d0.len() && #[trigger] d2[blk] != d0[blk] implies
            post.index_block_upto(d2, nb1, t, blk) by {
            if d2[blk] != d[blk] {
                assert(is_index_block_of(d2, post.root(t), t, tier_count(nb1, t), blk));
            } else {
                assert(self.index_block_upto(d, nb1, (t - 1) as nat, blk));
                let t1 = choose|t1: nat|
                    1 <= t1 <= (t - 1) as nat && tier_count(nb1, t1) > 0
                        && #[trigger] is_index_block_of(
                        d,
                        self.root(t1),
                        t1,
                        tier_count(nb1, t1),
                        blk,
                    );
                assert(post.root(t1) == self.root(t1));
                if blk != self.root(t1) {
                    let q = choose|q: int|
                        0 <= q < tree_len(t1, tier_count(nb1, t1)) && is_index_pos(t1, q)
                            && #[trigger] node_at(d, self.root(t1), t1, q) == blk;
                    assert(node_at(d2, self.root(t1), t1, q) == node_at(d, self.root(t1), t1, q));
                }
                assert(is_index_block_of(d2, post.root(t1), t1, tier_count(nb1, t1), blk));
            }
        }
    }

    /// Fills tier `t` of an inode that grows from `old_blocks` to
    /// `new_blocks` data blocks, with blocks taken from `blocks` from index
    /// `next` on. The tiers below `t` are filled already, those above it are
    /// as they were. `all` is what the inode owned before it began to grow,
    /// followed by `blocks`; `d0` is the disk as it then was.
    #[verifier::rlimit(60)]
    fn grow_stage(
        &mut self,
        disk: &mut BlockDevice,
        blocks: &Vec<u32>,
        next: usize,
        t: usize,
        old_blocks: usize,
        new_blocks: usize,
        Ghost(all): Ghost<Seq<u32>>,
        Ghost(d0): Ghost<Seq<Seq<u8>>>,
    ) -> (nxt: usize)
        requires
            1 <= t <= 3,
            old_blocks <= new_blocks <= MAX_DATA_BLOCKS,
            new_blocks > tier_base(t as nat),
            all.len() >= blocks@.len(),
            blocks@ == all.subrange(all.len() - blocks@.len(), all.len() as int),
            distinct_on_disk(all, old(disk)@),
            next == consumed(old_blocks as int, new_blocks as int, (t - 1) as nat),
            next + tier_growth(
                t as nat,
                tier_count(old_blocks as int, t as nat),
                tier_count(new_blocks as int, t as nat),
            ) <= blocks@.len(),
            old(self).hybrid(old(disk)@, old_blocks as int, new_blocks as int, (t - 1) as nat)
                == all.subrange(0, all.len() - blocks@.len() + next),
            old(disk)@.len() == d0.len(),
            forall|blk: int|
                0 <= blk < d0.len() && #[trigger] old(disk)@[blk] != d0[blk] ==> old(self).index_block_upto(old(disk)@, new_blocks as int, (t - 1) as nat, blk),
        ensures
            nxt == consumed(old_blocks as int, new_blocks as int, t as nat),
            final(self).same_but_root(old(self), t as nat),
            final(self).hybrid(final(disk)@, old_blocks as int, new_blocks as int, t as nat)
                == all.subrange(0, all.len() - blocks@.len() + nxt),
            final(disk)@.len() == d0.len(),
            forall|blk: int|
                0 <= blk < d0.len() && #[trigger] final(disk)@[blk] != d0[blk] ==> final(self).index_block_upto(final(disk)@, new_blocks as int, t as nat, blk),
    {
        let ghost nb0 = old_blocks as int;
        let ghost nb1 = new_blocks as int;
        let ghost tt = t as nat;
        let ghost d = disk@;
        let ghost pre = *self;
        let base: usize = if t == 1 {
            INODE_DIRECT_COUNT
        } else if t == 2 {
            INDIRECT1_BOUND
        } else {
            INDIRECT2_BOUND
        };
        let capacity = leaves_under(t);
        let src: usize = if old_blocks <= base {
            0
        } else if old_blocks - base < capacity {
            old_blocks - base
        } else {
            capacity
        };
        let dst: usize = if new_blocks - base < capacity {
            new_blocks - base
        } else {
            capacity
        };
        let root = if t == 1 {
            self.indirect1
        } else if t == 2 {
            self.indirect2
        } else {
            self.indirect3
        };
        assert(src == tier_count(nb0, tt) && dst == tier_count(nb1, tt));
        assert(root == pre.root(tt));
        proof {
            pre.lemma_stage_pre(d, nb0, nb1, tt, all, blocks@, next as int);
        }
        let r = grow_tier(
            disk,
            blocks,
            next,
            root,
            t,
            src,
            dst,
            Ghost(pre.before_of(d, nb1, tt)),
            Ghost(pre.after_of(d, nb0, tt)),
        );
        if t == 1 {
            self.indirect1 = r.0;
        } else if t == 2 {
            self.indirect2 = r.0;
        } else {
            self.indirect3 = r.0;
        }
        proof {
            assert(self.root(tt) == r.0);
            pre.lemma_stage_others(&*self, d, disk@, nb0, nb1, tt);
            pre.lemma_stage_post(&*self, d, disk@, nb0, nb1, tt, all, blocks@, next as int);
            pre.lemma_stage_frame(&*self, d0, d, disk@, nb1, tt);
        }
        r.1
    }

    /// Fills the direct pointers of an inode that grows from `old_blocks` to
    /// `total_blocks` data blocks with the first blocks of `new_blocks`.
    /// Returns how many blocks were taken.
    fn fill_direct(
        &mut self,
        new_blocks: &Vec<u32>,
        old_blocks: usize,
        total_blocks: usize,
    ) -> (next: usize)
        requires
            old_blocks <= total_blocks,
            min_int(total_blocks as int, 27) - min_int(old_blocks as int, 27) <= new_blocks@.len(),
        ensures
            next == min_int(total_blocks as int, 27) - min_int(old_blocks as int, 27),
            final(self).size == old(self).size,
            final(self).type_ == old(self).type_,
            final(self).indirect1 == old(self).indirect1,
            final(self).indirect2 == old(self).indirect2,
            final(self).indirect3 == old(self).indirect3,
            forall|k: int|
                0 <= k < 27 ==> final(self).direct@[k] == (if old_blocks <= k < total_blocks {
                    new_blocks@[k - old_blocks]
                } else {
                    old(self).direct@[k]
                }),
    {
        let direct_end = if total_blocks < INODE_DIRECT_COUNT {
            total_blocks
        } else {
            INODE_DIRECT_COUNT
        };
        let mut current_blocks = old_blocks;
        let mut next: usize = 0;
        while current_blocks < direct_end
            invariant
                direct_end == min_int(total_blocks as int, 27),
                old_blocks <= current_blocks,
                current_blocks <= direct_end || current_blocks == old_blocks,
                next == current_blocks - old_blocks,
                direct_end - min_int(old_blocks as int, 27) <= new_blocks@.len(),
                self.size == old(self).size,
                self.type_ == old(self).type_,
                self.indirect1 == old(self).indirect1,
                self.indirect2 == old(self).indirect2,
                self.indirect3 == old(self).indirect3,
                forall|k: int|
                    0 <= k < 27 ==> self.direct@[k] == (if old_blocks <= k < current_blocks {
                        new_blocks@[k - old_blocks]
                    } else {
                        old(self).direct@[k]
                    }),
            decreases direct_end - current_blocks,
        {
            self.direct[current_blocks] = new_blocks[next];
            current_blocks += 1;
            next += 1;
        }
        next
    }

    /// After the direct pointers were filled: what the inode owns is what it
    /// owned, followed by the blocks taken.
    pub proof fn lemma_direct_filled(
        &self,
        post: &DiskInode,
        d: Seq<Seq<u8>>,
        nb1: int,
        ids: Seq<u32>,
    )
        requires
            0 <= self.blocks() <= nb1,
            post.same_but_direct(self),
            min_int(nb1, 27) - min_int(self.blocks(), 27) <= ids.len(),
            forall|k: int|
                0 <= k < 27 ==> post.direct@[k] == (if self.blocks() <= k < nb1 {
                    ids[k - self.blocks()]
                } else {
                    self.direct@[k]
                }),
        ensures
            post.hybrid(d, self.blocks(), nb1, 0) == (self.owned(d) + ids).subrange(
                0,
                self.owned(d).len() + min_int(nb1, 27) - min_int(self.blocks(), 27),
            ),
    {
        let nb0 = self.blocks();
        let next = min_int(nb1, 27) - min_int(nb0, 27);
        let all = self.owned(d) + ids;
        if next > 0 {
            assert(self.owned(d) =~= self.direct@.subrange(0, nb0));
        }
        assert(post.hybrid(d, nb0, nb1, 0) =~= all.subrange(0, self.owned(d).len() + next));
    }

    /// The inode as it was, but for its direct pointers.
    pub open spec fn same_but_direct(&self, other: &DiskInode) -> bool {
        &&& self.type_ == other.type_
        &&& self.indirect1 == other.indirect1
        &&& self.indirect2 == other.indirect2
        &&& self.indirect3 == other.indirect3
    }

    /// After the last tier that the new size reaches was filled: the inode
    /// owns what it owned, followed by the new blocks, and is well formed.
    pub proof fn lemma_grown(
        &self,
        post: &DiskInode,
        d0: Seq<Seq<u8>>,
        d2: Seq<Seq<u8>>,
        ids: Seq<u32>,
        k: nat,
    )
        requires
            self.wf(d0),
            self.size <= post.size,
            post.blocks() <= MAX_DATA_BLOCKS,
            post.type_ == self.type_,
            k <= 3,
            k >= 1 ==> post.blocks() > tier_base(k),
            k < 3 ==> post.blocks() <= tier_base(k + 1),
            ids.len() == total_blocks_of(post.size) - total_blocks_of(self.size),
            distinct_on_disk(self.owned(d0) + ids, d0),
            d2.len() == d0.len(),
            forall|j: int| post.blocks() <= j < 27 ==> post.direct@[j] == self.direct@[j],
            forall|t: nat| k < t <= 3 ==> post.root(t) == self.root(t),
            post.hybrid(d2, self.blocks(), post.blocks(), k) == (self.owned(d0) + ids).subrange(
                0,
                self.owned(d0).len() + consumed(self.blocks(), post.blocks(), k),
            ),
        ensures
            post.owned(d2) == self.owned(d0) + ids,
            post.wf(d2),
    {
        let nb0 = self.blocks();
        let nb1 = post.blocks();
        let all = self.owned(d0) + ids;
        lemma_consumed_total(self.size, post.size);
        self.lemma_owned_at(d0);
        assert(consumed(nb0, nb1, k) == ids.len());
        assert(post.hybrid(d2, nb0, nb1, k) =~= post.owned(d2));
        assert(all.subrange(0, (self.owned(d0).len() + ids.len()) as int) =~= all);
        assert(post.root(1) == post.indirect1 && post.root(2) == post.indirect2 && post.root(3)
            == post.indirect3);
        assert(self.root(1) == self.indirect1 && self.root(2) == self.indirect2 && self.root(3)
            == self.indirect3);
        assert(post.unused_are_zero());
    }

    /// Increase the size of the inode to `new_size` bytes. `new_blocks` holds
    /// the blocks that the inode needs for it, as many as `blocks_num_needed`
    /// tells, and they are installed in the order in which they stand there:
    /// the direct blocks; then for each tier that is reached its root, where
    /// the tier was unused, and below it each new child followed by what is
    /// below that child. A tier that the new size does not reach is left as
    /// it is. Only index blocks of the inode are written.
    #[verifier::rlimit(60)]
    pub fn increase_size(&mut self, new_size: u32, new_blocks: Vec<u32>, disk: &mut BlockDevice)
        requires
            old(self).wf(old(disk)@),
            new_size >= old(self).size,
            data_blocks_of(new_size) <= MAX_DATA_BLOCKS,
            new_blocks@.len() == total_blocks_of(new_size) - total_blocks_of(old(self).size),
            distinct_on_disk(old(self).owned(old(disk)@) + new_blocks@, old(disk)@),
        ensures
            final(self).size == new_size,
            final(self).type_ == old(self).type_,
            final(disk)@.len() == old(disk)@.len(),
            final(self).owned(final(disk)@) == old(self).owned(old(disk)@) + new_blocks@,
            final(self).wf(final(disk)@),
            forall|blk: int|
                0 <= blk < final(disk)@.len() && #[trigger] final(disk)@[blk] != old(disk)@[blk]
                    ==> final(self).is_index_block(final(disk)@, blk),
            forall|j: int|
                0 <= j < old(self).size ==> #[trigger] final(self).content(final(disk)@)[j] == old(self).content(old(disk)@)[j],
            old(self).grown(old(disk)@, final(self), final(disk)@, new_blocks@),
    {
        let ghost pre = *self;
        let ghost d0 = disk@;
        let ghost all = self.owned(d0) + new_blocks@;
        let old_blocks = self.data_blocks() as usize;
        self.size = new_size;
        let total_blocks = self.data_blocks() as usize;
        let ghost nb0 = old_blocks as int;
        let ghost nb1 = total_blocks as int;
        proof {
            lemma_consumed_total(pre.size, new_size);
            assert(new_blocks@ =~= all.subrange(all.len() - new_blocks@.len(), all.len() as int));
        }
        // fill direct
        let mut next = self.fill_direct(&new_blocks, old_blocks, total_blocks);
        let ghost mid = *self;
        proof {
            pre.lemma_direct_filled(&mid, d0, nb1, new_blocks@);
        }
        let mut k: usize = 0;
        if total_blocks > INODE_DIRECT_COUNT {
            // single indirect tier
            next = self.grow_stage(
                disk,
                &new_blocks,
                next,
                1,
                old_blocks,
                total_blocks,
                Ghost(all),
                Ghost(d0),
            );
            k = 1;
            if total_blocks > INDIRECT1_BOUND {
                // double indirect tier
                next = self.grow_stage(
                    disk,
                    &new_blocks,
                    next,
                    2,
                    old_blocks,
                    total_blocks,
                    Ghost(all),
                    Ghost(d0),
                );
                k = 2;
                if total_blocks > INDIRECT2_BOUND {
                    // triple indirect tier
                    next = self.grow_stage(
                        disk,
                        &new_blocks,
                        next,
                        3,
                        old_blocks,
                        total_blocks,
                        Ghost(all),
                        Ghost(d0),
                    );
                    k = 3;
                }
            }
        }
        proof {
            pre.lemma_grown(&*self, d0, disk@, new_blocks@, k as nat);
            assert forall|blk: int|
                0 <= blk < disk@.len() && #[trigger] disk@[blk] != d0[blk] implies self.is_index_block(
                disk@,
                blk,
            ) by {
                if k >= 1 {
                    assert(self.index_block_upto(disk@, nb1, k as nat, blk));
                }
            }
            pre.lemma_growth_keeps_content(d0, &*self, disk@, new_blocks@);
        }
    }

    /// Whether the inode `post` on the disk `d2` is this inode on the disk
    /// `d` after it has grown with the blocks `ids`: both are well formed,
    /// `post` owns what this inode owned, followed by `ids`, and only index
    /// blocks of `post` differ between the disks.
    pub open spec fn grown(
        &self,
        d: Seq<Seq<u8>>,
        post: &DiskInode,
        d2: Seq<Seq<u8>>,
        ids: Seq<u32>,
    ) -> bool {
        &&& self.wf(d)
        &&& post.wf(d2)
        &&& self.size <= post.size
        &&& d2.len() == d.len()
        &&& post.owned(d2) == self.owned(d) + ids
        &&& forall|blk: int|
            0 <= blk < d2.len() && #[trigger] d2[blk] != d[blk] ==> post.is_index_block(d2, blk)
    }

    /// Growth leaves the content that the inode had as it was.
    pub proof fn lemma_growth_keeps_content(
        &self,
        d: Seq<Seq<u8>>,
        post: &DiskInode,
        d2: Seq<Seq<u8>>,
        ids: Seq<u32>,
    )
        requires
            self.grown(d, post, d2, ids),
        ensures
            forall|k: int|
                0 <= k < self.blocks() ==> #[trigger] post.block_id_of(d2, k) == self.block_id_of(
                    d,
                    k,
                ) && d2[self.block_id_of(d, k) as int] == d[self.block_id_of(d, k) as int],
            forall|j: int|
                0 <= j < self.size ==> #[trigger] post.content(d2)[j] == self.content(d)[j],
    {
        lemma_total_blocks_monotone(self.size, post.size);
        assert forall|k: int| 0 <= k < self.blocks() implies #[trigger] post.block_id_of(d2, k)
            == self.block_id_of(d, k) && d2[self.block_id_of(d, k) as int] == d[self.block_id_of(
            d,
            k,
        ) as int] by {
            self.lemma_path(d, k);
            post.lemma_path(d2, k);
            let x = self.block_id_of(d, k);
            assert(post.owned(d2)[data_pos(k)] == self.owned(d)[data_pos(k)]);
            if d2[x as int] != d[x as int] {
                assert(post.is_index_block(d2, x as int));
                let t = choose|t: nat|
                    1 <= t <= 3 && tier_count(post.blocks(), t) > 0 && #[trigger] is_index_block_of(
                        d2,
                        post.root(t),
                        t,
                        tier_count(post.blocks(), t),
                        x as int,
                    );
                if x == post.root(t) {
                    post.lemma_root_not_data(d2, k, t);
                } else {
                    let q = choose|q: int|
                        0 <= q < tree_len(t, tier_count(post.blocks(), t)) && is_index_pos(t, q)
                            && #[trigger] node_at(d2, post.root(t), t, q) == x as int;
                    post.lemma_data_not_index(d2, k, t, q);
                }
            }
        }
        assert forall|j: int| 0 <= j < self.size implies #[trigger] post.content(d2)[j]
            == self.content(d)[j] by {
            let k = j / 512;
            assert(post.block_id_of(d2, k) == self.block_id_of(d, k));
        }
    }
}

/// The blocks taken when an inode grows are as many as the difference of the
/// block counts of the two sizes, and each tier takes its share in turn.
pub proof fn lemma_consumed_total(s0: u32, s1: u32)
    requires
        s0 <= s1,
        data_blocks_of(s1) <= MAX_DATA_BLOCKS,
    ensures
        consumed(data_blocks_of(s0), data_blocks_of(s1), 3) == total_blocks_of(s1)
            - total_blocks_of(s0),
        0 <= consumed(data_blocks_of(s0), data_blocks_of(s1), 0) <= consumed(
            data_blocks_of(s0),
            data_blocks_of(s1),
            1,
        ) <= consumed(data_blocks_of(s0), data_blocks_of(s1), 2) <= consumed(
            data_blocks_of(s0),
            data_blocks_of(s1),
            3,
        ),
        data_blocks_of(s1) <= 27 ==> consumed(data_blocks_of(s0), data_blocks_of(s1), 0)
            == consumed(data_blocks_of(s0), data_blocks_of(s1), 3),
        data_blocks_of(s1) <= 155 ==> consumed(data_blocks_of(s0), data_blocks_of(s1), 1)
            == consumed(data_blocks_of(s0), data_blocks_of(s1), 3),
        data_blocks_of(s1) <= 16539 ==> consumed(data_blocks_of(s0), data_blocks_of(s1), 2)
            == consumed(data_blocks_of(s0), data_blocks_of(s1), 3),
{
    let nb0 = data_blocks_of(s0);
    let nb1 = data_blocks_of(s1);
    lemma_tree_len_monotone(1, tier_count(nb0, 1), tier_count(nb1, 1));
    lemma_tree_len_monotone(2, tier_count(nb0, 2), tier_count(nb1, 2));
    lemma_tree_len_monotone(3, tier_count(nb0, 3), tier_count(nb1, 3));
}

} // verus!
