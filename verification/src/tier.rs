//! One tier of an inode: an indirect pointer and the index tree below it.

use vstd::prelude::*;
use crate::device::BlockDevice;
use crate::tree::{
    build_tree, built, cap, fresh_for, growth, is_index_block_of, is_index_pos,
    lemma_built_facts, lemma_built_listing, lemma_preserve_prefix, lemma_tree_len_monotone,
    listing, node_at, tree_len,
};

verus! {

/// The blocks of a tier that holds `n` leaves below the index block `root`:
/// none where the tier is unused, else the root and the listing below it.
pub open spec fn seg(d: Seq<Seq<u8>>, root: u32, t: nat, n: int) -> Seq<u32> {
    if n <= 0 {
        Seq::empty()
    } else {
        seq![root] + listing(d, root, t, n)
    }
}

/// No block occurs twice in `s`, and every block of `s` is a block of the
/// disk.
pub open spec fn distinct_on_disk(s: Seq<u32>, d: Seq<Seq<u8>>) -> bool {
    &&& s.no_duplicates()
    &&& forall|k: int| 0 <= k < s.len() ==> (#[trigger] s[k]) < d.len()
}

/// Number of blocks that extend a tier from `src` leaves to `dst` leaves: the
/// root where the tier was unused, and the blocks below it.
pub open spec fn tier_growth(t: nat, src: int, dst: int) -> int {
    (if src == 0 && dst > 0 {
        1int
    } else {
        0int
    }) + growth(t, src, dst)
}

/// A tier lists the same blocks on two disks that agree on its index blocks.
pub proof fn lemma_seg_frame(d: Seq<Seq<u8>>, d2: Seq<Seq<u8>>, root: u32, t: nat, n: int)
    requires
        1 <= t <= 3,
        0 <= n <= cap(t),
        n > 0 ==> d2[root as int] == d[root as int],
        forall|p: int|
            0 <= p < tree_len(t, n) && is_index_pos(t, p) ==> d2[(#[trigger] node_at(
                d,
                root,
                t,
                p,
            )) as int] == d[node_at(d, root, t, p) as int],
    ensures
        seg(d2, root, t, n) == seg(d, root, t, n),
        forall|p: int|
            0 <= p < tree_len(t, n) ==> #[trigger] node_at(d2, root, t, p) == node_at(
                d,
                root,
                t,
                p,
            ),
{
    if n > 0 {
        lemma_tree_len_monotone(t, n, cap(t));
        lemma_preserve_prefix(d, d2, root, t, 128, tree_len(t, n));
        assert(listing(d2, root, t, n) =~= listing(d, root, t, n));
    }
}

/// Blocks that occur once among the blocks of other tiers, the tier's own
/// blocks and the new blocks may be installed in the tier.
pub proof fn lemma_tier_fresh(
    d: Seq<Seq<u8>>,
    root: u32,
    t: nat,
    src: int,
    before: Seq<u32>,
    after: Seq<u32>,
    ids: Seq<u32>,
)
    requires
        1 <= t <= 3,
        0 < src <= cap(t),
        distinct_on_disk(before + seg(d, root, t, src) + after + ids, d),
    ensures
        fresh_for(d, root, t, src, ids),
        root < d.len(),
{
    reveal(fresh_for);
    let all = before + seg(d, root, t, src) + after + ids;
    let o = before.len() as int;
    let n = tree_len(t, src);
    let w = o + 1 + n + after.len();
    lemma_tree_len_monotone(t, 0, src);
    assert(all[o] == root);
    assert forall|p: int| 0 <= p < n implies all[o + 1 + p] == #[trigger] node_at(d, root, t, p) by {
        assert(seg(d, root, t, src)[1 + p] == node_at(d, root, t, p));
    }
    assert forall|j: int| 0 <= j < ids.len() implies all[w + j] == #[trigger] ids[j] by {}
    assert forall|p: int| 0 <= p < n implies #[trigger] node_at(d, root, t, p) != root by {
        assert(all[o + 1 + p] != all[o]);
    }
    assert forall|p: int| 0 <= p < n implies (#[trigger] node_at(d, root, t, p)) < d.len() by {
        assert(all[o + 1 + p] < d.len());
    }
    assert forall|p: int, q: int| 0 <= p < q < n implies #[trigger] node_at(d, root, t, p)
        != #[trigger] node_at(d, root, t, q) by {
        assert(all[o + 1 + p] != all[o + 1 + q]);
    }
    assert forall|j: int| 0 <= j < ids.len() implies #[trigger] ids[j] != root by {
        assert(all[w + j] != all[o]);
    }
    assert forall|j: int| 0 <= j < ids.len() implies (#[trigger] ids[j]) < d.len() by {
        assert(all[w + j] < d.len());
    }
    assert forall|p: int, j: int| 0 <= p < n && 0 <= j < ids.len() implies #[trigger] node_at(
        d,
        root,
        t,
        p,
    ) != #[trigger] ids[j] by {
        assert(all[o + 1 + p] != all[w + j]);
    }
    assert forall|j: int, k: int| 0 <= j < k < ids.len() implies #[trigger] ids[j]
        != #[trigger] ids[k] by {
        assert(all[w + j] != all[w + k]);
    }
}

/// Blocks that occur once among the blocks of other tiers and the new blocks
/// may be installed in a tier that was unused, the first of them as its root.
pub proof fn lemma_tier_fresh_root(
    d: Seq<Seq<u8>>,
    t: nat,
    before: Seq<u32>,
    after: Seq<u32>,
    ids: Seq<u32>,
)
    requires
        1 <= t <= 3,
        ids.len() >= 1,
        distinct_on_disk(before + after + ids, d),
    ensures
        fresh_for(d, ids[0], t, 0, ids.subrange(1, ids.len() as int)),
        ids[0] < d.len(),
{
    reveal(fresh_for);
    let all = before + after + ids;
    let w = (before.len() + after.len()) as int;
    let rest = ids.subrange(1, ids.len() as int);
    assert forall|j: int| 0 <= j < ids.len() implies all[w + j] == #[trigger] ids[j] by {}
    assert(all[w] < d.len());
    assert forall|j: int| 0 <= j < rest.len() implies #[trigger] rest[j] != ids[0] by {
        assert(all[w + 1 + j] != all[w]);
    }
    assert forall|j: int| 0 <= j < rest.len() implies (#[trigger] rest[j]) < d.len() by {
        assert(all[w + 1 + j] < d.len());
    }
    assert forall|j: int, k: int| 0 <= j < k < rest.len() implies #[trigger] rest[j]
        != #[trigger] rest[k] by {
        assert(all[w + 1 + j] != all[w + 1 + k]);
    }
}

/// What holds after a tier was extended: its blocks are the old ones
/// followed by the new ones, the blocks of the other tiers are as they were,
/// and only index blocks of the tier have changed.
pub proof fn lemma_tier_grown(
    d: Seq<Seq<u8>>,
    d2: Seq<Seq<u8>>,
    root_old: u32,
    r: u32,
    t: nat,
    src: int,
    dst: int,
    before: Seq<u32>,
    after: Seq<u32>,
    newids: Seq<u32>,
)
    requires
        1 <= t <= 3,
        0 <= src < dst <= cap(t),
        distinct_on_disk(before + seg(d, root_old, t, src) + after + newids, d),
        newids.len() == tier_growth(t, src, dst),
        src == 0 ==> r == newids[0],
        src > 0 ==> r == root_old,
        built(
            d,
            d2,
            r,
            t,
            src,
            dst,
            if src == 0 {
                newids.subrange(1, newids.len() as int)
            } else {
                newids
            },
            growth(t, src, dst),
        ),
    ensures
        seg(d2, r, t, dst) == seg(d, root_old, t, src) + newids,
        forall|k: int| 0 <= k < before.len() ==> d2[(#[trigger] before[k]) as int] == d[before[k] as int],
        forall|k: int| 0 <= k < after.len() ==> d2[(#[trigger] after[k]) as int] == d[after[k] as int],
        forall|blk: int|
            0 <= blk < d2.len() && #[trigger] d2[blk] != d[blk] ==> is_index_block_of(
                d2,
                r,
                t,
                dst,
                blk,
            ),
        d2.len() == d.len(),
{
    let ids = if src == 0 {
        newids.subrange(1, newids.len() as int)
    } else {
        newids
    };
    let all = before + seg(d, root_old, t, src) + after + newids;
    let o = before.len() as int;
    let sl = seg(d, root_old, t, src).len() as int;
    let w = o + sl + after.len();
    let len0 = tree_len(t, src);
    lemma_tree_len_monotone(t, src, dst);
    lemma_tree_len_monotone(t, 0, src);
    lemma_built_listing(d, d2, r, t, src, dst, ids);
    lemma_built_facts(d, d2, r, t, src, dst, ids, growth(t, src, dst));
    assert(seg(d2, r, t, dst) =~= seg(d, root_old, t, src) + newids);
    reveal(built);
    assert forall|j: int| 0 <= j < newids.len() implies all[w + j] == #[trigger] newids[j] by {}
    assert forall|k: int| 0 <= k < before.len() implies all[k] == #[trigger] before[k] by {}
    assert forall|k: int| 0 <= k < after.len() implies all[o + sl + k] == #[trigger] after[k] by {}
    // every block that changed stands in the tier's own part of `all`
    assert forall|blk: int| 0 <= blk < d2.len() && d2[blk] != d[blk] implies exists|k: int|
        o <= k < all.len() && !(o + sl <= k < w) && #[trigger] all[k] == blk by {
        assert(is_index_block_of(d2, r, t, dst, blk));
        if blk == r {
            if src == 0 {
                assert(all[w] == blk);
            } else {
                assert(seg(d, root_old, t, src)[0] == root_old);
                assert(all[o] == blk);
            }
        } else {
            let q = choose|q: int|
                0 <= q < tree_len(t, dst) && is_index_pos(t, q) && #[trigger] node_at(d2, r, t, q)
                    == blk;
            if q < len0 {
                assert(node_at(d2, r, t, q) == node_at(d, r, t, q));
                assert(seg(d, root_old, t, src)[1 + q] == node_at(d, root_old, t, q));
                assert(all[o + 1 + q] == blk);
            } else {
                assert(node_at(d2, r, t, q) == ids[q - len0]);
                if src == 0 {
                    assert(all[w + 1 + q - len0] == blk);
                } else {
                    assert(all[w + q - len0] == blk);
                }
            }
        }
    }
    assert forall|k: int| 0 <= k < before.len() implies d2[(#[trigger] before[k]) as int]
        == d[before[k] as int] by {
        let blk = before[k] as int;
        assert(all[k] < d.len());
        if d2[blk] != d[blk] {
            let k2 = choose|k2: int|
                o <= k2 < all.len() && !(o + sl <= k2 < w) && #[trigger] all[k2] == blk;
            assert(all[k] != all[k2]);
        }
    }
    assert forall|k: int| 0 <= k < after.len() implies d2[(#[trigger] after[k]) as int]
        == d[after[k] as int] by {
        let blk = after[k] as int;
        assert(all[o + sl + k] < d.len());
        if d2[blk] != d[blk] {
            let k2 = choose|k2: int|
                o <= k2 < all.len() && !(o + sl <= k2 < w) && #[trigger] all[k2] == blk;
            assert(all[o + sl + k] != all[k2]);
        }
    }
}

/// Extends the tier of height `height` from `src_leaf` leaves to `dst_leaf`
/// leaves with blocks taken from `blocks`, from index `next` on: first the
/// root, where the tier was unused, then the blocks below it in listing
/// order. Returns the root of the tier and the index of the first block that
/// was not taken. `before` and `after` are the blocks of the other tiers.
pub(crate) fn grow_tier(
    disk: &mut BlockDevice,
    blocks: &Vec<u32>,
    next: usize,
    root: u32,
    height: usize,
    src_leaf: usize,
    dst_leaf: usize,
    Ghost(before): Ghost<Seq<u32>>,
    Ghost(after): Ghost<Seq<u32>>,
) -> (res: (u32, usize))
    requires
        1 <= height <= 3,
        src_leaf <= dst_leaf <= cap(height as nat),
        0 < dst_leaf,
        next + tier_growth(height as nat, src_leaf as int, dst_leaf as int) <= blocks@.len(),
        distinct_on_disk(
            before + seg(old(disk)@, root, height as nat, src_leaf as int) + after
                + blocks@.subrange(
                next as int,
                next + tier_growth(height as nat, src_leaf as int, dst_leaf as int),
            ),
            old(disk)@,
        ),
    ensures
        res.0 == (if src_leaf == 0 {
            blocks@[next as int]
        } else {
            root
        }),
        res.1 == next + tier_growth(height as nat, src_leaf as int, dst_leaf as int),
        final(disk)@.len() == old(disk)@.len(),
        seg(final(disk)@, res.0, height as nat, dst_leaf as int) == seg(
            old(disk)@,
            root,
            height as nat,
            src_leaf as int,
        ) + blocks@.subrange(next as int, res.1 as int),
        forall|k: int|
            0 <= k < before.len() ==> final(disk)@[(#[trigger] before[k]) as int] == old(
                disk,
            )@[before[k] as int],
        forall|k: int|
            0 <= k < after.len() ==> final(disk)@[(#[trigger] after[k]) as int] == old(
                disk,
            )@[after[k] as int],
        forall|blk: int|
            0 <= blk < final(disk)@.len() && #[trigger] final(disk)@[blk] != old(disk)@[blk]
                ==> is_index_block_of(final(disk)@, res.0, height as nat, dst_leaf as int, blk),
        res.1 == next ==> final(disk)@ == old(disk)@,
{
    let ghost t = height as nat;
    let ghost newids = blocks@.subrange(
        next as int,
        next + tier_growth(t, src_leaf as int, dst_leaf as int),
    );
    let total = blocks.len();
    let mut r = root;
    let mut nxt = next;
    proof {
        lemma_tree_len_monotone(t, src_leaf as int, dst_leaf as int);
    }
    if src_leaf == 0 {
        r = blocks[nxt];
        nxt = nxt + 1;
        proof {
            assert(seg(disk@, root, t, 0) =~= Seq::<u32>::empty());
            assert(before + seg(disk@, root, t, 0) + after + newids =~= before + after + newids);
            lemma_tier_fresh_root(disk@, t, before, after, newids);
            assert(blocks@.subrange(nxt as int, nxt + growth(t, 0, dst_leaf as int))
                =~= newids.subrange(1, newids.len() as int));
        }
    } else {
        proof {
            lemma_tier_fresh(disk@, root, t, src_leaf as int, before, after, newids);
            assert(blocks@.subrange(
                nxt as int,
                nxt + growth(t, src_leaf as int, dst_leaf as int),
            ) =~= newids);
        }
    }
    if src_leaf < dst_leaf {
        let res = build_tree(disk, blocks, nxt, r, 0, src_leaf, dst_leaf, 0, height);
        proof {
            lemma_tier_grown(
                old(disk)@,
                disk@,
                root,
                r,
                t,
                src_leaf as int,
                dst_leaf as int,
                before,
                after,
                newids,
            );
        }
        nxt = res.1;
    } else {
        assert(seg(disk@, r, t, dst_leaf as int) =~= seg(disk@, root, t, src_leaf as int)
            + blocks@.subrange(next as int, nxt as int));
    }
    (r, nxt)
}

} // verus!
