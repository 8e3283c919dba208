//! The index tree below one indirect pointer of an inode.
//!
//! A tree of height `h` is rooted in an index block and reaches its leaves,
//! the data blocks, through `h` pointer lookups. Its blocks are listed in the
//! order in which they are installed and handed back: each child of a node in
//! turn, a child before the blocks below it.

use vstd::prelude::*;
use crate::device::{ptr, BlockDevice};

verus! {

/// Greatest height of an index tree.
pub const MAX_HEIGHT: usize = 3;

/// Number of leaves that a tree of height `h` can hold.
pub open spec fn cap(h: nat) -> int {
    if h == 0 {
        1
    } else if h == 1 {
        128
    } else if h == 2 {
        16384
    } else {
        2097152
    }
}

/// `a / 128` rounded up.
pub open spec fn ceil_128(a: int) -> int {
    (a + 127) / 128
}

/// `a / 16384` rounded up.
pub open spec fn ceil_16384(a: int) -> int {
    (a + 16383) / 16384
}

/// Number of blocks below the root of a tree of height `h` that holds `m`
/// leaves: the leaves and the index blocks between them and the root.
pub open spec fn tree_len(h: nat, m: int) -> int {
    if h == 0 {
        0
    } else if h == 1 {
        m
    } else if h == 2 {
        m + ceil_128(m)
    } else {
        m + ceil_128(m) + ceil_16384(m)
    }
}

/// Number of the first leaf below child `i` of a node of height `h`, counted
/// from the node's own first leaf.
pub open spec fn child_leaf(h: nat, i: int) -> int {
    if h <= 1 {
        i
    } else if h == 2 {
        128 * i
    } else {
        16384 * i
    }
}

/// Position of child `i` of the root in the listing of a tree of height `h`.
pub open spec fn child_pos(h: nat, i: int) -> int {
    if h <= 1 {
        i
    } else if h == 2 {
        129 * i
    } else {
        16513 * i
    }
}

/// The block at position `p` of the listing of the tree of height `h` rooted
/// in block `b`. Child `i` of the root is at position `child_pos(h, i)`, and
/// the blocks below it follow it.
pub open spec fn node_at(d: Seq<Seq<u8>>, b: u32, h: nat, p: int) -> u32
    decreases h,
{
    if h == 0 {
        b
    } else if h == 1 {
        ptr(d, b, p)
    } else if h == 2 {
        if p % 129 == 0 {
            ptr(d, b, p / 129)
        } else {
            node_at(d, ptr(d, b, p / 129), 1, p % 129 - 1)
        }
    } else {
        if p % 16513 == 0 {
            ptr(d, b, p / 16513)
        } else {
            node_at(d, ptr(d, b, p / 16513), 2, p % 16513 - 1)
        }
    }
}

/// Whether position `p` of the listing of a tree of height `h` holds an index
/// block, not a leaf.
pub open spec fn is_index_pos(h: nat, p: int) -> bool {
    if h <= 1 {
        false
    } else if h == 2 {
        p % 129 == 0
    } else {
        p % 16513 == 0 || (p % 16513 - 1) % 129 == 0
    }
}

/// The blocks below the root `b` of a tree of height `h` with `m` leaves, in
/// listing order.
pub open spec fn listing(d: Seq<Seq<u8>>, b: u32, h: nat, m: int) -> Seq<u32> {
    Seq::new(tree_len(h, m) as nat, |p: int| node_at(d, b, h, p))
}

/// Leaf number `j` of the tree of height `h` rooted in `b`, found by `h`
/// chained lookups.
pub open spec fn leaf_at(d: Seq<Seq<u8>>, b: u32, h: nat, j: int) -> u32 {
    if h == 0 {
        b
    } else if h == 1 {
        ptr(d, b, j)
    } else if h == 2 {
        ptr(d, ptr(d, b, j / 128), j % 128)
    } else {
        ptr(d, ptr(d, ptr(d, b, j / 16384), j % 16384 / 128), j % 16384 % 128)
    }
}

/// Position of leaf number `j` in the listing of a tree of height `h`.
pub open spec fn leaf_pos(h: nat, j: int) -> int {
    if h <= 1 {
        j
    } else if h == 2 {
        j + j / 128 + 1
    } else {
        j + j / 128 + 1 + j / 16384 + 1
    }
}

/// The smaller of two numbers.
pub open spec fn min_int(a: int, b: int) -> int {
    if a <= b {
        a
    } else {
        b
    }
}

/// The greater of two numbers.
pub open spec fn max_int(a: int, b: int) -> int {
    if a >= b {
        a
    } else {
        b
    }
}

/// Number of leaves below a node of height `h` whose first leaf has number
/// `base`, in a tree that holds the leaves with a number below `n`.
pub open spec fn leaves_below(n: int, base: int, h: nat) -> int {
    if n <= base {
        0
    } else {
        min_int(n - base, cap(h))
    }
}

/// Number of the first leaf that is not visited by a walk over the leaves
/// with a number below `n`, begun at a node of height `h` whose first leaf
/// has number `base`: a leaf is passed whatever its number.
pub open spec fn leaf_after(n: int, base: int, h: nat) -> int {
    if h == 0 {
        base + 1
    } else if n <= base {
        base
    } else {
        min_int(base + cap(h), n)
    }
}

/// Every index block of the listing is a block of the disk.
pub open spec fn index_blocks_on_disk(d: Seq<Seq<u8>>, b: u32, h: nat, m: int) -> bool {
    forall|p: int|
        0 <= p < tree_len(h, m) && is_index_pos(h, p) ==> (#[trigger] node_at(d, b, h, p))
            < d.len()
}

/// Whether block `blk` is the root `b` or an index block of its listing.
pub open spec fn is_index_block_of(d: Seq<Seq<u8>>, b: u32, h: nat, m: int, blk: int) -> bool {
    blk == b || exists|q: int|
        0 <= q < tree_len(h, m) && is_index_pos(h, q) && #[trigger] node_at(d, b, h, q) == blk
}

/// The blocks `ids` may be installed below `b`: they and the blocks of the
/// listing are blocks of the disk, and among the root, the listing and `ids`
/// no block occurs twice.
#[verifier::opaque]
pub open spec fn fresh_for(d: Seq<Seq<u8>>, b: u32, h: nat, m: int, ids: Seq<u32>) -> bool {
    &&& forall|p: int| 0 <= p < tree_len(h, m) ==> #[trigger] node_at(d, b, h, p) != b
    &&& forall|p: int| 0 <= p < tree_len(h, m) ==> (#[trigger] node_at(d, b, h, p)) < d.len()
    &&& forall|p: int, q: int|
        0 <= p < q < tree_len(h, m) ==> #[trigger] node_at(d, b, h, p) != #[trigger] node_at(
            d,
            b,
            h,
            q,
        )
    &&& forall|j: int| 0 <= j < ids.len() ==> #[trigger] ids[j] != b
    &&& forall|j: int| 0 <= j < ids.len() ==> (#[trigger] ids[j]) < d.len()
    &&& forall|p: int, j: int|
        0 <= p < tree_len(h, m) && 0 <= j < ids.len() ==> #[trigger] node_at(d, b, h, p)
            != #[trigger] ids[j]
    &&& forall|j: int, k: int| 0 <= j < k < ids.len() ==> #[trigger] ids[j] != #[trigger] ids[k]
}

/// The disk `d` is the disk `d0` after the tree below `b` was extended from
/// `m_src` leaves to `m_cur` leaves (where that is more) with the first
/// `used` blocks of `ids`: the old listing stands, the new blocks follow it in
/// the order of `ids`, and only index blocks of the tree have changed.
#[verifier::opaque]
pub open spec fn built(
    d0: Seq<Seq<u8>>,
    d: Seq<Seq<u8>>,
    b: u32,
    h: nat,
    m_src: int,
    m_cur: int,
    ids: Seq<u32>,
    used: int,
) -> bool {
    let len0 = tree_len(h, m_src);
    let len1 = tree_len(h, max_int(m_src, m_cur));
    &&& d.len() == d0.len()
    &&& used == len1 - len0
    &&& forall|p: int| 0 <= p < len0 ==> #[trigger] node_at(d, b, h, p) == node_at(d0, b, h, p)
    &&& forall|p: int| len0 <= p < len1 ==> #[trigger] node_at(d, b, h, p) == ids[p - len0]
    &&& forall|blk: int|
        0 <= blk < d.len() && #[trigger] d[blk] != d0[blk] ==> is_index_block_of(
            d,
            b,
            h,
            max_int(m_src, m_cur),
            blk,
        )
    &&& used == 0 ==> d == d0
}

/// Where child `i` of a node stands in the node's listing, and how the
/// listing of the child's own tree lies in it.
pub proof fn lemma_child_in_listing(d: Seq<Seq<u8>>, b: u32, h: nat, i: int)
    requires
        1 <= h <= 3,
        0 <= i < 128,
    ensures
        node_at(d, b, h, child_pos(h, i)) == ptr(d, b, i),
        is_index_pos(h, child_pos(h, i)) == (h >= 2),
        forall|q: int|
            0 <= q < tree_len((h - 1) as nat, cap((h - 1) as nat)) ==> node_at(
                d,
                b,
                h,
                child_pos(h, i) + 1 + q,
            ) == #[trigger] node_at(d, ptr(d, b, i), (h - 1) as nat, q),
        forall|q: int|
            0 <= q < tree_len((h - 1) as nat, cap((h - 1) as nat)) ==> is_index_pos(
                h,
                child_pos(h, i) + 1 + q,
            ) == #[trigger] is_index_pos((h - 1) as nat, q),
{
    reveal_with_fuel(node_at, 2);
}

/// Lengths of the listing at the boundaries of child `i`.
pub proof fn lemma_child_len(h: nat, i: int, m: int)
    requires
        1 <= h <= 3,
        0 <= i < 128,
        child_leaf(h, i) < m <= cap(h),
    ensures
        tree_len(h, child_leaf(h, i)) == child_pos(h, i),
        tree_len(h, min_int(child_leaf(h, i + 1), m)) == child_pos(h, i) + 1 + tree_len(
            (h - 1) as nat,
            min_int(m - child_leaf(h, i), cap((h - 1) as nat)),
        ),
        child_leaf(h, i + 1) == child_leaf(h, i) + cap((h - 1) as nat),
        0 < min_int(m - child_leaf(h, i), cap((h - 1) as nat)),
        tree_len((h - 1) as nat, min_int(m - child_leaf(h, i), cap((h - 1) as nat))) <= tree_len(
            (h - 1) as nat,
            cap((h - 1) as nat),
        ),
{
}

/// The listing grows with the number of leaves.
pub proof fn lemma_tree_len_monotone(h: nat, m1: int, m2: int)
    requires
        h <= 3,
        0 <= m1 <= m2,
    ensures
        0 <= tree_len(h, m1) <= tree_len(h, m2),
        m1 < m2 && h >= 1 ==> tree_len(h, m1) < tree_len(h, m2),
{
}

/// The listing of the first `i + 1` children of a node is the listing of the
/// first `i` children, then child `i`, then the listing of what is below it.
pub proof fn lemma_listing_step(d: Seq<Seq<u8>>, b: u32, h: nat, i: int, m: int)
    requires
        1 <= h <= 3,
        0 <= i < 128,
        child_leaf(h, i) < m <= cap(h),
    ensures
        listing(d, b, h, min_int(child_leaf(h, i + 1), m)) == listing(d, b, h, child_leaf(h, i))
            + seq![ptr(d, b, i)] + listing(
            d,
            ptr(d, b, i),
            (h - 1) as nat,
            min_int(m - child_leaf(h, i), cap((h - 1) as nat)),
        ),
{
    lemma_child_in_listing(d, b, h, i);
    lemma_child_len(h, i, m);
    let c = ptr(d, b, i);
    let mc = min_int(m - child_leaf(h, i), cap((h - 1) as nat));
    let lhs = listing(d, b, h, min_int(child_leaf(h, i + 1), m));
    let rhs = listing(d, b, h, child_leaf(h, i)) + seq![c] + listing(d, c, (h - 1) as nat, mc);
    assert(lhs.len() == rhs.len());
    assert forall|p: int| 0 <= p < lhs.len() implies lhs[p] == rhs[p] by {
        if p > child_pos(h, i) {
            let q = p - child_pos(h, i) - 1;
            assert(node_at(d, c, (h - 1) as nat, q) == node_at(d, b, h, child_pos(h, i) + 1 + q));
        }
    }
    assert(lhs =~= rhs);
}

/// The index blocks below child `i` of a node are index blocks below the
/// node, and so is the child where it is not a leaf.
pub proof fn lemma_child_index_blocks(d: Seq<Seq<u8>>, b: u32, h: nat, i: int, m: int)
    requires
        1 <= h <= 3,
        0 <= i < 128,
        child_leaf(h, i) < m <= cap(h),
        index_blocks_on_disk(d, b, h, m),
    ensures
        h >= 2 ==> ptr(d, b, i) < d.len(),
        index_blocks_on_disk(
            d,
            ptr(d, b, i),
            (h - 1) as nat,
            min_int(m - child_leaf(h, i), cap((h - 1) as nat)),
        ),
{
    lemma_child_in_listing(d, b, h, i);
    lemma_child_len(h, i, m);
    lemma_tree_len_monotone(h, min_int(child_leaf(h, i + 1), m), m);
    let c = ptr(d, b, i);
    let mc = min_int(m - child_leaf(h, i), cap((h - 1) as nat));
    if h >= 2 {
        assert(node_at(d, b, h, child_pos(h, i)) == c);
    }
    assert forall|q: int|
        0 <= q < tree_len((h - 1) as nat, mc) && is_index_pos((h - 1) as nat, q) implies (
    #[trigger] node_at(d, c, (h - 1) as nat, q)) < d.len() by {
        let p = child_pos(h, i) + 1 + q;
        assert(node_at(d, b, h, p) == node_at(d, c, (h - 1) as nat, q));
        assert(is_index_pos(h, p));
    }
}

/// Number of leaves that a tree of height `h` can hold.
pub fn leaves_under(h: usize) -> (c: usize)
    requires
        h <= MAX_HEIGHT,
    ensures
        c == cap(h as nat),
{
    if h == 0 {
        1
    } else if h == 1 {
        128
    } else if h == 2 {
        16384
    } else {
        2097152
    }
}

/// Appends to `collected` the blocks below `block_id`, a node `dst_depth -
/// cur_depth` lookups above the leaves whose first leaf has number
/// `cur_leaf`, as far as their leaves have a number below `max_leaf`. Returns
/// the number of the first leaf that was not visited.
pub fn collect_tree_blocks(
    collected: &mut Vec<u32>,
    block_id: u32,
    cur_leaf: usize,
    max_leaf: usize,
    cur_depth: usize,
    dst_depth: usize,
    disk: &BlockDevice,
) -> (end_leaf: usize)
    requires
        cur_depth <= dst_depth <= MAX_HEIGHT,
        cur_leaf <= 2097152,
        max_leaf <= 2097152,
        cur_depth < dst_depth && cur_leaf < max_leaf ==> block_id < disk@.len(),
        index_blocks_on_disk(
            disk@,
            block_id,
            (dst_depth - cur_depth) as nat,
            leaves_below(max_leaf as int, cur_leaf as int, (dst_depth - cur_depth) as nat),
        ),
    ensures
        end_leaf == leaf_after(max_leaf as int, cur_leaf as int, (dst_depth - cur_depth) as nat),
        final(collected)@ == old(collected)@ + listing(
            disk@,
            block_id,
            (dst_depth - cur_depth) as nat,
            leaves_below(max_leaf as int, cur_leaf as int, (dst_depth - cur_depth) as nat),
        ),
    decreases dst_depth - cur_depth,
{
    if cur_depth == dst_depth {
        assert(collected@ =~= old(collected)@ + listing(disk@, block_id, 0, 1));
        return cur_leaf + 1;
    }
    let ghost h = (dst_depth - cur_depth) as nat;
    let ghost m = leaves_below(max_leaf as int, cur_leaf as int, h);
    let mut cur: usize = cur_leaf;
    let mut i: usize = 0;
    assert(collected@ =~= old(collected)@ + listing(disk@, block_id, h, 0));
    while i < 128 && cur < max_leaf
        invariant
            1 <= h <= 3,
            h == dst_depth - cur_depth,
            cur_depth < dst_depth <= MAX_HEIGHT,
            m == leaves_below(max_leaf as int, cur_leaf as int, h),
            cur_leaf <= 2097152,
            max_leaf <= 2097152,
            i <= 128,
            cur_leaf < max_leaf ==> block_id < disk@.len(),
            cur == (if cur_leaf < max_leaf {
                min_int(cur_leaf + child_leaf(h, i as int), max_leaf as int)
            } else {
                cur_leaf as int
            }),
            index_blocks_on_disk(disk@, block_id, h, m),
            collected@ == old(collected)@ + listing(
                disk@,
                block_id,
                h,
                min_int(child_leaf(h, i as int), m),
            ),
        decreases 128 - i,
    {
        let child = disk.read_ptr(block_id, i);
        proof {
            lemma_listing_step(disk@, block_id, h, i as int, m);
            lemma_child_index_blocks(disk@, block_id, h, i as int, m);
            lemma_child_len(h, i as int, m);
        }
        collected.push(child);
        cur = collect_tree_blocks(collected, child, cur, max_leaf, cur_depth + 1, dst_depth, disk);
        i += 1;
    }
    cur
}

/// Positions of the listing that lie below the first `i` children of a node
/// are found in the same blocks on two disks that agree on the first `i`
/// pointers of the node and on the index blocks listed at those positions.
pub proof fn lemma_preserve_prefix(
    d: Seq<Seq<u8>>,
    d2: Seq<Seq<u8>>,
    b: u32,
    h: nat,
    i: int,
    bound: int,
)
    requires
        1 <= h <= 3,
        0 <= i <= 128,
        0 <= bound <= child_pos(h, i),
        forall|g: int| 0 <= g < i ==> ptr(d2, b, g) == ptr(d, b, g),
        forall|p: int|
            0 <= p < bound && is_index_pos(h, p) ==> d2[(#[trigger] node_at(d, b, h, p)) as int]
                == d[node_at(d, b, h, p) as int],
    ensures
        forall|p: int| 0 <= p < bound ==> #[trigger] node_at(d2, b, h, p) == node_at(d, b, h, p),
{
    assert forall|p: int| 0 <= p < bound implies #[trigger] node_at(d2, b, h, p) == node_at(
        d,
        b,
        h,
        p,
    ) by {
        if h == 1 {
        } else if h == 2 {
            lemma_same_path_2(d, d2, b, p);
        } else {
            lemma_same_path_3(d, d2, b, p);
        }
    }
}

/// In a tree of height 2, what stands at a position depends on one pointer
/// of the root and on the child at or before that position.
proof fn lemma_same_path_2(d: Seq<Seq<u8>>, d2: Seq<Seq<u8>>, b: u32, p: int)
    requires
        0 <= p,
        ptr(d2, b, p / 129) == ptr(d, b, p / 129),
        d2[node_at(d, b, 2, p / 129 * 129) as int] == d[node_at(d, b, 2, p / 129 * 129) as int],
    ensures
        node_at(d2, b, 2, p) == node_at(d, b, 2, p),
{
    reveal_with_fuel(node_at, 2);
    let g = p / 129;
    assert((g * 129) % 129 == 0 && (g * 129) / 129 == g);
}

/// In a tree of height 3, what stands at a position depends on one pointer
/// of the root and on the index blocks at or before that position that lead
/// to it.
proof fn lemma_same_path_3(d: Seq<Seq<u8>>, d2: Seq<Seq<u8>>, b: u32, p: int)
    requires
        0 <= p,
        ptr(d2, b, p / 16513) == ptr(d, b, p / 16513),
        d2[node_at(d, b, 3, p / 16513 * 16513) as int] == d[node_at(
            d,
            b,
            3,
            p / 16513 * 16513,
        ) as int],
        p % 16513 != 0 ==> d2[node_at(
            d,
            b,
            3,
            p / 16513 * 16513 + 1 + (p % 16513 - 1) / 129 * 129,
        ) as int] == d[node_at(d, b, 3, p / 16513 * 16513 + 1 + (p % 16513 - 1) / 129 * 129) as int],
    ensures
        node_at(d2, b, 3, p) == node_at(d, b, 3, p),
{
    reveal_with_fuel(node_at, 3);
    let g = p / 16513;
    let r = p % 16513;
    let c = ptr(d, b, g);
    assert((g * 16513) % 16513 == 0 && (g * 16513) / 16513 == g);
    assert(node_at(d, b, 3, g * 16513) == c);
    if r != 0 {
        let g1 = (r - 1) / 129;
        let at_child = g * 16513 + 1 + g1 * 129;
        assert(at_child % 16513 == 1 + g1 * 129 && at_child / 16513 == g);
        assert((g1 * 129) % 129 == 0 && (g1 * 129) / 129 == g1);
        assert(node_at(d, b, 3, at_child) == ptr(d, c, g1));
        lemma_same_path_2(d, d2, c, r - 1);
    }
}

/// Before a new child `i` is filled: the blocks that follow the child's own
/// block in `ids` may be installed below it.
pub proof fn lemma_fresh_new_child(
    d0: Seq<Seq<u8>>,
    d1: Seq<Seq<u8>>,
    b: u32,
    h: nat,
    i: int,
    m_src: int,
    m_dst: int,
    ids: Seq<u32>,
    used: int,
)
    requires
        1 <= h <= 3,
        0 <= i < 128,
        0 <= m_src <= child_leaf(h, i) < m_dst <= cap(h),
        fresh_for(d0, b, h, m_src, ids),
        ids.len() == tree_len(h, m_dst) - tree_len(h, m_src),
        used == child_pos(h, i) - tree_len(h, m_src),
        d1.len() == d0.len(),
    ensures
        0 <= used,
        used + 1 + tree_len((h - 1) as nat, min_int(m_dst - child_leaf(h, i), cap((h - 1) as nat)))
            <= ids.len(),
        ids[used] < d0.len(),
        fresh_for(
            d1,
            ids[used],
            (h - 1) as nat,
            0,
            ids.subrange(
                used + 1,
                used + 1 + tree_len(
                    (h - 1) as nat,
                    min_int(m_dst - child_leaf(h, i), cap((h - 1) as nat)),
                ),
            ),
        ),
{
    reveal(fresh_for);
    lemma_child_len(h, i, m_dst);
    lemma_tree_len_monotone(h, m_src, child_leaf(h, i));
    lemma_tree_len_monotone(h, min_int(child_leaf(h, i + 1), m_dst), m_dst);
}

/// Before an old child `i` is visited: the first blocks of `ids` may be
/// installed below it.
pub proof fn lemma_fresh_old_child(
    d0: Seq<Seq<u8>>,
    b: u32,
    h: nat,
    i: int,
    m_src: int,
    m_dst: int,
    ids: Seq<u32>,
)
    requires
        1 <= h <= 3,
        0 <= i < 128,
        child_leaf(h, i) < m_src <= m_dst <= cap(h),
        fresh_for(d0, b, h, m_src, ids),
        ids.len() == tree_len(h, m_dst) - tree_len(h, m_src),
    ensures
        ({
            let hc = (h - 1) as nat;
            let mcs = min_int(m_src - child_leaf(h, i), cap(hc));
            let mcd = min_int(m_dst - child_leaf(h, i), cap(hc));
            let nc = tree_len(hc, mcd) - tree_len(hc, mcs);
            &&& 0 <= nc <= ids.len()
            &&& fresh_for(d0, ptr(d0, b, i), hc, mcs, ids.subrange(0, nc))
            &&& ptr(d0, b, i) < d0.len()
            &&& tree_len(h, m_src) >= child_pos(h, i) + 1 + tree_len(hc, mcs)
            &&& nc > 0 ==> tree_len(h, m_src) == child_pos(h, i) + 1 + tree_len(hc, mcs)
            &&& nc > 0 ==> tree_len(h, min_int(child_leaf(h, i + 1), m_dst)) == tree_len(h, m_src)
                + nc
            &&& nc == 0 ==> tree_len(h, max_int(m_src, min_int(child_leaf(h, i + 1), m_dst)))
                == tree_len(h, m_src)
        }),
{
    let hc = (h - 1) as nat;
    let mcs = min_int(m_src - child_leaf(h, i), cap(hc));
    let mcd = min_int(m_dst - child_leaf(h, i), cap(hc));
    let nc = tree_len(hc, mcd) - tree_len(hc, mcs);
    let c = ptr(d0, b, i);
    let pos = child_pos(h, i);
    reveal(fresh_for);
    lemma_child_in_listing(d0, b, h, i);
    lemma_child_len(h, i, m_src);
    lemma_child_len(h, i, m_dst);
    lemma_tree_len_monotone(hc, mcs, mcd);
    lemma_tree_len_monotone(h, min_int(child_leaf(h, i + 1), m_src), m_src);
    lemma_tree_len_monotone(h, min_int(child_leaf(h, i + 1), m_dst), m_dst);
    assert(node_at(d0, b, h, pos) == c);
    let idsc = ids.subrange(0, nc);
    assert forall|q: int| 0 <= q < tree_len(hc, mcs) implies #[trigger] node_at(d0, c, hc, q)
        == node_at(d0, b, h, pos + 1 + q) by {}
    assert forall|q: int| 0 <= q < tree_len(hc, mcs) implies #[trigger] node_at(d0, c, hc, q)
        != c by {
        assert(node_at(d0, b, h, pos + 1 + q) != node_at(d0, b, h, pos));
    }
    assert forall|q: int| 0 <= q < tree_len(hc, mcs) implies (#[trigger] node_at(d0, c, hc, q))
        < d0.len() by {
        assert(node_at(d0, b, h, pos + 1 + q) < d0.len());
    }
    assert forall|q: int, r: int| 0 <= q < r < tree_len(hc, mcs) implies #[trigger] node_at(
        d0,
        c,
        hc,
        q,
    ) != #[trigger] node_at(d0, c, hc, r) by {
        assert(node_at(d0, b, h, pos + 1 + q) != node_at(d0, b, h, pos + 1 + r));
    }
    assert forall|j: int| 0 <= j < idsc.len() implies #[trigger] idsc[j] != c by {
        assert(node_at(d0, b, h, pos) != ids[j]);
    }
    assert forall|q: int, j: int|
        0 <= q < tree_len(hc, mcs) && 0 <= j < idsc.len() implies #[trigger] node_at(d0, c, hc, q)
        != #[trigger] idsc[j] by {
        assert(node_at(d0, b, h, pos + 1 + q) != ids[j]);
    }
    assert forall|j: int, k: int| 0 <= j < k < idsc.len() implies #[trigger] idsc[j]
        != #[trigger] idsc[k] by {
        assert(ids[j] != ids[k]);
    }
}

/// The state after a new child `i` was installed and filled.
pub proof fn lemma_step_new(
    d0: Seq<Seq<u8>>,
    dc: Seq<Seq<u8>>,
    d1: Seq<Seq<u8>>,
    d2: Seq<Seq<u8>>,
    b: u32,
    h: nat,
    i: int,
    m_src: int,
    m_dst: int,
    ids: Seq<u32>,
    used: int,
)
    requires
        1 <= h <= 3,
        0 <= i < 128,
        0 <= m_src <= child_leaf(h, i) < m_dst <= cap(h),
        b < d0.len(),
        fresh_for(d0, b, h, m_src, ids),
        ids.len() == tree_len(h, m_dst) - tree_len(h, m_src),
        built(d0, dc, b, h, m_src, child_leaf(h, i), ids, used),
        d1.len() == dc.len(),
        ptr(d1, b, i) == ids[used],
        forall|j: int| 0 <= j < 128 && j != i ==> ptr(d1, b, j) == ptr(dc, b, j),
        forall|blk: int| 0 <= blk < dc.len() && blk != b ==> d1[blk] == dc[blk],
        built(
            d1,
            d2,
            ids[used],
            (h - 1) as nat,
            0,
            min_int(m_dst - child_leaf(h, i), cap((h - 1) as nat)),
            ids.subrange(
                used + 1,
                used + 1 + tree_len(
                    (h - 1) as nat,
                    min_int(m_dst - child_leaf(h, i), cap((h - 1) as nat)),
                ),
            ),
            tree_len((h - 1) as nat, min_int(m_dst - child_leaf(h, i), cap((h - 1) as nat))),
        ),
    ensures
        built(
            d0,
            d2,
            b,
            h,
            m_src,
            min_int(child_leaf(h, i + 1), m_dst),
            ids,
            used + 1 + tree_len(
                (h - 1) as nat,
                min_int(m_dst - child_leaf(h, i), cap((h - 1) as nat)),
            ),
        ),
{
    let hc = (h - 1) as nat;
    let mc = min_int(m_dst - child_leaf(h, i), cap(hc));
    let nc = tree_len(hc, mc);
    let c = ids[used];
    let len0 = tree_len(h, m_src);
    let pos = child_pos(h, i);
    let idsc = ids.subrange(used + 1, used + 1 + nc);
    let m_new = min_int(child_leaf(h, i + 1), m_dst);
    reveal(fresh_for);
    reveal(built);
    lemma_fresh_new_child(d0, d1, b, h, i, m_src, m_dst, ids, used);
    lemma_child_len(h, i, m_dst);
    lemma_tree_len_monotone(h, m_src, child_leaf(h, i));
    lemma_child_in_listing(d2, b, h, i);
    assert(pos == len0 + used);
    assert(tree_len(h, max_int(m_src, m_new)) == pos + 1 + nc);
    // what the child's tree holds after the call
    assert forall|q: int| 0 <= q < nc implies #[trigger] node_at(d2, c, hc, q) == ids[used + 1
        + q] by {
        assert(node_at(d2, c, hc, q) == idsc[q]);
    }
    // the node itself was not touched by the call
    assert(d2[b as int] == d1[b as int]) by {
        if d2[b as int] != d1[b as int] {
            assert(is_index_block_of(d2, c, hc, mc, b as int));
            let q = choose|q: int|
                0 <= q < tree_len(hc, mc) && is_index_pos(hc, q) && #[trigger] node_at(
                    d2,
                    c,
                    hc,
                    q,
                ) == b as int;
            assert(ids[used + 1 + q] != b);
        }
    }
    // nor was any block of the listing so far
    assert forall|p: int| 0 <= p < pos implies d2[(#[trigger] node_at(dc, b, h, p)) as int]
        == dc[node_at(dc, b, h, p) as int] by {
        let x = node_at(dc, b, h, p);
        if p < len0 {
            assert(x == node_at(d0, b, h, p));
        } else {
            assert(x == ids[p - len0]);
        }
        assert(x != b);
        assert(x < d0.len());
        assert(x != c);
        if d2[x as int] != d1[x as int] {
            assert(is_index_block_of(d2, c, hc, mc, x as int));
            let q = choose|q: int|
                0 <= q < tree_len(hc, mc) && is_index_pos(hc, q) && #[trigger] node_at(
                    d2,
                    c,
                    hc,
                    q,
                ) == x as int;
            assert(ids[used + 1 + q] != x);
        }
    }
    assert forall|g: int| 0 <= g < i implies ptr(d2, b, g) == ptr(dc, b, g) by {
        assert(ptr(d1, b, g) == ptr(dc, b, g));
    }
    lemma_preserve_prefix(dc, d2, b, h, i, pos);
    assert(ptr(d2, b, i) == c);
    assert forall|p: int| 0 <= p < len0 implies #[trigger] node_at(d2, b, h, p) == node_at(
        d0,
        b,
        h,
        p,
    ) by {
        assert(node_at(dc, b, h, p) == node_at(d0, b, h, p));
    }
    assert forall|p: int| len0 <= p < pos + 1 + nc implies #[trigger] node_at(d2, b, h, p)
        == ids[p - len0] by {
        if p < pos {
            assert(node_at(dc, b, h, p) == ids[p - len0]);
        } else if p == pos {
        } else {
            let q = p - pos - 1;
            assert(node_at(d2, c, hc, q) == node_at(d2, b, h, pos + 1 + q));
        }
    }
    assert forall|blk: int| 0 <= blk < d2.len() && #[trigger] d2[blk] != d0[blk] implies
        is_index_block_of(d2, b, h, max_int(m_src, m_new), blk) by {
        if blk != b {
            if d2[blk] != d1[blk] {
                assert(is_index_block_of(d2, c, hc, mc, blk));
                assert(nc != 0);
                assert(h >= 2);
                if blk == c {
                    assert(node_at(d2, b, h, pos) == blk);
                    assert(is_index_pos(h, pos));
                } else {
                    let q = choose|q: int|
                        0 <= q < tree_len(hc, mc) && is_index_pos(hc, q) && #[trigger] node_at(
                            d2,
                            c,
                            hc,
                            q,
                        ) == blk;
                    assert(node_at(d2, b, h, pos + 1 + q) == blk);
                    assert(is_index_pos(h, pos + 1 + q));
                }
            } else {
                assert(d1[blk] == dc[blk]);
                assert(dc[blk] != d0[blk]);
                assert(is_index_block_of(dc, b, h, max_int(m_src, child_leaf(h, i)), blk));
                let q = choose|q: int|
                    0 <= q < tree_len(h, max_int(m_src, child_leaf(h, i))) && is_index_pos(h, q)
                        && #[trigger] node_at(dc, b, h, q) == blk;
                assert(node_at(d2, b, h, q) == node_at(dc, b, h, q));
            }
        }
    }
}

/// The state after an old child `i` was visited and, where it had room,
/// filled further.
pub proof fn lemma_step_old(
    d0: Seq<Seq<u8>>,
    d2: Seq<Seq<u8>>,
    b: u32,
    h: nat,
    i: int,
    m_src: int,
    m_dst: int,
    ids: Seq<u32>,
)
    requires
        1 <= h <= 3,
        0 <= i < 128,
        child_leaf(h, i) < m_src <= m_dst <= cap(h),
        b < d0.len(),
        fresh_for(d0, b, h, m_src, ids),
        ids.len() == tree_len(h, m_dst) - tree_len(h, m_src),
        ({
            let hc = (h - 1) as nat;
            let mcs = min_int(m_src - child_leaf(h, i), cap(hc));
            let mcd = min_int(m_dst - child_leaf(h, i), cap(hc));
            let nc = tree_len(hc, mcd) - tree_len(hc, mcs);
            built(d0, d2, ptr(d0, b, i), hc, mcs, mcd, ids.subrange(0, nc), nc)
        }),
    ensures
        ({
            let hc = (h - 1) as nat;
            let mcs = min_int(m_src - child_leaf(h, i), cap(hc));
            let mcd = min_int(m_dst - child_leaf(h, i), cap(hc));
            let nc = tree_len(hc, mcd) - tree_len(hc, mcs);
            built(d0, d2, b, h, m_src, min_int(child_leaf(h, i + 1), m_dst), ids, nc)
        }),
{
    let hc = (h - 1) as nat;
    let mcs = min_int(m_src - child_leaf(h, i), cap(hc));
    let mcd = min_int(m_dst - child_leaf(h, i), cap(hc));
    let nc = tree_len(hc, mcd) - tree_len(hc, mcs);
    let lcs = tree_len(hc, mcs);
    let c = ptr(d0, b, i);
    let len0 = tree_len(h, m_src);
    let pos = child_pos(h, i);
    let idsc = ids.subrange(0, nc);
    let m_new = min_int(child_leaf(h, i + 1), m_dst);
    reveal(fresh_for);
    reveal(built);
    lemma_fresh_old_child(d0, b, h, i, m_src, m_dst, ids);
    lemma_child_len(h, i, m_dst);
    lemma_child_len(h, i, m_src);
    lemma_child_in_listing(d0, b, h, i);
    lemma_child_in_listing(d2, b, h, i);
    lemma_tree_len_monotone(hc, mcs, mcd);
    if nc == 0 {
        assert(d2 == d0);
    } else {
        assert(max_int(m_src, m_new) == m_new);
        assert(len0 == pos + 1 + lcs);
        assert(tree_len(h, m_new) == len0 + nc);
        assert(node_at(d0, b, h, pos) == c);
        assert forall|q: int| 0 <= q < lcs + nc implies #[trigger] node_at(d2, c, hc, q) == (if q
            < lcs {
            node_at(d0, b, h, pos + 1 + q)
        } else {
            ids[q - lcs]
        }) by {
            if q < lcs {
                assert(node_at(d2, c, hc, q) == node_at(d0, c, hc, q));
            } else {
                assert(node_at(d2, c, hc, q) == idsc[q - lcs]);
            }
        }
        assert(d2[b as int] == d0[b as int]) by {
            if d2[b as int] != d0[b as int] {
                assert(is_index_block_of(d2, c, hc, mcd, b as int));
                assert(c != b);
                let q = choose|q: int|
                    0 <= q < tree_len(hc, mcd) && is_index_pos(hc, q) && #[trigger] node_at(
                        d2,
                        c,
                        hc,
                        q,
                    ) == b as int;
                if q < lcs {
                    assert(node_at(d0, b, h, pos + 1 + q) != b);
                } else {
                    assert(ids[q - lcs] != b);
                }
            }
        }
        assert forall|p: int| 0 <= p < pos implies d2[(#[trigger] node_at(d0, b, h, p)) as int]
            == d0[node_at(d0, b, h, p) as int] by {
            let x = node_at(d0, b, h, p);
            assert(x < d0.len());
            if d2[x as int] != d0[x as int] {
                assert(is_index_block_of(d2, c, hc, mcd, x as int));
                assert(node_at(d0, b, h, p) != node_at(d0, b, h, pos));
                let q = choose|q: int|
                    0 <= q < tree_len(hc, mcd) && is_index_pos(hc, q) && #[trigger] node_at(
                        d2,
                        c,
                        hc,
                        q,
                    ) == x as int;
                if q < lcs {
                    assert(node_at(d0, b, h, p) != node_at(d0, b, h, pos + 1 + q));
                } else {
                    assert(node_at(d0, b, h, p) != ids[q - lcs]);
                }
            }
        }
        lemma_preserve_prefix(d0, d2, b, h, i, pos);
        assert(ptr(d2, b, i) == c);
        assert forall|p: int| 0 <= p < len0 + nc implies #[trigger] node_at(d2, b, h, p) == (if p
            < len0 {
            node_at(d0, b, h, p)
        } else {
            ids[p - len0]
        }) by {
            if p < pos {
            } else if p == pos {
            } else {
                let q = p - pos - 1;
                assert(node_at(d2, c, hc, q) == node_at(d2, b, h, pos + 1 + q));
            }
        }
        assert forall|blk: int| 0 <= blk < d2.len() && #[trigger] d2[blk] != d0[blk] implies
            is_index_block_of(d2, b, h, max_int(m_src, m_new), blk) by {
            if blk != b {
                assert(is_index_block_of(d2, c, hc, mcd, blk));
                assert(h >= 2);
                if blk == c {
                    assert(node_at(d2, b, h, pos) == blk);
                    assert(is_index_pos(h, pos));
                } else {
                    let q = choose|q: int|
                        0 <= q < tree_len(hc, mcd) && is_index_pos(hc, q) && #[trigger] node_at(
                            d2,
                            c,
                            hc,
                            q,
                        ) == blk;
                    assert(node_at(d2, b, h, pos + 1 + q) == blk);
                    assert(is_index_pos(h, pos + 1 + q));
                }
            }
        }
    }
}

/// What `built` says of the size of the disk and of the number of blocks
/// used.
pub proof fn lemma_built_facts(
    d0: Seq<Seq<u8>>,
    d: Seq<Seq<u8>>,
    b: u32,
    h: nat,
    m_src: int,
    m_cur: int,
    ids: Seq<u32>,
    used: int,
)
    requires
        built(d0, d, b, h, m_src, m_cur, ids, used),
    ensures
        d.len() == d0.len(),
        used == tree_len(h, max_int(m_src, m_cur)) - tree_len(h, m_src),
        used == 0 ==> d == d0,
{
    reveal(built);
}

/// A tree that is not extended stays as it is.
pub proof fn lemma_built_nothing(
    d: Seq<Seq<u8>>,
    b: u32,
    h: nat,
    m_src: int,
    m_cur: int,
    ids: Seq<u32>,
)
    requires
        tree_len(h, max_int(m_src, m_cur)) == tree_len(h, m_src),
    ensures
        built(d, d, b, h, m_src, m_cur, ids, 0),
{
    reveal(built);
}

/// Number of blocks that extend a tree of height `h` from `m_src` leaves to
/// `m_dst` leaves.
pub open spec fn growth(h: nat, m_src: int, m_dst: int) -> int {
    tree_len(h, m_dst) - tree_len(h, m_src)
}

/// After a tree was extended, its listing is the old listing followed by the
/// blocks that were installed.
pub proof fn lemma_built_listing(
    d0: Seq<Seq<u8>>,
    d: Seq<Seq<u8>>,
    b: u32,
    h: nat,
    m_src: int,
    m_dst: int,
    ids: Seq<u32>,
)
    requires
        h <= 3,
        0 <= m_src <= m_dst,
        ids.len() == growth(h, m_src, m_dst),
        built(d0, d, b, h, m_src, m_dst, ids, growth(h, m_src, m_dst)),
    ensures
        d.len() == d0.len(),
        listing(d, b, h, m_dst) == listing(d0, b, h, m_src) + ids,
        forall|blk: int|
            0 <= blk < d.len() && #[trigger] d[blk] != d0[blk] ==> is_index_block_of(
                d,
                b,
                h,
                m_dst,
                blk,
            ),
{
    reveal(built);
    lemma_tree_len_monotone(h, m_src, m_dst);
    assert(listing(d, b, h, m_dst) =~= listing(d0, b, h, m_src) + ids);
}

/// The state of `build_tree` before it visits child `i` of the node
/// `block_id`: `cur` is the number of the first leaf below that child, `nxt`
/// the index of the next block to take, and the tree below the node is built
/// as far as the children before `i` reach.
#[verifier::opaque]
pub open spec fn growing(
    d0: Seq<Seq<u8>>,
    d: Seq<Seq<u8>>,
    blocks: Seq<u32>,
    next: int,
    block_id: u32,
    cur_leaf: int,
    src_leaf: int,
    dst_leaf: int,
    h: nat,
    i: int,
    cur: int,
    nxt: int,
) -> bool {
    let m_src = leaves_below(src_leaf, cur_leaf, h);
    let m_dst = leaves_below(dst_leaf, cur_leaf, h);
    let ids = blocks.subrange(next, next + growth(h, m_src, m_dst));
    &&& 1 <= h <= 3
    &&& 0 <= src_leaf <= dst_leaf <= 2097152
    &&& 0 <= cur_leaf <= 2097152
    &&& 0 <= next
    &&& next + growth(h, m_src, m_dst) <= blocks.len()
    &&& fresh_for(d0, block_id, h, m_src, ids)
    &&& cur_leaf < dst_leaf ==> block_id < d0.len()
    &&& 0 <= i <= 128
    &&& cur == (if cur_leaf < dst_leaf {
        min_int(cur_leaf + child_leaf(h, i), dst_leaf)
    } else {
        cur_leaf
    })
    &&& d.len() == d0.len()
    &&& nxt - next == tree_len(h, max_int(m_src, min_int(child_leaf(h, i), m_dst))) - tree_len(
        h,
        m_src,
    )
    &&& built(d0, d, block_id, h, m_src, min_int(child_leaf(h, i), m_dst), ids, nxt - next)
}

/// Before the first child is visited nothing is built.
pub proof fn lemma_growing_begin(
    d0: Seq<Seq<u8>>,
    blocks: Seq<u32>,
    next: int,
    block_id: u32,
    cur_leaf: int,
    src_leaf: int,
    dst_leaf: int,
    h: nat,
)
    requires
        1 <= h <= 3,
        0 <= src_leaf <= dst_leaf <= 2097152,
        0 <= cur_leaf <= 2097152,
        0 <= next,
        next + growth(
            h,
            leaves_below(src_leaf, cur_leaf, h),
            leaves_below(dst_leaf, cur_leaf, h),
        ) <= blocks.len(),
        fresh_for(
            d0,
            block_id,
            h,
            leaves_below(src_leaf, cur_leaf, h),
            blocks.subrange(
                next,
                next + growth(
                    h,
                    leaves_below(src_leaf, cur_leaf, h),
                    leaves_below(dst_leaf, cur_leaf, h),
                ),
            ),
        ),
        cur_leaf < dst_leaf ==> block_id < d0.len(),
    ensures
        growing(d0, d0, blocks, next, block_id, cur_leaf, src_leaf, dst_leaf, h, 0, cur_leaf, next),
{
    reveal(growing);
    let m_src = leaves_below(src_leaf, cur_leaf, h);
    let m_dst = leaves_below(dst_leaf, cur_leaf, h);
    lemma_tree_len_monotone(h, m_src, m_dst);
    lemma_built_nothing(
        d0,
        block_id,
        h,
        m_src,
        0,
        blocks.subrange(next, next + growth(h, m_src, m_dst)),
    );
}

/// What the state of `build_tree` tells where the walk over the children
/// goes on, and what it tells once the walk has ended.
pub proof fn lemma_growing_facts(
    d0: Seq<Seq<u8>>,
    d: Seq<Seq<u8>>,
    blocks: Seq<u32>,
    next: int,
    block_id: u32,
    cur_leaf: int,
    src_leaf: int,
    dst_leaf: int,
    h: nat,
    i: int,
    cur: int,
    nxt: int,
)
    requires
        growing(d0, d, blocks, next, block_id, cur_leaf, src_leaf, dst_leaf, h, i, cur, nxt),
    ensures
        0 <= i <= 128,
        0 <= cur <= 2097152,
        0 <= nxt <= blocks.len(),
        d.len() == d0.len(),
        i < 128 && cur < dst_leaf ==> block_id < d.len(),
        !(i < 128 && cur < dst_leaf) ==> {
            let m_src = leaves_below(src_leaf, cur_leaf, h);
            let m_dst = leaves_below(dst_leaf, cur_leaf, h);
            &&& cur == leaf_after(dst_leaf, cur_leaf, h)
            &&& nxt == next + growth(h, m_src, m_dst)
            &&& built(
                d0,
                d,
                block_id,
                h,
                m_src,
                m_dst,
                blocks.subrange(next, next + growth(h, m_src, m_dst)),
                growth(h, m_src, m_dst),
            )
        },
{
    reveal(growing);
    let m_src = leaves_below(src_leaf, cur_leaf, h);
    let m_dst = leaves_below(dst_leaf, cur_leaf, h);
    lemma_tree_len_monotone(h, m_src, m_dst);
    lemma_tree_len_monotone(h, m_src, max_int(m_src, min_int(child_leaf(h, i), m_dst)));
    lemma_tree_len_monotone(h, max_int(m_src, min_int(child_leaf(h, i), m_dst)), m_dst);
}

/// Installs the new child `i` of the node `block_id` and fills the tree
/// below it.
#[verifier::rlimit(50)]
fn fill_new_child(
    disk: &mut BlockDevice,
    blocks: &Vec<u32>,
    nxt: usize,
    block_id: u32,
    i: usize,
    cur: usize,
    src_leaf: usize,
    dst_leaf: usize,
    cur_depth: usize,
    dst_depth: usize,
    Ghost(d0): Ghost<Seq<Seq<u8>>>,
    Ghost(next): Ghost<int>,
    Ghost(cur_leaf): Ghost<int>,
) -> (res: (usize, usize))
    requires
        cur_depth < dst_depth <= MAX_HEIGHT,
        i < 128,
        src_leaf <= cur < dst_leaf,
        growing(
            d0,
            old(disk)@,
            blocks@,
            next,
            block_id,
            cur_leaf,
            src_leaf as int,
            dst_leaf as int,
            (dst_depth - cur_depth) as nat,
            i as int,
            cur as int,
            nxt as int,
        ),
    ensures
        growing(
            d0,
            final(disk)@,
            blocks@,
            next,
            block_id,
            cur_leaf,
            src_leaf as int,
            dst_leaf as int,
            (dst_depth - cur_depth) as nat,
            i + 1,
            res.0 as int,
            res.1 as int,
        ),
    decreases dst_depth - cur_depth, 0nat,
{
    reveal(growing);
    let ghost h = (dst_depth - cur_depth) as nat;
    let ghost hc = (h - 1) as nat;
    let ghost m_src = leaves_below(src_leaf as int, cur_leaf, h);
    let ghost m_dst = leaves_below(dst_leaf as int, cur_leaf, h);
    let ghost ids = blocks@.subrange(next, next + growth(h, m_src, m_dst));
    let ghost mcd = min_int(m_dst - child_leaf(h, i as int), cap(hc));
    let ghost dc = disk@;
    let total = blocks.len();
    proof {
        lemma_child_len(h, i as int, m_dst);
        lemma_tree_len_monotone(h, m_src, m_dst);
        lemma_tree_len_monotone(h, min_int(child_leaf(h, i as int + 1), m_dst), m_dst);
        lemma_tree_len_monotone(h, m_src, child_leaf(h, i as int));
        lemma_fresh_new_child(d0, d0, block_id, h, i as int, m_src, m_dst, ids, nxt - next);
    }
    assert(nxt < total);
    let child = blocks[nxt];
    assert(child == ids[nxt - next]);
    disk.write_ptr(block_id, i, child);
    let ghost d1 = disk@;
    proof {
        lemma_fresh_new_child(d0, d1, block_id, h, i as int, m_src, m_dst, ids, nxt - next);
        assert(blocks@.subrange(nxt + 1, nxt + 1 + growth(hc, 0, mcd)) =~= ids.subrange(
            nxt - next + 1,
            nxt - next + 1 + tree_len(hc, mcd),
        ));
    }
    let res = build_tree(
        disk,
        blocks,
        nxt + 1,
        child,
        cur,
        src_leaf,
        dst_leaf,
        cur_depth + 1,
        dst_depth,
    );
    proof {
        lemma_step_new(d0, dc, d1, disk@, block_id, h, i as int, m_src, m_dst, ids, nxt - next);
        lemma_built_facts(
            d0,
            disk@,
            block_id,
            h,
            m_src,
            min_int(child_leaf(h, i as int + 1), m_dst),
            ids,
            nxt - next + 1 + tree_len(hc, mcd),
        );
    }
    res
}

/// Visits the old child `i` of the node `block_id` and, where there is room
/// below it, fills the tree below it further.
#[verifier::rlimit(50)]
fn fill_old_child(
    disk: &mut BlockDevice,
    blocks: &Vec<u32>,
    nxt: usize,
    block_id: u32,
    i: usize,
    cur: usize,
    src_leaf: usize,
    dst_leaf: usize,
    cur_depth: usize,
    dst_depth: usize,
    Ghost(d0): Ghost<Seq<Seq<u8>>>,
    Ghost(next): Ghost<int>,
    Ghost(cur_leaf): Ghost<int>,
) -> (res: (usize, usize))
    requires
        cur_depth < dst_depth <= MAX_HEIGHT,
        i < 128,
        cur < src_leaf,
        cur < dst_leaf,
        growing(
            d0,
            old(disk)@,
            blocks@,
            next,
            block_id,
            cur_leaf,
            src_leaf as int,
            dst_leaf as int,
            (dst_depth - cur_depth) as nat,
            i as int,
            cur as int,
            nxt as int,
        ),
    ensures
        growing(
            d0,
            final(disk)@,
            blocks@,
            next,
            block_id,
            cur_leaf,
            src_leaf as int,
            dst_leaf as int,
            (dst_depth - cur_depth) as nat,
            i + 1,
            res.0 as int,
            res.1 as int,
        ),
    decreases dst_depth - cur_depth, 0nat,
{
    reveal(growing);
    let ghost h = (dst_depth - cur_depth) as nat;
    let ghost hc = (h - 1) as nat;
    let ghost m_src = leaves_below(src_leaf as int, cur_leaf, h);
    let ghost m_dst = leaves_below(dst_leaf as int, cur_leaf, h);
    let ghost ids = blocks@.subrange(next, next + growth(h, m_src, m_dst));
    let ghost mcs = min_int(m_src - child_leaf(h, i as int), cap(hc));
    let ghost mcd = min_int(m_dst - child_leaf(h, i as int), cap(hc));
    proof {
        lemma_child_len(h, i as int, m_dst);
        lemma_tree_len_monotone(h, m_src, m_dst);
        lemma_tree_len_monotone(h, min_int(child_leaf(h, i as int + 1), m_dst), m_dst);
        lemma_tree_len_monotone(h, min_int(child_leaf(h, i as int), m_dst), m_src);
        assert(nxt == next);
        lemma_built_facts(
            d0,
            disk@,
            block_id,
            h,
            m_src,
            min_int(child_leaf(h, i as int), m_dst),
            ids,
            0,
        );
        assert(disk@ == d0);
        lemma_fresh_old_child(d0, block_id, h, i as int, m_src, m_dst, ids);
        assert(blocks@.subrange(nxt as int, nxt + growth(hc, mcs, mcd)) =~= ids.subrange(
            0,
            growth(hc, mcs, mcd),
        ));
    }
    let child = disk.read_ptr(block_id, i);
    let res = build_tree(
        disk,
        blocks,
        nxt,
        child,
        cur,
        src_leaf,
        dst_leaf,
        cur_depth + 1,
        dst_depth,
    );
    proof {
        lemma_step_old(d0, disk@, block_id, h, i as int, m_src, m_dst, ids);
        lemma_built_facts(
            d0,
            disk@,
            block_id,
            h,
            m_src,
            min_int(child_leaf(h, i as int + 1), m_dst),
            ids,
            growth(hc, mcs, mcd),
        );
    }
    res
}

/// Extends the tree below `block_id`, a node `dst_depth - cur_depth` lookups
/// above the leaves whose first leaf has number `cur_leaf`, from the leaves
/// with a number below `src_leaf` to those with a number below `dst_leaf`.
/// The new blocks are taken from `blocks`, from index `next` on, in listing
/// order: the block of a new child is taken when the child is first visited,
/// before the blocks below it. Returns the number of the first leaf that was
/// not visited and the index of the first block that was not taken.
pub fn build_tree(
    disk: &mut BlockDevice,
    blocks: &Vec<u32>,
    next: usize,
    block_id: u32,
    cur_leaf: usize,
    src_leaf: usize,
    dst_leaf: usize,
    cur_depth: usize,
    dst_depth: usize,
) -> (res: (usize, usize))
    requires
        cur_depth <= dst_depth <= MAX_HEIGHT,
        src_leaf <= dst_leaf <= 2097152,
        cur_leaf <= 2097152,
        cur_depth < dst_depth && cur_leaf < dst_leaf ==> block_id < old(disk)@.len(),
        ({
            let h = (dst_depth - cur_depth) as nat;
            let m_src = leaves_below(src_leaf as int, cur_leaf as int, h);
            let m_dst = leaves_below(dst_leaf as int, cur_leaf as int, h);
            &&& next + growth(h, m_src, m_dst) <= blocks@.len()
            &&& fresh_for(
                old(disk)@,
                block_id,
                h,
                m_src,
                blocks@.subrange(next as int, next + growth(h, m_src, m_dst)),
            )
        }),
    ensures
        ({
            let h = (dst_depth - cur_depth) as nat;
            let m_src = leaves_below(src_leaf as int, cur_leaf as int, h);
            let m_dst = leaves_below(dst_leaf as int, cur_leaf as int, h);
            &&& res.0 == leaf_after(dst_leaf as int, cur_leaf as int, h)
            &&& res.1 == next + growth(h, m_src, m_dst)
            &&& final(disk)@.len() == old(disk)@.len()
            &&& listing(final(disk)@, block_id, h, m_dst) == listing(
                old(disk)@,
                block_id,
                h,
                m_src,
            ) + blocks@.subrange(next as int, res.1 as int)
            &&& forall|blk: int|
                0 <= blk < final(disk)@.len() && #[trigger] final(disk)@[blk] != old(disk)@[blk]
                    ==> is_index_block_of(final(disk)@, block_id, h, m_dst, blk)
            &&& built(
                old(disk)@,
                final(disk)@,
                block_id,
                h,
                m_src,
                m_dst,
                blocks@.subrange(next as int, next + growth(h, m_src, m_dst)),
                growth(h, m_src, m_dst),
            )
        }),
    decreases dst_depth - cur_depth, 1nat,
{
    if cur_depth == dst_depth {
        proof {
            lemma_built_nothing(
                disk@,
                block_id,
                0,
                leaves_below(src_leaf as int, cur_leaf as int, 0),
                leaves_below(dst_leaf as int, cur_leaf as int, 0),
                blocks@.subrange(next as int, next as int),
            );
            lemma_built_listing(
                disk@,
                disk@,
                block_id,
                0,
                leaves_below(src_leaf as int, cur_leaf as int, 0),
                leaves_below(dst_leaf as int, cur_leaf as int, 0),
                blocks@.subrange(next as int, next as int),
            );
        }
        return (cur_leaf + 1, next);
    }
    let ghost h = (dst_depth - cur_depth) as nat;
    let ghost m_src = leaves_below(src_leaf as int, cur_leaf as int, h);
    let ghost m_dst = leaves_below(dst_leaf as int, cur_leaf as int, h);
    let ghost d0 = disk@;
    let mut cur: usize = cur_leaf;
    let mut nxt: usize = next;
    let mut i: usize = 0;
    proof {
        lemma_growing_begin(
            d0,
            blocks@,
            next as int,
            block_id,
            cur_leaf as int,
            src_leaf as int,
            dst_leaf as int,
            h,
        );
    }
    while i < 128 && cur < dst_leaf
        invariant
            cur_depth < dst_depth <= MAX_HEIGHT,
            h == dst_depth - cur_depth,
            i <= 128,
            growing(
                d0,
                disk@,
                blocks@,
                next as int,
                block_id,
                cur_leaf as int,
                src_leaf as int,
                dst_leaf as int,
                h,
                i as int,
                cur as int,
                nxt as int,
            ),
        decreases 128 - i,
    {
        let res = if cur >= src_leaf {
            fill_new_child(
                disk,
                blocks,
                nxt,
                block_id,
                i,
                cur,
                src_leaf,
                dst_leaf,
                cur_depth,
                dst_depth,
                Ghost(d0),
                Ghost(next as int),
                Ghost(cur_leaf as int),
            )
        } else {
            fill_old_child(
                disk,
                blocks,
                nxt,
                block_id,
                i,
                cur,
                src_leaf,
                dst_leaf,
                cur_depth,
                dst_depth,
                Ghost(d0),
                Ghost(next as int),
                Ghost(cur_leaf as int),
            )
        };
        cur = res.0;
        nxt = res.1;
        i += 1;
    }
    proof {
        lemma_growing_facts(
            d0,
            disk@,
            blocks@,
            next as int,
            block_id,
            cur_leaf as int,
            src_leaf as int,
            dst_leaf as int,
            h,
            i as int,
            cur as int,
            nxt as int,
        );
        lemma_built_listing(
            d0,
            disk@,
            block_id,
            h,
            m_src,
            m_dst,
            blocks@.subrange(next as int, next + growth(h, m_src, m_dst)),
        );
    }
    (cur, nxt)
}

/// Position in the listing of a tree of height `h` of the index block
/// through which the lookup of leaf `j` passes at `level` lookups from the
/// root (1 for the child of the root).
pub open spec fn path_pos(h: nat, level: nat, j: int) -> int {
    if h == 2 {
        129 * (j / 128)
    } else if level <= 1 {
        16513 * (j / 16384)
    } else {
        16513 * (j / 16384) + 1 + 129 * (j % 16384 / 128)
    }
}

/// The chained lookups of leaf `j` in a tree of height 1 end at position `j`
/// of the listing.
pub proof fn lemma_leaf_1(d: Seq<Seq<u8>>, b: u32, j: int, n: int)
    requires
        0 <= j < n <= 128,
    ensures
        leaf_at(d, b, 1, j) == node_at(d, b, 1, leaf_pos(1, j)),
        0 <= leaf_pos(1, j) < tree_len(1, n),
        !is_index_pos(1, leaf_pos(1, j)),
{
}

/// The chained lookups of leaf `j` in a tree of height 2 pass through a
/// block of the listing and end in one.
pub proof fn lemma_leaf_2(d: Seq<Seq<u8>>, b: u32, j: int, n: int)
    requires
        0 <= j < n <= 16384,
    ensures
        leaf_at(d, b, 2, j) == node_at(d, b, 2, leaf_pos(2, j)),
        ptr(d, b, j / 128) == node_at(d, b, 2, path_pos(2, 1, j)),
        0 <= path_pos(2, 1, j) < leaf_pos(2, j) < tree_len(2, n),
        !is_index_pos(2, leaf_pos(2, j)),
        is_index_pos(2, path_pos(2, 1, j)),
{
    reveal_with_fuel(node_at, 2);
    let g = j / 128;
    let p = leaf_pos(2, j);
    assert(p == 129 * g + 1 + j % 128);
    assert(p % 129 == 1 + j % 128 && p / 129 == g);
    assert((129 * g) % 129 == 0 && (129 * g) / 129 == g);
}

/// The chained lookups of leaf `j` in a tree of height 3 pass through two
/// blocks of the listing and end in one.
pub proof fn lemma_leaf_3(d: Seq<Seq<u8>>, b: u32, j: int, n: int)
    requires
        0 <= j < n <= 2097152,
    ensures
        leaf_at(d, b, 3, j) == node_at(d, b, 3, leaf_pos(3, j)),
        ptr(d, b, j / 16384) == node_at(d, b, 3, path_pos(3, 1, j)),
        ptr(d, ptr(d, b, j / 16384), j % 16384 / 128) == node_at(d, b, 3, path_pos(3, 2, j)),
        0 <= path_pos(3, 1, j) < path_pos(3, 2, j) < leaf_pos(3, j) < tree_len(3, n),
        !is_index_pos(3, leaf_pos(3, j)),
        is_index_pos(3, path_pos(3, 1, j)),
        is_index_pos(3, path_pos(3, 2, j)),
{
    reveal_with_fuel(node_at, 3);
    let g = j / 16384;
    let r = j % 16384;
    let c = ptr(d, b, g);
    let at_child = 16513 * g;
    let at_grandchild = at_child + 1 + 129 * (r / 128);
    let at_leaf = leaf_pos(3, j);
    assert(j / 128 == 128 * g + r / 128);
    assert(at_leaf == at_grandchild + 1 + r % 128);
    assert(at_child % 16513 == 0 && at_child / 16513 == g);
    assert(at_grandchild % 16513 == 1 + 129 * (r / 128) && at_grandchild / 16513 == g);
    assert(at_leaf % 16513 == 1 + 129 * (r / 128) + 1 + r % 128 && at_leaf / 16513 == g);
    lemma_leaf_2(d, c, r, 16384);
    assert(node_at(d, b, 3, at_grandchild) == node_at(d, c, 2, path_pos(2, 1, r)));
    assert(node_at(d, b, 3, at_leaf) == node_at(d, c, 2, leaf_pos(2, r)));
    assert((129 * (r / 128)) % 129 == 0);
    assert((129 * (r / 128) + 1 + r % 128) % 129 == 1 + r % 128);
}

} // verus!
