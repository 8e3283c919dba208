//! What holds of the inode across its operations.

use vstd::prelude::*;
use vstd::utf8::{decode_utf8, encode_utf8};
use crate::dir_entry::{DirEntry, DIRENT_SZ, NAME_LENGTH_LIMIT};
use crate::inode::{data_blocks_of, index_blocks_of, total_blocks_of, DiskInode, MAX_DATA_BLOCKS};

verus! {

/// The blocks of the first `n` growths, one after the other.
pub open spec fn taken(ids: Seq<Seq<u32>>, n: nat) -> Seq<u32>
    decreases n,
{
    if n == 0 {
        Seq::empty()
    } else {
        taken(ids, (n - 1) as nat) + ids[n - 1]
    }
}

/// The block count of a size is the number of its data blocks and of the
/// index blocks that lead to them, and an inode of that size owns exactly
/// that many blocks.
pub proof fn law_total_blocks(inode: DiskInode, d: Seq<Seq<u8>>)
    requires
        inode.blocks() <= MAX_DATA_BLOCKS,
    ensures
        total_blocks_of(inode.size) >= data_blocks_of(inode.size),
        total_blocks_of(inode.size) - data_blocks_of(inode.size) == index_blocks_of(
            data_blocks_of(inode.size),
        ),
        inode.owned(d).len() == total_blocks_of(inode.size),
{
    inode.lemma_owned_at(d);
}

/// An inode that has grown step by step from size 0 owns exactly the blocks
/// that the growths were given, in the order in which they were given, and
/// none of them twice: this is what `clear_size` then hands back.
pub proof fn law_growth_then_truncation(
    inodes: Seq<DiskInode>,
    disks: Seq<Seq<Seq<u8>>>,
    ids: Seq<Seq<u32>>,
)
    requires
        inodes.len() == ids.len() + 1,
        disks.len() == ids.len() + 1,
        inodes[0].size == 0,
        forall|i: int|
            0 <= i < ids.len() ==> #[trigger] inodes[i].grown(
                disks[i],
                &inodes[i + 1],
                disks[i + 1],
                ids[i],
            ),
    ensures
        inodes.last().owned(disks.last()) == taken(ids, ids.len()),
        taken(ids, ids.len()).no_duplicates(),
        inodes.last().owned(disks.last()).to_set() == taken(ids, ids.len()).to_set(),
{
    lemma_grown_upto(inodes, disks, ids, ids.len());
    if ids.len() > 0 {
        assert(inodes[ids.len() - 1].grown(
            disks[ids.len() - 1],
            &inodes[ids.len() - 1 + 1],
            disks[ids.len() - 1 + 1],
            ids[ids.len() - 1],
        ));
    }
}

/// After the first `n` growths the inode owns the blocks of those growths.
proof fn lemma_grown_upto(
    inodes: Seq<DiskInode>,
    disks: Seq<Seq<Seq<u8>>>,
    ids: Seq<Seq<u32>>,
    n: nat,
)
    requires
        inodes.len() == ids.len() + 1,
        disks.len() == ids.len() + 1,
        inodes[0].size == 0,
        n <= ids.len(),
        forall|i: int|
            0 <= i < ids.len() ==> #[trigger] inodes[i].grown(
                disks[i],
                &inodes[i + 1],
                disks[i + 1],
                ids[i],
            ),
    ensures
        inodes[n as int].owned(disks[n as int]) == taken(ids, n),
    decreases n,
{
    if n == 0 {
        law_clear_size_twice(inodes[0], disks[0]);
    } else {
        lemma_grown_upto(inodes, disks, ids, (n - 1) as nat);
        assert(inodes[n - 1].grown(disks[n - 1], &inodes[n - 1 + 1], disks[n - 1 + 1], ids[n - 1]));
    }
}

/// An inode of size 0 owns no block, whatever the disk holds: `clear_size`
/// leaves the size 0, so a second call hands back nothing and leaves it 0.
pub proof fn law_clear_size_twice(inode: DiskInode, d: Seq<Seq<u8>>)
    requires
        inode.size == 0,
    ensures
        inode.owned(d) == Seq::<u32>::empty(),
{
    assert(inode.owned(d) =~= Seq::<u32>::empty());
}

/// A directory entry made of a name and an inode number, written out as 32
/// bytes and read back, gives the name and the number again. The name has at
/// most 27 bytes and holds no 0 byte.
pub proof fn law_dir_entry_round_trip(entry: DirEntry, back: DirEntry, name: Seq<char>, n: u32)
    requires
        entry.holds(name, n),
        encode_utf8(name).len() <= NAME_LENGTH_LIMIT,
        forall|i: int| 0 <= i < encode_utf8(name).len() ==> encode_utf8(name)[i] != 0,
        back.is_from(entry.bytes()),
    ensures
        entry.bytes().len() == DIRENT_SZ,
        back.has_name(),
        decode_utf8(back.name_bytes()) == name,
        back.inode_number == n,
{
    entry.lemma_bytes_round_trip(&back);
    assert(back.holds(name, n));
    back.lemma_name_of(name, n);
}

} // verus!
