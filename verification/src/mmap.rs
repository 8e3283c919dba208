//! File-backed memory mappings: which parts of which file a task has mapped
//! at which addresses, which pages hold them, and what must be written back.

use std::collections::{BTreeMap, BTreeSet};
use vstd::prelude::*;
use vstd::laws_cmp::group_laws_cmp;
use vstd::std_specs::btree::{group_btree_axioms, increasing_seq};
use vstd::std_specs::cmp::OrdSpec;
use vstd::std_specs::iter::IteratorSpec;

verus! {

broadcast use {group_btree_axioms, group_laws_cmp};

/// In an increasing sequence, what stands earlier is less.
proof fn lemma_increasing<K: Ord>(s: Seq<K>, i: int, j: int)
    requires
        vstd::laws_cmp::obeys_cmp::<K>(),
        increasing_seq(s),
        0 <= i < j < s.len(),
    ensures
        s[i].cmp_spec(&s[j]) is Less,
{
}

/// The items of a set of numbers come out in increasing order.
proof fn lemma_ascending(s: Seq<&usize>, i: int, j: int)
    requires
        increasing_seq(s),
        0 <= i < j < s.len(),
    ensures
        *s[i] < *s[j],
{
    lemma_increasing::<&usize>(s, i, j);
}

/// Size of a page in bytes.
pub const PAGE_SIZE: usize = 4096;

/// The greatest multiple of the page size that is not above `a`.
pub open spec fn page_floor(a: int) -> int {
    a - a % 4096
}

/// The smallest multiple of the page size that is not below `a`.
pub open spec fn page_ceil(a: int) -> int {
    if a % 4096 == 0 {
        a
    } else {
        a - a % 4096 + 4096
    }
}

/// A naive linear virtual address space allocator.
pub struct VirtualAddressAllocator {
    /// The first address that was not handed out: a page boundary, where
    /// the base was one.
    pub cur_va: usize,
}

impl VirtualAddressAllocator {
    /// Create a new allocator with the given base virtual address.
    pub fn new(base: usize) -> (a: Self)
        ensures
            a.cur_va == base,
    {
        VirtualAddressAllocator { cur_va: base }
    }

    /// Allocate a virtual address area of `len` bytes: it begins where the
    /// last one ended, and the next one begins at the page boundary after
    /// it.
    pub fn allocate(&mut self, len: usize) -> (start: usize)
        requires
            old(self).cur_va + len + PAGE_SIZE <= usize::MAX,
        ensures
            start == old(self).cur_va,
            final(self).cur_va == page_ceil(old(self).cur_va + len),
    {
        let start = self.cur_va;
        let end = self.cur_va + len;
        let rest = end % PAGE_SIZE;
        self.cur_va = if rest == 0 {
            end
        } else {
            end - rest + PAGE_SIZE
        };
        start
    }
}

/// What a task may do with a mapped page.
#[derive(Clone, Copy, Debug, PartialEq, Eq, Structural)]
pub struct MapPermission {
    /// The page may be read.
    pub r: bool,
    /// The page may be written.
    pub w: bool,
    /// The page may be executed.
    pub x: bool,
    /// The page belongs to the user's address space.
    pub u: bool,
}

/// One mapped area: `len` bytes of a file from `offset` on, at the address
/// `start`.
#[derive(Clone, Copy, Debug)]
pub struct MapRange {
    /// First address of the area.
    pub start: usize,
    /// Length of the area in bytes.
    pub len: usize,
    /// Offset in the file of the first byte of the area.
    pub offset: usize,
    /// What the task may do with the area.
    pub perm: MapPermission,
}

impl MapRange {
    /// Whether the address `va` lies in the area.
    pub open spec fn covers(&self, va: usize) -> bool {
        self.start <= va < self.start + self.len
    }

    /// The area begins at a page boundary, and neither its addresses nor
    /// its file offsets pass the greatest number.
    pub open spec fn wf(&self) -> bool {
        &&& self.start % 4096 == 0
        &&& self.start + self.len <= usize::MAX
        &&& self.offset + self.len + PAGE_SIZE <= usize::MAX
    }

    /// Offset in the file of the page that holds the address `va` of the
    /// area.
    pub open spec fn page_offset(&self, va: usize) -> int {
        page_floor(va as int) - self.start + self.offset
    }

    /// Number of bytes of the page at file offset `offset` that the area
    /// maps: none where the area does not hold that offset.
    pub open spec fn span(&self, offset: usize) -> int {
        if self.offset <= offset < self.offset + self.len {
            if self.offset + self.len - offset < PAGE_SIZE {
                self.offset + self.len - offset
            } else {
                PAGE_SIZE as int
            }
        } else {
            0
        }
    }

    pub fn new(start: usize, len: usize, offset: usize, perm: MapPermission) -> (r: Self)
        ensures
            r == (MapRange { start, len, offset, perm }),
    {
        MapRange { start, len, offset, perm }
    }

    /// Whether the address `va` lies in the area.
    pub fn contains(&self, va: usize) -> (r: bool)
        ensures
            r == self.covers(va),
    {
        self.start <= va && va - self.start < self.len
    }

    /// Offset in the file of the page that holds the address `va` of the
    /// area.
    pub fn offset_of(&self, va: usize) -> (r: usize)
        requires
            self.wf(),
            self.covers(va),
        ensures
            r == self.page_offset(va),
    {
        let vpn = va / PAGE_SIZE;
        assert(vpn * PAGE_SIZE == page_floor(va as int));
        assert(self.start <= vpn * PAGE_SIZE) by {
            assert(self.start % 4096 == 0);
            assert(self.start <= va);
        }
        self.file_offset(vpn)
    }

    /// Distance of page number `vpn` from the start of the area.
    pub fn va_offset(&self, vpn: usize) -> (r: usize)
        requires
            self.start <= vpn * PAGE_SIZE <= usize::MAX,
        ensures
            r == vpn * PAGE_SIZE - self.start,
    {
        vpn * PAGE_SIZE - self.start
    }

    /// Offset in the file of page number `vpn`.
    pub fn file_offset(&self, vpn: usize) -> (r: usize)
        requires
            self.start <= vpn * PAGE_SIZE <= usize::MAX,
            vpn * PAGE_SIZE - self.start + self.offset <= usize::MAX,
        ensures
            r == vpn * PAGE_SIZE - self.start + self.offset,
    {
        self.va_offset(vpn) + self.offset
    }
}

/// Whether `i` is the number of the first of `ranges` that holds the address
/// `va`.
pub open spec fn is_first_range(ranges: Seq<MapRange>, va: usize, i: int) -> bool {
    &&& 0 <= i < ranges.len()
    &&& ranges[i].covers(va)
    &&& forall|j: int| 0 <= j < i ==> !(#[trigger] ranges[j]).covers(va)
}

/// Whether one of `ranges` holds the address `va`.
pub open spec fn some_range_covers(ranges: Seq<MapRange>, va: usize) -> bool {
    exists|i: int| 0 <= i < ranges.len() && (#[trigger] ranges[i]).covers(va)
}

/// The greatest number of bytes of the page at file offset `offset` that
/// one of the first `n` of `ranges` maps.
pub open spec fn span_upto(ranges: Seq<MapRange>, offset: usize, n: nat) -> int
    decreases n,
{
    if n == 0 {
        0
    } else {
        let rest = span_upto(ranges, offset, (n - 1) as nat);
        let last = ranges[n - 1].span(offset);
        if last > rest {
            last
        } else {
            rest
        }
    }
}

/// A page that must be written back: `len` bytes of the frame `ppn` belong
/// at `offset` in the file.
#[derive(Clone, Copy, Debug, PartialEq, Eq, Structural)]
pub struct WriteBack {
    pub offset: usize,
    pub ppn: usize,
    pub len: usize,
}

/// Structure to describe the mappings of one file.
pub struct FileMapping {
    /// The file that is mapped.
    pub file: usize,
    /// The mapped areas, in the order in which they were made.
    pub ranges: Vec<MapRange>,
    /// The frames that hold pages of the file, in the order in which they
    /// were taken.
    pub frames: Vec<usize>,
    /// File offsets of the pages that need writing back.
    pub dirty_parts: BTreeSet<usize>,
    /// The frame that holds the page at each file offset.
    pub map: BTreeMap<usize, usize>,
}

impl FileMapping {
    /// Every area is well formed, and every page that needs writing back
    /// has a frame.
    pub open spec fn wf(&self) -> bool {
        &&& forall|i: int| 0 <= i < self.ranges@.len() ==> (#[trigger] self.ranges@[i]).wf()
        &&& forall|o: usize| self.dirty_parts@.contains(o) ==> self.map@.contains_key(o)
    }

    /// A description of the mappings of `file`, with no area yet.
    pub fn new_empty(file: usize) -> (m: Self)
        ensures
            m.file == file,
            m.ranges@ == Seq::<MapRange>::empty(),
            m.frames@ == Seq::<usize>::empty(),
            m.dirty_parts@ == Set::<usize>::empty(),
            m.map@ == Map::<usize, usize>::empty(),
            m.wf(),
    {
        FileMapping {
            file,
            ranges: Vec::new(),
            frames: Vec::new(),
            dirty_parts: BTreeSet::new(),
            map: BTreeMap::new(),
        }
    }

    /// Adds an area.
    pub fn push(&mut self, start: usize, len: usize, offset: usize, perm: MapPermission)
        ensures
            final(self).ranges@ == old(self).ranges@.push(MapRange { start, len, offset, perm }),
            final(self).file == old(self).file,
            final(self).frames == old(self).frames,
            final(self).dirty_parts == old(self).dirty_parts,
            final(self).map == old(self).map,
            old(self).wf() && (MapRange { start, len, offset, perm }).wf() ==> final(self).wf(),
    {
        self.ranges.push(MapRange::new(start, len, offset, perm));
    }

    /// Number of the first area that holds the address `va`, if there is
    /// one.
    pub fn find_range(&self, va: usize) -> (r: Option<usize>)
        ensures
            r is Some <==> some_range_covers(self.ranges@, va),
            r matches Some(i) ==> is_first_range(self.ranges@, va, i as int),
    {
        let mut i: usize = 0;
        while i < self.ranges.len()
            invariant
                i <= self.ranges@.len(),
                forall|j: int| 0 <= j < i ==> !(#[trigger] self.ranges@[j]).covers(va),
            decreases self.ranges@.len() - i,
        {
            if self.ranges[i].contains(va) {
                return Some(i);
            }
            i += 1;
        }
        None
    }

    /// Check whether a virtual address belongs to this mapping.
    pub fn contains(&self, va: usize) -> (r: bool)
        ensures
            r == some_range_covers(self.ranges@, va),
    {
        self.find_range(va).is_some()
    }

    /// Whether a frame must be handed to `map` for the address `va`: an
    /// area holds the address, and the page of the file that belongs there
    /// has no frame yet.
    pub open spec fn wants_frame(&self, va: usize) -> bool {
        exists|i: int|
            #![trigger self.ranges@[i]]
            is_first_range(self.ranges@, va, i) && !self.map@.contains_key(
                self.ranges@[i].page_offset(va) as usize,
            )
    }

    /// Whether a frame must be handed to `map` for the address `va`.
    pub fn needs_frame(&self, va: usize) -> (r: bool)
        requires
            self.wf(),
        ensures
            r == self.wants_frame(va),
    {
        match self.find_range(va) {
            Some(i) => {
                let range = &self.ranges[i];
                let offset = range.offset_of(va);
                proof {
                    assert forall|j: int| is_first_range(self.ranges@, va, j) implies j == i by {}
                }
                !self.map.contains_key(&offset)
            },
            None => false,
        }
    }

    /// What `map` does: `post` is this description after the address `va`
    /// was mapped, `frame` the frame that was offered, and `r` what was
    /// returned. Nothing is returned and nothing changes where no area
    /// holds the address. Else the first area that holds it is returned,
    /// with the frame of the page of the file that belongs there and
    /// whether the page had that frame already; where it had none, the
    /// frame offered is now its frame; and where the area may be written,
    /// the page needs writing back.
    #[verifier::opaque]
    pub open spec fn mapped(
        &self,
        post: &FileMapping,
        va: usize,
        frame: Option<usize>,
        r: Option<(usize, MapRange, bool)>,
    ) -> bool {
        &&& post.file == self.file
        &&& post.ranges == self.ranges
        &&& r is Some <==> some_range_covers(self.ranges@, va)
        &&& r is None ==> *post == *self
        &&& r matches Some((ppn, range, shared)) ==> exists|i: int|
            #![trigger self.ranges@[i]]
            {
                let offset = self.ranges@[i].page_offset(va) as usize;
                &&& is_first_range(self.ranges@, va, i)
                &&& range == self.ranges@[i]
                &&& shared == self.map@.contains_key(offset)
                &&& shared ==> ppn == self.map@[offset] && post.map@ == self.map@ && post.frames@
                    == self.frames@
                &&& !shared ==> Some(ppn) == frame && post.map@ == self.map@.insert(offset, ppn)
                    && post.frames@ == self.frames@.push(ppn)
                &&& post.dirty_parts@ == (if range.perm.w {
                    self.dirty_parts@.insert(offset)
                } else {
                    self.dirty_parts@
                })
            }
    }

    /// `map` returns something exactly where an area holds the address.
    pub proof fn lemma_mapped_some(
        &self,
        post: &FileMapping,
        va: usize,
        frame: Option<usize>,
        r: Option<(usize, MapRange, bool)>,
    )
        requires
            self.mapped(post, va, frame, r),
        ensures
            r is Some <==> some_range_covers(self.ranges@, va),
    {
        reveal(FileMapping::mapped);
    }

    /// The area that `map` returns is a well-formed area of the mapping that
    /// holds the address.
    pub proof fn lemma_mapped_range(
        &self,
        post: &FileMapping,
        va: usize,
        frame: Option<usize>,
        ppn: usize,
        range: MapRange,
        shared: bool,
    )
        requires
            self.wf(),
            self.mapped(post, va, frame, Some((ppn, range, shared))),
        ensures
            range.wf(),
            range.covers(va),
            post.file == self.file,
            post.ranges == self.ranges,
            some_range_covers(self.ranges@, va),
    {
        reveal(FileMapping::mapped);
    }

    /// Create the mapping for the virtual address `va`: the frame of the
    /// page of the file that belongs there, the area that holds the
    /// address, and whether the page had a frame already. Where it had
    /// none, `frame` becomes its frame. A page in an area that may be
    /// written needs writing back from now on.
    pub fn map(&mut self, va: usize, frame: Option<usize>) -> (r: Option<(usize, MapRange, bool)>)
        requires
            old(self).wf(),
            old(self).wants_frame(va) ==> frame is Some,
        ensures
            final(self).wf(),
            old(self).mapped(final(self), va, frame, r),
    {
        reveal(FileMapping::mapped);
        let found = self.find_range(va);
        match found {
            None => None,
            Some(i) => {
                let range = self.ranges[i];
                let offset = range.offset_of(va);
                proof {
                    assert forall|j: int| is_first_range(self.ranges@, va, j) implies j == i by {}
                }
                let known = match self.map.get(&offset) {
                    Some(ppn) => Some(*ppn),
                    None => None,
                };
                let (ppn, shared) = match known {
                    Some(ppn) => (ppn, true),
                    None => {
                        assert(self.wants_frame(va));
                        let ppn = frame.unwrap();
                        self.frames.push(ppn);
                        self.map.insert(offset, ppn);
                        (ppn, false)
                    },
                };
                if range.perm.w {
                    self.dirty_parts.insert(offset);
                }
                assert(is_first_range(old(self).ranges@, va, i as int));
                Some((ppn, range, shared))
            },
        }
    }

    /// The greatest number of bytes of the page at file offset `offset`
    /// that one area maps.
    pub fn mapped_len(&self, offset: usize) -> (len: usize)
        requires
            self.wf(),
        ensures
            len == span_upto(self.ranges@, offset, self.ranges@.len()),
            len <= PAGE_SIZE,
    {
        let mut len: usize = 0;
        let mut i: usize = 0;
        while i < self.ranges.len()
            invariant
                i <= self.ranges@.len(),
                self.wf(),
                len == span_upto(self.ranges@, offset, i as nat),
                len <= PAGE_SIZE,
            decreases self.ranges@.len() - i,
        {
            let r = &self.ranges[i];
            assert(r.wf());
            let here = if r.offset <= offset && offset - r.offset < r.len {
                let left = r.len - (offset - r.offset);
                if left < PAGE_SIZE {
                    left
                } else {
                    PAGE_SIZE
                }
            } else {
                0
            };
            assert(here == r.span(offset));
            if here > len {
                len = here;
            }
            i += 1;
        }
        len
    }

    /// What to write back of all dirty pages to a file of `file_size` bytes:
    /// for each page that needs writing back and begins within the file, in
    /// the order of their offsets, its offset, its frame and the number of
    /// bytes, which is what one area maps of the page at most and does not
    /// reach past the end of the file.
    pub fn sync(&self, file_size: usize) -> (writes: Vec<WriteBack>)
        requires
            self.wf(),
        ensures
            forall|k: int|
                0 <= k < writes@.len() ==> {
                    let w = #[trigger] writes@[k];
                    &&& self.dirty_parts@.contains(w.offset)
                    &&& w.offset < file_size
                    &&& w.ppn == self.map@[w.offset]
                    &&& w.len == (if span_upto(self.ranges@, w.offset, self.ranges@.len())
                        < file_size - w.offset {
                        span_upto(self.ranges@, w.offset, self.ranges@.len())
                    } else {
                        file_size - w.offset
                    })
                },
            forall|o: usize|
                self.dirty_parts@.contains(o) && o < file_size ==> exists|k: int|
                    0 <= k < writes@.len() && (#[trigger] writes@[k]).offset == o,
            forall|j: int, k: int|
                0 <= j < k < writes@.len() ==> (#[trigger] writes@[j]).offset < (
                #[trigger] writes@[k]).offset,
    {
        let mut writes: Vec<WriteBack> = Vec::new();
        let ghost all = self.dirty_parts.iter().remaining();
        for offset in iter: self.dirty_parts.iter()
            invariant
                self.wf(),
                iter.seq() == all,
                all == self.dirty_parts.iter().remaining(),
                forall|k: int|
                    0 <= k < writes@.len() ==> {
                        let w = #[trigger] writes@[k];
                        &&& w.offset < file_size
                        &&& w.ppn == self.map@[w.offset]
                        &&& w.len == (if span_upto(self.ranges@, w.offset, self.ranges@.len())
                            < file_size - w.offset {
                            span_upto(self.ranges@, w.offset, self.ranges@.len())
                        } else {
                            file_size - w.offset
                        })
                        &&& exists|i: int| 0 <= i < iter.index() && *all[i] == w.offset
                    },
                forall|i: int|
                    0 <= i < iter.index() && *all[i] < file_size ==> exists|k: int|
                        0 <= k < writes@.len() && (#[trigger] writes@[k]).offset == *all[i],
                forall|j: int, k: int|
                    0 <= j < k < writes@.len() ==> (#[trigger] writes@[j]).offset < (
                    #[trigger] writes@[k]).offset,
        {
            let offset = *offset;
            let ghost before = writes@;
            proof {
                assert(all.unref().to_set().contains(offset)) by {
                    assert(all.unref()[iter.index()] == offset);
                }
                assert(self.dirty_parts@.contains(offset));
            }
            if offset < file_size {
                let ppn = match self.map.get(&offset) {
                    Some(ppn) => *ppn,
                    None => 0,
                };
                let va_len = self.mapped_len(offset);
                let len = if va_len < file_size - offset {
                    va_len
                } else {
                    file_size - offset
                };
                proof {
                    assert forall|k: int| 0 <= k < before.len() implies before[k].offset
                        < offset by {
                        let i = choose|i: int| 0 <= i < iter.index() && *all[i] == before[k].offset;
                        lemma_ascending(all, i, iter.index());
                    }
                }
                writes.push(WriteBack { offset, ppn, len });
                assert(writes@[before.len() as int].offset == offset);
            }
            proof {
                assert forall|i: int| 0 <= i < iter.index() + 1 && *all[i] < file_size implies exists|
                    k: int,
                |
                    0 <= k < writes@.len() && (#[trigger] writes@[k]).offset == *all[i] by {
                    if i < iter.index() {
                        let k = choose|k: int|
                            0 <= k < before.len() && (#[trigger] before[k]).offset == *all[i];
                        assert(writes@[k].offset == *all[i]);
                    } else {
                        assert(writes@[before.len() as int].offset == *all[i]);
                    }
                }
            }
        }
        proof {
            assert forall|o: usize| self.dirty_parts@.contains(o) && o < file_size implies exists|
                k: int,
            |
                0 <= k < writes@.len() && (#[trigger] writes@[k]).offset == o by {
                assert(all.unref().to_set().contains(o));
                let i = choose|i: int| 0 <= i < all.unref().len() && all.unref()[i] == o;
                assert(*all[i] == o);
            }
            assert forall|k: int| 0 <= k < writes@.len() implies self.dirty_parts@.contains(
                (#[trigger] writes@[k]).offset,
            ) by {
                let w = writes@[k];
                let i = choose|i: int| 0 <= i < all.len() && *all[i] == w.offset;
                assert(all.unref()[i] == w.offset);
                assert(all.unref().to_set().contains(w.offset));
            }
        }
        writes
    }
}

} // verus!
