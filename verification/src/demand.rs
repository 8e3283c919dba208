//! The system call that maps a file into the address space of a task, and
//! the page faults that bring its pages in on demand.

use vstd::prelude::*;
use crate::mmap::{
    page_ceil, some_range_covers, FileMapping, MapPermission, MapRange, VirtualAddressAllocator,
    PAGE_SIZE,
};

verus! {

/// What a file descriptor of a regular file stands for.
#[derive(Clone, Copy, Debug)]
pub struct FileInfo {
    /// The file.
    pub file: usize,
    /// Length of the file in bytes.
    pub size: usize,
    /// Whether the descriptor was opened for reading.
    pub readable: bool,
    /// Whether the descriptor was opened for writing.
    pub writable: bool,
}

/// The permission of a mapping of a file: the user may read and write it as
/// far as the descriptor allows.
pub fn parse_permission(readable: bool, writable: bool) -> (perm: MapPermission)
    ensures
        perm == (MapPermission { r: readable, w: writable, x: false, u: true }),
{
    MapPermission { r: readable, w: writable, x: false, u: true }
}

/// Whether `i` is the number of the first of `mappings` that describes
/// `file`.
pub open spec fn is_first_mapping_of(mappings: Seq<FileMapping>, file: usize, i: int) -> bool {
    &&& 0 <= i < mappings.len()
    &&& mappings[i].file == file
    &&& forall|j: int| 0 <= j < i ==> (#[trigger] mappings[j]).file != file
}

/// Number of the first of `mappings` that describes `file`, if there is one.
pub fn find_file_mapping(mappings: &Vec<FileMapping>, file: usize) -> (r: Option<usize>)
    ensures
        r matches Some(i) ==> is_first_mapping_of(mappings@, file, i as int),
        r is None ==> forall|j: int| 0 <= j < mappings@.len() ==> (#[trigger] mappings@[j]).file
            != file,
{
    let mut i: usize = 0;
    while i < mappings.len()
        invariant
            i <= mappings@.len(),
            forall|j: int| 0 <= j < i ==> (#[trigger] mappings@[j]).file != file,
        decreases mappings@.len() - i,
    {
        if mappings[i].file == file {
            return Some(i);
        }
        i += 1;
    }
    None
}

/// Whether a request to map `len` bytes from `offset` on of what a file
/// descriptor stands for is refused: the length is 0, the offset is no
/// multiple of the page size, the descriptor is no regular file, or the
/// offset is not within the file.
pub open spec fn mmap_refused(file: Option<FileInfo>, len: usize, offset: usize) -> bool {
    ||| len == 0
    ||| offset % PAGE_SIZE != 0
    ||| file is None
    ||| offset >= file->Some_0.size
}

/// Maps `len` bytes of a file, from `offset` on, into the address space of
/// a task. `file` is what the file descriptor stands for, or nothing where
/// it is not open or no regular file. Returns -1 where the request is
/// refused, and then nothing is changed. Else the area is allocated,
/// recorded with the mappings of the file, and its first address is
/// returned.
pub fn sys_mmap(
    allocator: &mut VirtualAddressAllocator,
    mappings: &mut Vec<FileMapping>,
    file: Option<FileInfo>,
    len: usize,
    offset: usize,
) -> (r: isize)
    requires
        old(allocator).cur_va % 4096 == 0,
        old(allocator).cur_va + len + PAGE_SIZE <= isize::MAX,
        offset + len + PAGE_SIZE <= usize::MAX,
        forall|i: int| 0 <= i < old(mappings)@.len() ==> (#[trigger] old(mappings)@[i]).wf(),
    ensures
        forall|i: int| 0 <= i < final(mappings)@.len() ==> (#[trigger] final(mappings)@[i]).wf(),
        final(allocator).cur_va % 4096 == 0,
        mmap_refused(file, len, offset) ==> r == -1 && *final(allocator) == *old(allocator)
            && *final(mappings) == *old(mappings),
        !mmap_refused(file, len, offset) ==> {
            let info = file->Some_0;
            let range = MapRange {
                start: old(allocator).cur_va,
                len,
                offset,
                perm: MapPermission { r: info.readable, w: info.writable, x: false, u: true },
            };
            &&& r == old(allocator).cur_va
            &&& final(allocator).cur_va == page_ceil(old(allocator).cur_va + len)
            &&& (exists|i: int| #[trigger]
                is_first_mapping_of(old(mappings)@, info.file, i)) ==> exists|i: int|
                {
                    &&& #[trigger] is_first_mapping_of(old(mappings)@, info.file, i)
                    &&& final(mappings)@.len() == old(mappings)@.len()
                    &&& forall|j: int|
                        0 <= j < old(mappings)@.len() && j != i ==> final(mappings)@[j] == old(
                            mappings,
                        )@[j]
                    &&& final(mappings)@[i].file == info.file
                    &&& final(mappings)@[i].ranges@ == old(mappings)@[i].ranges@.push(range)
                    &&& final(mappings)@[i].frames == old(mappings)@[i].frames
                    &&& final(mappings)@[i].dirty_parts == old(mappings)@[i].dirty_parts
                    &&& final(mappings)@[i].map == old(mappings)@[i].map
                }
            &&& !(exists|i: int| #[trigger]
                is_first_mapping_of(old(mappings)@, info.file, i)) ==> {
                &&& final(mappings)@.len() == old(mappings)@.len() + 1
                &&& forall|j: int|
                    0 <= j < old(mappings)@.len() ==> final(mappings)@[j] == old(mappings)@[j]
                &&& final(mappings)@.last().file == info.file
                &&& final(mappings)@.last().ranges@ == seq![range]
                &&& final(mappings)@.last().frames@ == Seq::<usize>::empty()
                &&& final(mappings)@.last().dirty_parts@ == Set::<usize>::empty()
                &&& final(mappings)@.last().map@ == Map::<usize, usize>::empty()
            }
        },
{
    if len == 0 {
        // invalid length
        return -1;
    }
    if offset % PAGE_SIZE != 0 {
        // offset must be page size aligned
        return -1;
    }
    let info = match file {
        Some(info) => info,
        None => {
            // must be a regular file
            return -1;
        },
    };
    if offset >= info.size {
        // file offset exceeds size limit
        return -1;
    }
    let perm = parse_permission(info.readable, info.writable);
    let start = allocator.allocate(len);
    match find_file_mapping(mappings, info.file) {
        Some(i) => {
            mappings[i].push(start, len, offset, perm);
        },
        None => {
            let mut m = FileMapping::new_empty(info.file);
            m.push(start, len, offset, perm);
            mappings.push(m);
            assert(final(mappings)@.last().ranges@ =~= seq![MapRange { start, len, offset, perm }]);
        },
    }
    start as isize
}

/// What mends a page fault: the frame to map at the page of the fault, the
/// permission to map it with, and, where the frame is new, the file and the
/// offset in it of the page that must be loaded into the frame.
#[derive(Clone, Copy, Debug)]
pub struct PageFix {
    pub ppn: usize,
    pub perm: MapPermission,
    pub load: Option<(usize, usize)>,
}

/// Whether `i` is the number of the first of `mappings` with an area that
/// holds the address `va`.
#[verifier::opaque]
pub open spec fn is_first_mapping_at(mappings: Seq<FileMapping>, va: usize, i: int) -> bool {
    &&& 0 <= i < mappings.len()
    &&& some_range_covers(mappings[i].ranges@, va)
    &&& forall|j: int| 0 <= j < i ==> !some_range_covers((#[trigger] mappings[j]).ranges@, va)
}

/// Whether one of `mappings` has an area that holds the address `va`.
#[verifier::opaque]
pub open spec fn some_mapping_covers(mappings: Seq<FileMapping>, va: usize) -> bool {
    exists|i: int| 0 <= i < mappings.len() && some_range_covers((#[trigger] mappings[i]).ranges@, va)
}

/// Number of the first of `mappings` with an area that holds the address
/// `va`, if there is one.
pub fn find_mapping_at(mappings: &Vec<FileMapping>, va: usize) -> (r: Option<usize>)
    ensures
        r is Some <==> some_mapping_covers(mappings@, va),
        r matches Some(i) ==> is_first_mapping_at(mappings@, va, i as int),
{
    reveal(is_first_mapping_at);
    reveal(some_mapping_covers);
    let mut i: usize = 0;
    while i < mappings.len()
        invariant
            i <= mappings@.len(),
            forall|j: int| 0 <= j < i ==> !some_range_covers((#[trigger] mappings@[j]).ranges@, va),
        decreases mappings@.len() - i,
    {
        if mappings[i].contains(va) {
            proof {
                reveal(is_first_mapping_at);
                reveal(some_mapping_covers);
            }
            return Some(i);
        }
        i += 1;
    }
    None
}

/// The first mapping that holds an address is determined, and a frame is
/// wanted for a fault exactly where that mapping wants one.
pub proof fn lemma_first_mapping_at(mappings: Seq<FileMapping>, va: usize, i: int, mapped: bool)
    requires
        is_first_mapping_at(mappings, va, i),
    ensures
        0 <= i < mappings.len(),
        some_mapping_covers(mappings, va),
        some_range_covers(mappings[i].ranges@, va),
        forall|j: int| is_first_mapping_at(mappings, va, j) ==> j == i,
        fault_wants_frame(mappings, va, mapped) == (!mapped && mappings[i].wants_frame(va)),
{
    reveal(is_first_mapping_at);
    reveal(some_mapping_covers);
    reveal(fault_wants_frame);
    assert forall|j: int| is_first_mapping_at(mappings, va, j) implies j == i by {}
}

/// Where no mapping holds an address, no frame is wanted for a fault there.
pub proof fn lemma_no_mapping_at(mappings: Seq<FileMapping>, va: usize, mapped: bool)
    requires
        !some_mapping_covers(mappings, va),
    ensures
        !fault_wants_frame(mappings, va, mapped),
{
    reveal(is_first_mapping_at);
    reveal(some_mapping_covers);
    reveal(fault_wants_frame);
}

/// Whether a frame must be offered to `handle_page_fault`: the page of the
/// fault is not mapped, and the first mapping that holds the address wants
/// a frame for it.
#[verifier::opaque]
pub open spec fn fault_wants_frame(mappings: Seq<FileMapping>, va: usize, mapped: bool) -> bool {
    !mapped && exists|i: int|
        #![trigger mappings[i]]
        is_first_mapping_at(mappings, va, i) && mappings[i].wants_frame(va)
}

/// Whether a frame must be offered to `handle_page_fault`.
pub fn fault_needs_frame(mappings: &Vec<FileMapping>, fault_addr: usize, mapped: bool) -> (r: bool)
    requires
        forall|i: int| 0 <= i < mappings@.len() ==> (#[trigger] mappings@[i]).wf(),
    ensures
        r == fault_wants_frame(mappings@, fault_addr, mapped),
{
    if mapped {
        proof {
            reveal(fault_wants_frame);
        }
        return false;
    }
    match find_mapping_at(mappings, fault_addr) {
        Some(i) => {
            proof {
                lemma_first_mapping_at(mappings@, fault_addr, i as int, mapped);
            }
            mappings[i].needs_frame(fault_addr)
        },
        None => {
            proof {
                lemma_no_mapping_at(mappings@, fault_addr, mapped);
            }
            false
        },
    }
}

/// Number of bytes of a file of `file_size` bytes to load into the page that
/// holds its bytes from `file_offset` on: a page, or what is left of the
/// file.
pub fn load_len(file_size: usize, file_offset: usize) -> (len: usize)
    requires
        file_offset < file_size,
    ensures
        len == (if file_size - file_offset < PAGE_SIZE {
            file_size - file_offset
        } else {
            PAGE_SIZE as int
        }),
{
    if file_size - file_offset < PAGE_SIZE {
        file_size - file_offset
    } else {
        PAGE_SIZE
    }
}

/// Maps the address `va` in mapping number `i`.
fn map_at(mappings: &mut Vec<FileMapping>, i: usize, va: usize, frame: Option<usize>) -> (r: Option<
    (usize, MapRange, bool),
>)
    requires
        i < old(mappings)@.len(),
        old(mappings)@[i as int].wf(),
        old(mappings)@[i as int].wants_frame(va) ==> frame is Some,
    ensures
        final(mappings)@.len() == old(mappings)@.len(),
        forall|j: int|
            0 <= j < old(mappings)@.len() && j != i ==> final(mappings)@[j] == old(mappings)@[j],
        final(mappings)@[i as int].wf(),
        old(mappings)@[i as int].mapped(&final(mappings)@[i as int], va, frame, r),
{
    mappings[i].map(va, frame)
}

/// What `handle_page_fault` does to the mappings and returns.
pub open spec fn fault_handled(
    pre: Seq<FileMapping>,
    post: Seq<FileMapping>,
    va: usize,
    frame: Option<usize>,
    fix: PageFix,
    i: int,
    range: MapRange,
    shared: bool,
) -> bool {
    &&& is_first_mapping_at(pre, va, i)
    &&& post.len() == pre.len()
    &&& forall|j: int| 0 <= j < pre.len() && j != i ==> post[j] == pre[j]
    &&& pre[i].mapped(&post[i], va, frame, Some((fix.ppn, range, shared)))
    &&& fix.perm == range.perm
    &&& fix.load == (if shared {
        None::<(usize, usize)>
    } else {
        Some((pre[i].file, range.page_offset(va) as usize))
    })
}

/// Try to handle a page fault caused by demand paging at the address
/// `fault_addr`. `mapped` tells whether the page of the fault is mapped
/// already, `frame` is the frame to use where a new one is needed. Returns
/// what mends the fault, or nothing where it cannot be mended here: the
/// page is mapped already, or no mapping holds the address. The first
/// mapping that holds the address maps it as `FileMapping::map` does; the
/// page is mapped with the permission of the area, and loaded from the file
/// where its frame is new.
pub fn handle_page_fault(
    mappings: &mut Vec<FileMapping>,
    fault_addr: usize,
    mapped: bool,
    frame: Option<usize>,
) -> (r: Option<PageFix>)
    requires
        forall|i: int| 0 <= i < old(mappings)@.len() ==> (#[trigger] old(mappings)@[i]).wf(),
        fault_wants_frame(old(mappings)@, fault_addr, mapped) ==> frame is Some,
    ensures
        forall|i: int| 0 <= i < final(mappings)@.len() ==> (#[trigger] final(mappings)@[i]).wf(),
        r is Some <==> !mapped && some_mapping_covers(old(mappings)@, fault_addr),
        r is None ==> final(mappings)@ == old(mappings)@,
        r matches Some(fix) ==> exists|i: int, range: MapRange, shared: bool| #[trigger]
            fault_handled(old(mappings)@, final(mappings)@, fault_addr, frame, fix, i, range, shared),
{
    if mapped {
        // fault va already mapped, we cannot handle this
        return None;
    }
    let found = find_mapping_at(mappings, fault_addr);
    match found {
        Some(i) => {
            proof {
                lemma_first_mapping_at(mappings@, fault_addr, i as int, mapped);
            }
            let file = mappings[i].file;
            let ghost pre = mappings@[i as int];
            assert(pre.wf());
            let res = map_at(mappings, i, fault_addr, frame);
            proof {
                pre.lemma_mapped_some(&mappings@[i as int], fault_addr, frame, res);
            }
            let (ppn, range, shared) = res.unwrap();
            proof {
                pre.lemma_mapped_range(&mappings@[i as int], fault_addr, frame, ppn, range, shared);
            }
            let load = if shared {
                None
            } else {
                // load file content
                Some((file, range.offset_of(fault_addr)))
            };
            let fix = PageFix { ppn, perm: range.perm, load };
            proof {
                assert(fault_handled(
                    old(mappings)@,
                    mappings@,
                    fault_addr,
                    frame,
                    fix,
                    i as int,
                    range,
                    shared,
                ));
                assert forall|j: int| 0 <= j < mappings@.len() implies (#[trigger] mappings@[j]).wf() by {
                    if j != i {
                        assert(mappings@[j] == old(mappings)@[j]);
                    }
                }
            }
            Some(fix)
        },
        None => None,
    }
}

} // verus!
