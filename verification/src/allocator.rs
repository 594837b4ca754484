//! The kernel heap: a page-grain allocator over all memory past the heap base
//! and a byte-grain boundary-tag allocator whose pool is carved out of pages.
//!
//! All state is owned by a [`Heap`] value. Addresses are plain `usize`
//! numbers; byte `heap_start + i` of the machine is byte `i` of the heap's
//! memory. The value `0` stands for the null address.

use crate::config::PAGE_SIZE;
use crate::memory::{align_val, lemma_align_val_is_least, spec_align_val};
use vstd::arithmetic::power2::*;
use vstd::bytes::*;
use vstd::prelude::*;
use vstd::slice::*;

verus! {

pub const PAGE_ORDER: usize = 12;

/// Bit of a chunk header that marks the chunk as handed out.
pub const ALLOC_TAKEN: u64 = 0x8000_0000_0000_0000;

pub const PAGE_FLAG_EMPTY: u8 = 0;

pub const PAGE_FLAG_TAKEN: u8 = 1;

pub const PAGE_FLAG_LAST: u8 = 2;

/// Bytes that a chunk header occupies in front of the chunk's payload.
pub const HEADER_SIZE: usize = 8;

/// Pages that the byte-grain pool reserves when the heap is initialised.
pub const POOL_PAGES: usize = 512;

/// The one-byte record that tracks a page.
#[derive(Clone, Copy)]
pub struct PageGrainFlags {
    pub flags: u8,
}

impl PageGrainFlags {
    pub open spec fn spec_is_last(&self) -> bool {
        self.flags & PAGE_FLAG_LAST != 0
    }

    pub open spec fn spec_is_taken(&self) -> bool {
        self.flags & PAGE_FLAG_TAKEN != 0
    }

    pub open spec fn spec_is_free(&self) -> bool {
        !self.spec_is_taken()
    }

    #[verifier::when_used_as_spec(spec_is_last)]
    pub fn is_last(&self) -> (b: bool)
        ensures
            b == self.spec_is_last(),
    {
        self.flags & PAGE_FLAG_LAST != 0
    }

    #[verifier::when_used_as_spec(spec_is_taken)]
    pub fn is_taken(&self) -> (b: bool)
        ensures
            b == self.spec_is_taken(),
    {
        self.flags & PAGE_FLAG_TAKEN != 0
    }

    #[verifier::when_used_as_spec(spec_is_free)]
    pub fn is_free(&self) -> (b: bool)
        ensures
            b == self.spec_is_free(),
    {
        !self.is_taken()
    }

    pub fn clear(&mut self)
        ensures
            final(self).flags == PAGE_FLAG_EMPTY,
    {
        self.flags = PAGE_FLAG_EMPTY;
    }

    pub fn set_flag(&mut self, flag: u8)
        ensures
            final(self).flags == old(self).flags | flag,
    {
        self.flags = self.flags | flag;
    }
}

/// The record of page `i` of the byte-grain pool: taken, and the final page
/// marked last.
pub open spec fn pool_page_flags(i: int) -> u8 {
    if i == POOL_PAGES - 1 {
        3
    } else {
        1
    }
}

/// A page record holds one of three values: free, taken, or taken and last
/// of its run.
pub open spec fn page_record_ok(flags: u8) -> bool {
    flags == PAGE_FLAG_EMPTY || flags == PAGE_FLAG_TAKEN || flags == (PAGE_FLAG_TAKEN
        | PAGE_FLAG_LAST)
}

/// Record `i` of the `n` page records at the front of `mem` holds one of its
/// three values, and where it says taken and not last, the next page is
/// taken too.
pub open spec fn page_ok_at(mem: Seq<u8>, n: int, i: int) -> bool {
    page_record_ok(mem[i]) && (mem[i] == PAGE_FLAG_TAKEN ==> i + 1 < n && mem[i + 1]
        != PAGE_FLAG_EMPTY)
}

pub proof fn lemma_page_record_values()
    ensures
        !(PageGrainFlags { flags: 0 }).spec_is_taken(),
        !(PageGrainFlags { flags: 0 }).spec_is_last(),
        (PageGrainFlags { flags: 1 }).spec_is_taken(),
        !(PageGrainFlags { flags: 1 }).spec_is_last(),
        (PageGrainFlags { flags: 3 }).spec_is_taken(),
        (PageGrainFlags { flags: 3 }).spec_is_last(),
        0u8 | PAGE_FLAG_TAKEN == 1,
        1u8 | PAGE_FLAG_LAST == 3,
        PAGE_FLAG_TAKEN | PAGE_FLAG_LAST == 3,
{
    assert(0u8 & 1 == 0 && 0u8 & 2 == 0 && 1u8 & 1 == 1 && 1u8 & 2 == 0 && 3u8 & 1 == 1 && 3u8 & 2
        == 2 && 0u8 | 1 == 1 && 1u8 | 2 == 3) by (bit_vector);
}

/// The in-band header of a byte-grain chunk: the chunk's size, header
/// included, and the taken bit.
#[derive(Clone, Copy)]
pub struct ByteGrainFlags {
    pub flags: u64,
}

impl ByteGrainFlags {
    pub open spec fn spec_is_taken(&self) -> bool {
        self.flags & ALLOC_TAKEN != 0
    }

    pub open spec fn spec_is_free(&self) -> bool {
        !self.spec_is_taken()
    }

    pub open spec fn spec_get_size(&self) -> u64 {
        self.flags & !ALLOC_TAKEN
    }

    #[verifier::when_used_as_spec(spec_is_taken)]
    pub fn is_taken(&self) -> (b: bool)
        ensures
            b == self.spec_is_taken(),
    {
        self.flags & ALLOC_TAKEN != 0
    }

    #[verifier::when_used_as_spec(spec_is_free)]
    pub fn is_free(&self) -> (b: bool)
        ensures
            b == self.spec_is_free(),
    {
        !self.is_taken()
    }

    pub fn set_taken(&mut self)
        ensures
            final(self).spec_is_taken(),
            final(self).spec_get_size() == old(self).spec_get_size(),
    {
        let ghost f = self.flags;
        self.flags = self.flags | ALLOC_TAKEN;
        assert((f | 0x8000_0000_0000_0000u64) & 0x8000_0000_0000_0000u64 != 0 && (f
            | 0x8000_0000_0000_0000u64) & !0x8000_0000_0000_0000u64 == f
            & !0x8000_0000_0000_0000u64) by (bit_vector);
    }

    pub fn set_free(&mut self)
        ensures
            final(self).spec_is_free(),
            final(self).spec_get_size() == old(self).spec_get_size(),
    {
        let ghost f = self.flags;
        self.flags = self.flags & !ALLOC_TAKEN;
        assert((f & !0x8000_0000_0000_0000u64) & 0x8000_0000_0000_0000u64 == 0 && (f
            & !0x8000_0000_0000_0000u64) & !0x8000_0000_0000_0000u64 == f
            & !0x8000_0000_0000_0000u64) by (bit_vector);
    }

    /// Stores a size and keeps the taken bit. A size of `2^63` or more loses
    /// its top bit.
    pub fn set_size(&mut self, sz: u64)
        ensures
            final(self).spec_is_taken() == old(self).spec_is_taken(),
            final(self).spec_get_size() == sz & !ALLOC_TAKEN,
            sz < ALLOC_TAKEN ==> final(self).spec_get_size() == sz,
    {
        let k: bool = self.is_taken();
        self.flags = sz & !ALLOC_TAKEN;
        assert((sz & !0x8000_0000_0000_0000u64) & 0x8000_0000_0000_0000u64 == 0 && (sz
            & !0x8000_0000_0000_0000u64) & !0x8000_0000_0000_0000u64 == sz
            & !0x8000_0000_0000_0000u64 && (sz < 0x8000_0000_0000_0000u64 ==> sz
            & !0x8000_0000_0000_0000u64 == sz)) by (bit_vector);
        if k {
            self.set_taken();
        }
    }

    #[verifier::when_used_as_spec(spec_get_size)]
    pub fn get_size(&self) -> (sz: u64)
        ensures
            sz == self.spec_get_size(),
    {
        self.flags & !ALLOC_TAKEN
    }
}

/// Bookkeeping of the byte-grain allocator: where its pool begins, how many
/// pages it spans, and the address of page 0.
pub struct ByteGrainAllocator {
    head: usize,
    alloc: usize,
    start: usize,
}

impl ByteGrainAllocator {
    pub closed spec fn spec_head(&self) -> usize {
        self.head
    }

    pub closed spec fn spec_alloc(&self) -> usize {
        self.alloc
    }

    pub closed spec fn spec_start(&self) -> usize {
        self.start
    }

    #[verifier::when_used_as_spec(spec_head)]
    pub fn get_head(&self) -> (r: usize)
        ensures
            r == self.spec_head(),
    {
        self.head
    }

    /// Address of the first byte of the pool.
    pub fn get_head_u8(&self) -> (r: usize)
        ensures
            r == self.spec_head(),
    {
        self.head
    }

    #[verifier::when_used_as_spec(spec_alloc)]
    pub fn get_alloc(&self) -> (r: usize)
        ensures
            r == self.spec_alloc(),
    {
        self.alloc
    }

    #[verifier::when_used_as_spec(spec_start)]
    pub fn get_start(&self) -> (r: usize)
        ensures
            r == self.spec_start(),
    {
        self.start
    }

    fn set_head(&mut self, head: usize)
        ensures
            final(self).head == head,
            final(self).alloc == old(self).alloc,
            final(self).start == old(self).start,
    {
        self.head = head;
    }

    fn set_alloc(&mut self, alloc: usize)
        ensures
            final(self).alloc == alloc,
            final(self).head == old(self).head,
            final(self).start == old(self).start,
    {
        self.alloc = alloc;
    }

    fn set_start(&mut self, start: usize)
        ensures
            final(self).start == start,
            final(self).head == old(self).head,
            final(self).alloc == old(self).alloc,
    {
        self.start = start;
    }
}

/// One byte-grain chunk as the allocator sees it: its offset from the start
/// of the pool, its size with the header, and whether it is handed out.
pub struct Chunk {
    pub off: nat,
    pub size: nat,
    pub taken: bool,
}

/// The 64-bit little-endian word stored at `mem[at..at + 8]`.
pub open spec fn word_at(mem: Seq<u8>, at: int) -> u64 {
    spec_u64_from_le_bytes(mem.subrange(at, at + 8))
}

/// `mem` with the little-endian bytes of `w` stored at `at`.
pub open spec fn store_word(mem: Seq<u8>, at: int, w: u64) -> Seq<u8> {
    Seq::new(
        mem.len(),
        |i: int|
            if at <= i < at + 8 {
                spec_u64_to_le_bytes(w)[i - at]
            } else {
                mem[i]
            },
    )
}

pub proof fn lemma_store_word_reads_back(mem: Seq<u8>, at: int, w: u64)
    requires
        0 <= at,
        at + 8 <= mem.len(),
    ensures
        word_at(store_word(mem, at, w), at) == w,
{
    lemma_auto_spec_u64_to_from_le_bytes();
    assert(store_word(mem, at, w).subrange(at, at + 8) =~= spec_u64_to_le_bytes(w));
}

/// A word keeps its value when none of its eight bytes changes.
pub proof fn lemma_word_at_frame(mem: Seq<u8>, mem2: Seq<u8>, at: int)
    requires
        0 <= at,
        at + 8 <= mem.len(),
        mem.len() == mem2.len(),
        forall|j: int| at <= j < at + 8 ==> mem[j] == mem2[j],
    ensures
        word_at(mem, at) == word_at(mem2, at),
{
    assert(mem.subrange(at, at + 8) =~= mem2.subrange(at, at + 8));
}

/// The header word at `at` says what `c` says.
pub open spec fn header_matches(mem: Seq<u8>, at: int, c: Chunk) -> bool {
    let h = ByteGrainFlags { flags: word_at(mem, at) };
    h.spec_get_size() == c.size && h.spec_is_taken() == c.taken
}

/// `chunks` tiles a pool of `pool_len` bytes whose first byte is
/// `mem[pool_off]`: the chunks follow one another without gap, each is at
/// least a header long, and each header in memory agrees with its chunk.
pub open spec fn chunks_tile(mem: Seq<u8>, pool_off: int, pool_len: int, chunks: Seq<Chunk>) -> bool {
    &&& 0 <= pool_off
    &&& 0 <= pool_len < ALLOC_TAKEN
    &&& pool_off + pool_len <= mem.len()
    &&& pool_len == 0 ==> chunks.len() == 0
    &&& pool_len > 0 ==> chunks.len() > 0 && chunks[0].off == 0 && chunks.last().off
        + chunks.last().size == pool_len
    &&& forall|i: int|
        0 <= i < chunks.len() ==> (#[trigger] chunks[i]).size >= HEADER_SIZE && chunks[i].size % 8
            == 0 && chunks[i].size < ALLOC_TAKEN && header_matches(
            mem,
            pool_off + chunks[i].off,
            chunks[i],
        )
    &&& forall|i: int, j: int|
        0 <= i && j == i + 1 && j < chunks.len() ==> (#[trigger] chunks[j]).off == (
        #[trigger] chunks[i]).off + chunks[i].size
}

/// Chunks lie in the order of their offsets and never overlap.
pub proof fn lemma_chunks_ordered(
    mem: Seq<u8>,
    pool_off: int,
    pool_len: int,
    chunks: Seq<Chunk>,
    i: int,
    j: int,
)
    requires
        chunks_tile(mem, pool_off, pool_len, chunks),
        0 <= i < j < chunks.len(),
    ensures
        chunks[i].off + chunks[i].size <= chunks[j].off,
        chunks[j].off + chunks[j].size <= pool_len,
    decreases chunks.len() - i,
{
    if j == chunks.len() - 1 {
        assert(chunks[j] == chunks.last());
    } else {
        lemma_chunks_ordered(mem, pool_off, pool_len, chunks, j, chunks.len() - 1);
        assert(chunks[chunks.len() - 1] == chunks.last());
    }
    if j == i + 1 {
    } else {
        lemma_chunks_ordered(mem, pool_off, pool_len, chunks, i + 1, j);
        let k = i + 1;
        assert(chunks[k].off == chunks[i].off + chunks[i].size);
    }
}

/// Every chunk lies inside the pool.
pub proof fn lemma_chunk_in_pool(
    mem: Seq<u8>,
    pool_off: int,
    pool_len: int,
    chunks: Seq<Chunk>,
    i: int,
)
    requires
        chunks_tile(mem, pool_off, pool_len, chunks),
        0 <= i < chunks.len(),
    ensures
        chunks[i].off + chunks[i].size <= pool_len,
{
    if i == chunks.len() - 1 {
        assert(chunks[i] == chunks.last());
    } else {
        lemma_chunks_ordered(mem, pool_off, pool_len, chunks, i, chunks.len() - 1);
        assert(chunks[chunks.len() - 1] == chunks.last());
    }
}

/// The tiling survives a change of memory that touches no byte of the pool,
/// or only bytes of one chunk's payload.
pub proof fn lemma_chunks_tile_frame(
    mem: Seq<u8>,
    mem2: Seq<u8>,
    pool_off: int,
    pool_len: int,
    chunks: Seq<Chunk>,
    lo: int,
    hi: int,
)
    requires
        chunks_tile(mem, pool_off, pool_len, chunks),
        mem.len() == mem2.len(),
        forall|j: int| 0 <= j < mem.len() && !(lo <= j < hi) ==> mem2[j] == mem[j],
        hi <= pool_off || pool_off + pool_len <= lo || exists|k: int|
            0 <= k < chunks.len() && pool_off + (#[trigger] chunks[k]).off + HEADER_SIZE <= lo && hi
                <= pool_off + chunks[k].off + chunks[k].size,
    ensures
        chunks_tile(mem2, pool_off, pool_len, chunks),
{
    assert forall|i: int| 0 <= i < chunks.len() implies header_matches(
        mem2,
        pool_off + (#[trigger] chunks[i]).off,
        chunks[i],
    ) by {
        lemma_chunk_in_pool(mem, pool_off, pool_len, chunks, i);
        let at = pool_off + chunks[i].off;
        if !(hi <= pool_off || pool_off + pool_len <= lo) {
            let k = choose|k: int|
                0 <= k < chunks.len() && pool_off + (#[trigger] chunks[k]).off + HEADER_SIZE <= lo
                    && hi <= pool_off + chunks[k].off + chunks[k].size;
            if i < k {
                lemma_chunks_ordered(mem, pool_off, pool_len, chunks, i, k);
            } else if k < i {
                lemma_chunks_ordered(mem, pool_off, pool_len, chunks, k, i);
            }
        }
        lemma_word_at_frame(mem, mem2, at);
    }
}

/// The kernel heap: the memory that both allocators manage, with the page
/// records at its start, and the byte-grain allocator's bookkeeping.
pub struct Heap {
    heap_start: usize,
    num_pages: usize,
    mem: Vec<u8>,
    byte_grain: ByteGrainAllocator,
    chunks: Ghost<Seq<Chunk>>,
}

/// Number of page records of a heap of `heap_size` bytes: one for each
/// page that the size counts.
pub open spec fn page_records(heap_size: int) -> int {
    heap_size / (PAGE_SIZE as int)
}

/// Address of page 0 of a heap of `heap_size` bytes at `heap_start`: the
/// first page boundary behind the page records.
pub open spec fn first_page(heap_start: int, heap_size: int) -> int {
    spec_align_val(heap_start + page_records(heap_size), PAGE_ORDER as nat)
}

/// A heap of `heap_size` bytes at `heap_start` can be laid out: it ends
/// below the top of the address space, and the page records and the padding
/// up to the first page lie inside it.
pub open spec fn layout_fits(heap_start: int, heap_size: int) -> bool {
    heap_start + heap_size <= usize::MAX && first_page(heap_start, heap_size) <= heap_start
        + heap_size
}

/// Number of pages that a heap of `heap_size` bytes at `heap_start` can hand
/// out: those that lie wholly between page 0 and the end of the heap.
pub open spec fn page_capacity(heap_start: int, heap_size: int) -> int {
    (heap_start + heap_size - first_page(heap_start, heap_size)) / (PAGE_SIZE as int)
}

impl Heap {
    /// Address of the first byte of the heap.
    pub closed spec fn heap_start(&self) -> int {
        self.heap_start as int
    }

    /// Number of pages that can be handed out.
    pub closed spec fn num_pages(&self) -> int {
        self.num_pages as int
    }

    /// The heap's bytes; byte `i` has the address `heap_start() + i`.
    pub closed spec fn memory(&self) -> Seq<u8> {
        self.mem@
    }

    pub closed spec fn byte_grain(&self) -> ByteGrainAllocator {
        self.byte_grain
    }

    /// The byte-grain chunks, in the order of their addresses.
    pub closed spec fn chunks(&self) -> Seq<Chunk> {
        self.chunks@
    }

    /// Address of page 0.
    pub open spec fn start(&self) -> int {
        self.byte_grain().spec_start() as int
    }

    /// Index in `memory()` of the first byte of page 0.
    pub open spec fn start_off(&self) -> int {
        self.start() - self.heap_start()
    }

    /// Pages that the byte-grain pool spans: 0 before the heap is initialised.
    pub open spec fn pool_pages(&self) -> int {
        self.byte_grain().spec_alloc() as int
    }

    /// Bytes of the byte-grain pool.
    pub open spec fn pool_len(&self) -> int {
        self.pool_pages() * PAGE_SIZE
    }

    /// The record of page `i`.
    pub open spec fn page(&self, i: int) -> PageGrainFlags {
        PageGrainFlags { flags: self.memory()[i] }
    }

    /// The byte at address `addr`.
    pub open spec fn byte(&self, addr: int) -> u8 {
        self.memory()[addr - self.heap_start()]
    }

    /// Address of the first byte of page `i`.
    pub open spec fn page_addr(&self, i: int) -> int {
        self.start() + i * PAGE_SIZE
    }

    /// Number of bytes of the heap.
    pub open spec fn heap_size(&self) -> int {
        self.memory().len() as int
    }

    /// Number of page records at the start of the heap.
    pub open spec fn records(&self) -> int {
        page_records(self.heap_size())
    }

    /// The memory is the heap's bytes, laid out as the page records, padding,
    /// and the pages; every page lies wholly inside the heap.
    pub open spec fn wf_layout(&self) -> bool {
        &&& 0 <= self.heap_start()
        &&& 0 <= self.num_pages()
        &&& layout_fits(self.heap_start(), self.heap_size())
        &&& self.start() == first_page(self.heap_start(), self.heap_size())
        &&& self.num_pages() == page_capacity(self.heap_start(), self.heap_size())
        &&& self.start_off() + self.num_pages() * PAGE_SIZE <= self.heap_size()
        &&& self.heap_start() + self.heap_size() <= usize::MAX
        &&& self.heap_start() + self.num_pages() <= self.heap_start() + self.records()
            <= self.start()
    }

    /// Every page record holds one of its three values, and every run of
    /// taken pages ends with a page that is marked last.
    pub open spec fn wf_pages(&self) -> bool {
        forall|i: int|
            0 <= i < self.num_pages() ==> #[trigger] page_ok_at(self.memory(), self.num_pages(), i)
    }

    /// The pool, where there is one, begins at page 0, its pages are taken,
    /// and the chunks tile it.
    pub open spec fn wf_pool(&self) -> bool {
        &&& self.pool_pages() == 0 || self.pool_pages() == POOL_PAGES
        &&& self.pool_pages() <= self.num_pages()
        &&& self.pool_pages() == 0 ==> self.byte_grain().spec_head() == 0
        &&& self.pool_pages() > 0 ==> self.byte_grain().spec_head() == self.start()
        &&& forall|i: int|
            0 <= i < self.pool_pages() ==> (#[trigger] self.page(i)).flags == pool_page_flags(i)
        &&& chunks_tile(self.memory(), self.start_off(), self.pool_len(), self.chunks())
    }

    /// The memory is laid out, the page records are sound, and the chunks
    /// tile the pool.
    pub open spec fn tiled(&self) -> bool {
        &&& self.wf_layout()
        &&& self.wf_pages()
        &&& self.wf_pool()
    }

    /// The heap's invariant: it is tiled, and no two neighbours among the
    /// chunks are both free.
    pub open spec fn wf(&self) -> bool {
        &&& self.tiled()
        &&& settled(self.chunks())
    }

    /// Both heaps have the same place, size and byte-grain bookkeeping.
    pub open spec fn same_frame(&self, other: &Heap) -> bool {
        &&& self.heap_start() == other.heap_start()
        &&& self.num_pages() == other.num_pages()
        &&& self.byte_grain() == other.byte_grain()
        &&& self.memory().len() == other.memory().len()
    }

    /// The `n` pages from page `i` on are all free.
    pub open spec fn run_is_free(&self, i: int, n: int) -> bool {
        forall|k: int| i <= k < i + n ==> (#[trigger] self.page(k)).spec_is_free()
    }

    /// Page `i` starts the first run of `n` free pages.
    pub open spec fn first_free_run(&self, i: int, n: int) -> bool {
        &&& 0 <= i
        &&& i + n <= self.num_pages()
        &&& self.run_is_free(i, n)
        &&& forall|j: int| 0 <= j < i ==> !self.run_is_free(j, n)
    }

    /// No run of `n` free pages exists.
    pub open spec fn no_free_run(&self, n: int) -> bool {
        forall|j: int| 0 <= j && j + n <= self.num_pages() ==> !self.run_is_free(j, n)
    }

    /// The address of page 0 and the number of pages of a heap of
    /// `heap_size` bytes at `heap_start`; `None` where the layout does not
    /// fit.
    fn layout(heap_start: usize, heap_size: usize) -> (r: Option<(usize, usize)>)
        ensures
            r is Some <==> layout_fits(heap_start as int, heap_size as int),
            r matches Some((start, num_pages)) ==> {
                &&& start == first_page(heap_start as int, heap_size as int)
                &&& num_pages == page_capacity(heap_start as int, heap_size as int)
                &&& heap_start + page_records(heap_size as int) <= start
                &&& num_pages <= page_records(heap_size as int)
                &&& start - heap_start + num_pages * PAGE_SIZE <= heap_size
            },
    {
        let records: usize = heap_size / PAGE_SIZE;
        proof {
            lemma2_to64();
            lemma_align_val_is_least(heap_start + records, PAGE_ORDER as nat);
        }
        if heap_size > usize::MAX - heap_start {
            return None;
        }
        let end: usize = heap_start + heap_size;
        let table_end: usize = heap_start + records;
        if table_end > usize::MAX - (PAGE_SIZE - 1) {
            assert(usize::MAX % 4096 == 4095);
            return None;
        }
        let start: usize = align_val(table_end, PAGE_ORDER);
        if start > end {
            return None;
        }
        Some((start, (end - start) / PAGE_SIZE))
    }

    /// A heap over the memory `mem` of `heap_size` bytes, which begins at
    /// the address `heap_start`: `None` where the layout does not fit or
    /// `mem` has another length. The memory holds whatever it held;
    /// [`init`] makes the heap ready.
    pub fn over(heap_start: usize, heap_size: usize, mem: Vec<u8>) -> (r: Option<Heap>)
        ensures
            r is Some <==> layout_fits(heap_start as int, heap_size as int) && mem.len()
                == heap_size,
            r matches Some(h) ==> {
                &&& h.wf_layout()
                &&& h.heap_start() == heap_start
                &&& h.num_pages() == page_capacity(heap_start as int, heap_size as int)
                &&& h.pool_pages() == 0
                &&& h.byte_grain().spec_head() == 0
                &&& h.chunks().len() == 0
                &&& h.memory() == mem@
            },
    {
        let (start, num_pages) = match Heap::layout(heap_start, heap_size) {
            Some(found) => found,
            None => {
                return None;
            },
        };
        if mem.len() != heap_size {
            return None;
        }
        Some(
            Heap {
                heap_start,
                num_pages,
                mem,
                byte_grain: ByteGrainAllocator { head: 0, alloc: 0, start },
                chunks: Ghost(Seq::empty()),
            },
        )
    }

    /// A heap over zeroed memory: no page is taken and there is no byte-grain
    /// pool yet. `None` where the layout does not fit.
    pub fn new(heap_start: usize, heap_size: usize) -> (r: Option<Heap>)
        ensures
            r is Some <==> layout_fits(heap_start as int, heap_size as int),
            r matches Some(h) ==> {
                &&& h.wf()
                &&& h.heap_start() == heap_start
                &&& h.heap_size() == heap_size
                &&& h.num_pages() == page_capacity(heap_start as int, heap_size as int)
                &&& h.pool_pages() == 0
                &&& h.chunks().len() == 0
                &&& forall|j: int| 0 <= j < h.memory().len() ==> h.memory()[j] == 0
            },
    {
        if Heap::layout(heap_start, heap_size).is_none() {
            return None;
        }
        let mem: Vec<u8> = vec![0u8; heap_size];
        assert(forall|j: int| 0 <= j < heap_size ==> mem@[j] == 0);
        let r = Heap::over(heap_start, heap_size, mem);
        proof {
            let h = r->0;
            assert forall|i: int| 0 <= i < h.num_pages() implies #[trigger] page_ok_at(
                h.memory(),
                h.num_pages(),
                i,
            ) by {}
        }
        r
    }

    /// Number of bytes of the heap.
    pub fn size(&self) -> (r: usize)
        ensures
            r == self.heap_size(),
    {
        self.mem.len()
    }

    /// Address of the first byte of the heap.
    pub fn base(&self) -> (r: usize)
        ensures
            r == self.heap_start(),
    {
        self.heap_start
    }

    /// Number of pages that can be handed out.
    pub fn page_count(&self) -> (r: usize)
        ensures
            r == self.num_pages(),
    {
        self.num_pages
    }

    /// The byte-grain allocator's bookkeeping.
    pub fn byte_grain_allocator(&self) -> (r: &ByteGrainAllocator)
        ensures
            *r == self.byte_grain(),
    {
        &self.byte_grain
    }

    /// The record of page `i`.
    pub fn page_flags(&self, i: usize) -> (r: PageGrainFlags)
        requires
            self.wf_layout(),
            i < self.num_pages(),
        ensures
            r == self.page(i as int),
    {
        PageGrainFlags { flags: self.mem[i] }
    }
}

impl Heap {
    /// What a page allocation of `pages` pages that returned `r` did to the
    /// heap `before`: nothing where `r` is null, which it is only if no run
    /// of `pages` free pages exists; else `r` is the address of the first
    /// such run, whose pages are now taken, the final one marked last. No
    /// other page record changes, and no byte behind the page records, but
    /// that the pages handed out are zero where `zeroed` is set.
    pub open spec fn pages_allocated(&self, before: &Heap, pages: int, r: int, zeroed: bool) -> bool {
        &&& self.same_frame(before)
        &&& self.chunks() == before.chunks()
        &&& r == 0 ==> before.no_free_run(pages) && self.memory() == before.memory()
        &&& r != 0 ==> {
            let i = (r - before.start()) / (PAGE_SIZE as int);
            &&& r == before.page_addr(i)
            &&& r + pages * PAGE_SIZE <= before.heap_start() + before.heap_size()
            &&& before.first_free_run(i, pages)
            &&& forall|k: int|
                0 <= k < before.num_pages() ==> (#[trigger] self.page(k)).flags == (if i <= k < i
                    + pages - 1 {
                    PAGE_FLAG_TAKEN
                } else if k == i + pages - 1 {
                    PAGE_FLAG_TAKEN | PAGE_FLAG_LAST
                } else {
                    before.page(k).flags
                })
        }
        &&& forall|a: int|
            self.heap_start() + self.num_pages() <= a < self.heap_start() + self.memory().len()
                ==> #[trigger] self.byte(a) == (if zeroed && r != 0 && r <= a < r + pages
                * PAGE_SIZE {
                0u8
            } else {
                before.byte(a)
            })
    }

    /// What a byte allocation of `sz` bytes that returned `r` did to the heap
    /// `before`: nothing where `r` is null, which it is only if no free chunk
    /// holds the request; else the first fitting chunk is taken, split where
    /// that leaves more than a header over, and `r` is the address of its
    /// payload. Bytes outside the pool and bytes of chunks that were taken
    /// before keep their values; the payload is zero where `zeroed` is set.
    pub open spec fn bytes_allocated(&self, before: &Heap, sz: int, r: int, zeroed: bool) -> bool {
        let need = chunk_need(sz);
        let i = first_fit(before.chunks(), need);
        &&& self.same_frame(before)
        &&& self.outside_pool_kept(before)
        &&& self.taken_kept(before, before.chunks())
        &&& if i < before.chunks().len() {
            &&& r == before.start() + before.chunks()[i].off + HEADER_SIZE
            &&& r != 0
            &&& need <= before.pool_len()
            &&& zeroed ==> forall|a: int|
                r <= a < r + need - HEADER_SIZE ==> #[trigger] self.byte(a) == 0
        } else {
            &&& r == 0
            &&& self.memory() == before.memory()
        }
        &&& self.chunks() == apply_op(before.chunks(), before.start(), PoolOp::Allocate { sz: sz as nat })
    }

    /// What releasing `ptr` did to the heap `before`: where `ptr` is the
    /// payload address of a taken chunk, that chunk is free and one
    /// coalescing pass has run; else nothing. Bytes outside the pool and
    /// bytes of chunks that are still taken keep their values.
    pub open spec fn bytes_freed(&self, before: &Heap, ptr: int) -> bool {
        let k = payload_index(before.chunks(), ptr - before.start());
        &&& self.same_frame(before)
        &&& self.outside_pool_kept(before)
        &&& self.taken_kept(before, self.chunks())
        &&& !(ptr != 0 && k < before.chunks().len() && before.chunks()[k].taken) ==> self.memory()
            == before.memory()
        &&& self.chunks() == apply_op(before.chunks(), before.start(), PoolOp::Release { ptr })
    }
}

/// The page-grain allocator: first-fit over the page records.
pub struct PageGrainAllocator {}

impl PageGrainAllocator {
    /// Clears every page record. The byte-grain pool, if there was one, is
    /// gone with the pages that held it.
    fn init(heap: &mut Heap)
        requires
            old(heap).wf_layout(),
        ensures
            final(heap).wf(),
            final(heap).heap_start() == old(heap).heap_start(),
            final(heap).heap_size() == old(heap).heap_size(),
            final(heap).num_pages() == old(heap).num_pages(),
            final(heap).start() == old(heap).start(),
            final(heap).pool_pages() == 0,
            final(heap).chunks().len() == 0,
            forall|i: int| 0 <= i < final(heap).records() ==> final(heap).memory()[i] == 0,
            forall|j: int|
                final(heap).records() <= j < final(heap).memory().len() ==> final(heap).memory()[j]
                    == old(heap).memory()[j],
    {
        let num_pages: usize = heap.mem.len() / PAGE_SIZE;
        let mut i: usize = 0;
        while i < num_pages
            invariant
                i <= num_pages,
                num_pages == heap.records(),
                heap.wf_layout(),
                heap.heap_start == old(heap).heap_start,
                heap.num_pages == old(heap).num_pages,
                heap.byte_grain == old(heap).byte_grain,
                heap.mem.len() == old(heap).mem.len(),
                forall|k: int| 0 <= k < i ==> heap.mem@[k] == 0,
                forall|j: int| i <= j < heap.mem.len() ==> heap.mem@[j] == old(heap).mem@[j],
            decreases num_pages - i,
        {
            let mut record = PageGrainFlags { flags: heap.mem[i] };
            record.clear();
            heap.mem[i] = record.flags;
            i = i + 1;
        }
        heap.byte_grain.set_head(0);
        heap.byte_grain.set_alloc(0);
        heap.chunks = Ghost(Seq::empty());
        proof {
            assert forall|k: int| 0 <= k < heap.num_pages() implies #[trigger] page_ok_at(
                heap.memory(),
                heap.num_pages(),
                k,
            ) by {}
        }
    }

    /// Finds the first run of `pages` free pages, marks it taken with its
    /// final page marked last, and returns the address of its first page;
    /// returns the null address where no such run exists.
    pub fn allocate(heap: &mut Heap, pages: usize) -> (r: usize)
        requires
            old(heap).wf(),
            pages > 0,
        ensures
            final(heap).wf(),
            final(heap).pages_allocated(old(heap), pages as int, r as int, false),
    {
        let num_pages: usize = heap.num_pages;
        proof {
            lemma_page_record_values();
        }
        if pages > num_pages {
            assert forall|j: int| 0 <= j && j + pages <= heap.num_pages() implies !heap.run_is_free(
                j,
                pages as int,
            ) by {}
            return 0;
        }
        let mut i: usize = 0;
        while i <= num_pages - pages
            invariant
                pages > 0,
                pages <= num_pages,
                num_pages == heap.num_pages,
                i <= num_pages - pages + 1,
                heap.wf(),
                *heap == *old(heap),
                forall|j: int| 0 <= j < i ==> !heap.run_is_free(j, pages as int),
            decreases num_pages - pages + 1 - i,
        {
            let mut found: bool = false;
            if heap.page_flags(i).is_free() {
                found = true;
                let mut j: usize = i;
                while found && j < i + pages
                    invariant
                        i <= j <= i + pages,
                        i + pages <= num_pages,
                        num_pages == heap.num_pages,
                        heap.wf(),
                        *heap == *old(heap),
                        found ==> forall|k: int|
                            i <= k < j ==> (#[trigger] heap.page(k)).spec_is_free(),
                        !found ==> !heap.run_is_free(i as int, pages as int),
                    decreases
                            (if found {
                                i + pages - j + 1
                            } else {
                                0
                            }),
                {
                    if heap.page_flags(j).is_taken() {
                        found = false;
                        assert(!heap.page(j as int).spec_is_free());
                    } else {
                        j = j + 1;
                    }
                }
            } else {
                assert(!heap.page(i as int).spec_is_free());
            }
            if found {
                assert(heap.run_is_free(i as int, pages as int));
                let mut k: usize = i;
                while k <= i + pages - 1
                    invariant
                        pages > 0,
                        i <= k <= i + pages,
                        i + pages <= num_pages,
                        num_pages == heap.num_pages,
                        heap.wf_layout(),
                        old(heap).wf(),
                        old(heap).run_is_free(i as int, pages as int),
                        heap.same_frame(old(heap)),
                        heap.chunks == old(heap).chunks,
                        forall|m: int|
                            0 <= m < heap.mem.len() ==> heap.mem@[m] == (if i <= m < k {
                                PAGE_FLAG_TAKEN
                            } else {
                                old(heap).mem@[m]
                            }),
                    decreases i + pages - k,
                {
                    let mut record = heap.page_flags(k);
                    proof {
                        lemma_page_record_values();
                    }
                    assert(old(heap).page(k as int).spec_is_free());
                    assert(page_ok_at(old(heap).memory(), old(heap).num_pages(), k as int));
                    record.set_flag(PAGE_FLAG_TAKEN);
                    heap.mem[k] = record.flags;
                    k = k + 1;
                }
                let last: usize = i + pages - 1;
                let mut record = heap.page_flags(last);
                record.set_flag(PAGE_FLAG_LAST);
                heap.mem[last] = record.flags;
                proof {
                    lemma_page_record_values();
                    assert forall|m: int| 0 <= m < heap.num_pages() implies #[trigger] page_ok_at(
                        heap.memory(),
                        heap.num_pages(),
                        m,
                    ) by {
                        assert(page_ok_at(old(heap).memory(), heap.num_pages(), m));
                        if !(i <= m < i + pages) && i <= m + 1 < i + pages {
                            assert(old(heap).page(m + 1).spec_is_free());
                            assert(page_ok_at(old(heap).memory(), heap.num_pages(), m + 1));
                        }
                    }
                    assert forall|m: int| 0 <= m < heap.pool_pages() implies (#[trigger] heap.page(
                        m,
                    )).flags == pool_page_flags(m) by {
                        lemma_page_record_values();
                        assert(old(heap).page(m).flags == pool_page_flags(m));
                        if i <= m < i + pages {
                            assert(old(heap).page(m).spec_is_free());
                        }
                    }
                    lemma_chunks_tile_frame(
                        old(heap).memory(),
                        heap.memory(),
                        heap.start_off(),
                        heap.pool_len(),
                        heap.chunks(),
                        i as int,
                        i + pages,
                    );
                    assert(heap.start() + i * PAGE_SIZE <= usize::MAX) by (nonlinear_arith)
                        requires
                            i + pages <= heap.num_pages(),
                            heap.start() + heap.num_pages() * PAGE_SIZE <= usize::MAX,
                            heap.start() >= 0,
                    ;
                }
                let r: usize = heap.byte_grain.get_start() + PAGE_SIZE * i;
                proof {
                    lemma_page_addr_index(heap.start(), i as int);
                    assert(r > 0);
                }
                return r;
            }
            i = i + 1;
        }
        0
    }
}

/// The index of a page is recovered from its address.
pub proof fn lemma_page_addr_index(start: int, i: int)
    requires
        0 <= i,
    ensures
        (start + i * PAGE_SIZE - start) / (PAGE_SIZE as int) == i,
        i * PAGE_SIZE >= 0,
{
    assert(i * 4096 / 4096 == i);
}

/// A word keeps its value when another word, which does not overlap it, is
/// stored.
pub proof fn lemma_store_word_elsewhere(mem: Seq<u8>, at: int, w: u64, at2: int)
    requires
        0 <= at,
        at + 8 <= mem.len(),
        0 <= at2,
        at2 + 8 <= mem.len(),
        at2 + 8 <= at || at + 8 <= at2,
    ensures
        word_at(store_word(mem, at, w), at2) == word_at(mem, at2),
{
    lemma_word_at_frame(mem, store_word(mem, at, w), at2);
}

/// Bytes that a request of `sz` bytes takes from the pool: `sz` rounded up to
/// a multiple of eight, and the header.
pub open spec fn chunk_need(sz: int) -> int {
    spec_align_val(sz, 3) + HEADER_SIZE
}

/// A free chunk that is large enough for `need` bytes.
pub open spec fn fits(c: Chunk, need: int) -> bool {
    !c.taken && need <= c.size
}

/// Index of the first chunk from index `i` on that fits `need` bytes; the
/// number of chunks where none does.
pub open spec fn first_fit_from(chunks: Seq<Chunk>, need: int, i: int) -> int
    decreases chunks.len() - i,
{
    if i < 0 || i >= chunks.len() {
        chunks.len() as int
    } else if fits(chunks[i], need) {
        i
    } else {
        first_fit_from(chunks, need, i + 1)
    }
}

/// Index of the first chunk that fits `need` bytes; the number of chunks where
/// none does.
pub open spec fn first_fit(chunks: Seq<Chunk>, need: int) -> int {
    first_fit_from(chunks, need, 0)
}

/// The first fit is a fitting chunk that no fitting chunk precedes.
pub proof fn lemma_first_fit(chunks: Seq<Chunk>, need: int, i: int)
    requires
        0 <= i <= chunks.len(),
    ensures
        i <= first_fit_from(chunks, need, i) <= chunks.len(),
        first_fit_from(chunks, need, i) < chunks.len() ==> fits(
            chunks[first_fit_from(chunks, need, i)],
            need,
        ),
        forall|k: int| i <= k < first_fit_from(chunks, need, i) ==> !fits(#[trigger] chunks[k], need),
    decreases chunks.len() - i,
{
    if i < chunks.len() && !fits(chunks[i], need) {
        lemma_first_fit(chunks, need, i + 1);
    }
}

/// The chunks after chunk `i` was taken for `need` bytes and split.
pub open spec fn split_at(chunks: Seq<Chunk>, i: int, need: int) -> Seq<Chunk> {
    chunks.subrange(0, i).push(Chunk { off: chunks[i].off, size: need as nat, taken: true }).push(
        Chunk {
            off: (chunks[i].off + need) as nat,
            size: (chunks[i].size - need) as nat,
            taken: false,
        },
    ) + chunks.subrange(i + 1, chunks.len() as int)
}

/// The chunks after chunk `i` was taken for `need` bytes: split where what is
/// left over is more than a header, taken whole otherwise.
pub open spec fn take_at(chunks: Seq<Chunk>, i: int, need: int) -> Seq<Chunk> {
    if chunks[i].size - need > HEADER_SIZE {
        split_at(chunks, i, need)
    } else {
        chunks.update(i, Chunk { off: chunks[i].off, size: chunks[i].size, taken: true })
    }
}

/// The chunks with chunk `i` marked free.
pub open spec fn release_at(chunks: Seq<Chunk>, i: int) -> Seq<Chunk> {
    chunks.update(i, Chunk { off: chunks[i].off, size: chunks[i].size, taken: false })
}

/// The chunks after chunk `i` absorbed its successor.
pub open spec fn merge_at(chunks: Seq<Chunk>, i: int) -> Seq<Chunk> {
    chunks.subrange(0, i).push(
        Chunk { off: chunks[i].off, size: chunks[i].size + chunks[i + 1].size, taken: false },
    ) + chunks.subrange(i + 2, chunks.len() as int)
}

/// One coalescing pass from chunk `i` on: where a chunk and its successor are
/// both free they become one chunk, and the pass goes on with that chunk, so
/// that every run of free neighbours ends as one chunk.
pub open spec fn coalesce_from(chunks: Seq<Chunk>, i: int) -> Seq<Chunk>
    decreases chunks.len() - i,
{
    if i < 0 || i + 1 >= chunks.len() {
        chunks
    } else if !chunks[i].taken && !chunks[i + 1].taken {
        coalesce_from(merge_at(chunks, i), i)
    } else {
        coalesce_from(chunks, i + 1)
    }
}

/// Index of the chunk whose payload begins `p` bytes into the pool, searched
/// from chunk `i` on; the number of chunks where there is none.
pub open spec fn payload_index_from(chunks: Seq<Chunk>, p: int, i: int) -> int
    decreases chunks.len() - i,
{
    if i < 0 || i >= chunks.len() {
        chunks.len() as int
    } else if chunks[i].off + HEADER_SIZE == p {
        i
    } else {
        payload_index_from(chunks, p, i + 1)
    }
}

/// Index of the chunk whose payload begins `p` bytes into the pool; the
/// number of chunks where there is none.
pub open spec fn payload_index(chunks: Seq<Chunk>, p: int) -> int {
    payload_index_from(chunks, p, 0)
}

pub proof fn lemma_payload_index(chunks: Seq<Chunk>, p: int, i: int)
    requires
        0 <= i <= chunks.len(),
    ensures
        i <= payload_index_from(chunks, p, i) <= chunks.len(),
        payload_index_from(chunks, p, i) < chunks.len() ==> chunks[payload_index_from(
            chunks,
            p,
            i,
        )].off + HEADER_SIZE == p,
        forall|k: int|
            i <= k < payload_index_from(chunks, p, i) ==> (#[trigger] chunks[k]).off + HEADER_SIZE
                != p,
    decreases chunks.len() - i,
{
    if i < chunks.len() && chunks[i].off + HEADER_SIZE != p {
        lemma_payload_index(chunks, p, i + 1);
    }
}

/// Taking a fitting chunk keeps the tiling, where memory holds the new
/// headers and is otherwise unchanged outside the chunk.
pub proof fn lemma_tile_after_take(
    mem: Seq<u8>,
    mem2: Seq<u8>,
    pool_off: int,
    pool_len: int,
    chunks: Seq<Chunk>,
    i: int,
    need: int,
)
    requires
        chunks_tile(mem, pool_off, pool_len, chunks),
        0 <= i < chunks.len(),
        fits(chunks[i], need),
        need >= HEADER_SIZE,
        need % 8 == 0,
        mem.len() == mem2.len(),
        forall|j: int|
            0 <= j < mem.len() && !(pool_off + chunks[i].off <= j < pool_off + chunks[i].off
                + chunks[i].size) ==> mem2[j] == mem[j],
        header_matches(mem2, pool_off + chunks[i].off, take_at(chunks, i, need)[i]),
        chunks[i].size - need > HEADER_SIZE ==> header_matches(
            mem2,
            pool_off + chunks[i].off + need,
            take_at(chunks, i, need)[i + 1],
        ),
    ensures
        chunks_tile(mem2, pool_off, pool_len, take_at(chunks, i, need)),
{
    let t = take_at(chunks, i, need);
    let n = chunks.len() as int;
    lemma_chunk_in_pool(mem, pool_off, pool_len, chunks, i);
    if chunks[i].size - need > HEADER_SIZE {
        assert(t.len() == n + 1);
        assert forall|k: int| 0 <= k < t.len() implies (#[trigger] t[k]).size >= HEADER_SIZE
            && t[k].size % 8 == 0 && t[k].size < ALLOC_TAKEN && header_matches(
            mem2,
            pool_off + t[k].off,
            t[k],
        ) by {
            if k < i {
                assert(t[k] == chunks[k]);
                lemma_chunks_ordered(mem, pool_off, pool_len, chunks, k, i);
                lemma_word_at_frame(mem, mem2, pool_off + chunks[k].off);
            } else if k > i + 1 {
                assert(t[k] == chunks[k - 1]);
                lemma_chunks_ordered(mem, pool_off, pool_len, chunks, i, k - 1);
                lemma_chunk_in_pool(mem, pool_off, pool_len, chunks, k - 1);
                lemma_word_at_frame(mem, mem2, pool_off + chunks[k - 1].off);
            }
        }
        assert forall|a: int, b: int| 0 <= a && b == a + 1 && b < t.len() implies (#[trigger] t[b]).off
            == (#[trigger] t[a]).off + t[a].size by {
            if b < i {
                assert(t[a] == chunks[a] && t[b] == chunks[b]);
            } else if b == i {
                assert(t[a] == chunks[a]);
                assert(chunks[b].off == chunks[a].off + chunks[a].size);
            } else if b == i + 1 {
            } else if b == i + 2 {
                assert(t[b] == chunks[i + 1]);
                assert(chunks[i + 1].off == chunks[i].off + chunks[i].size);
            } else {
                assert(t[a] == chunks[a - 1] && t[b] == chunks[b - 1]);
                assert(chunks[b - 1].off == chunks[a - 1].off + chunks[a - 1].size);
            }
        }
        if i == n - 1 {
            assert(chunks[i] == chunks.last());
            assert(t.last() == t[i + 1]);
        } else {
            assert(t.last() == chunks[n - 1]);
            assert(chunks[n - 1] == chunks.last());
        }
        assert(pool_len > 0);
        if i == 0 {
            assert(t[0].off == chunks[0].off);
        } else {
            assert(t[0] == chunks[0]);
        }
    } else {
        assert(t.len() == n);
        assert forall|k: int| 0 <= k < t.len() implies (#[trigger] t[k]).size >= HEADER_SIZE
            && t[k].size % 8 == 0 && t[k].size < ALLOC_TAKEN && header_matches(
            mem2,
            pool_off + t[k].off,
            t[k],
        ) by {
            if k < i {
                lemma_chunks_ordered(mem, pool_off, pool_len, chunks, k, i);
                lemma_word_at_frame(mem, mem2, pool_off + chunks[k].off);
            } else if k > i {
                lemma_chunks_ordered(mem, pool_off, pool_len, chunks, i, k);
                lemma_chunk_in_pool(mem, pool_off, pool_len, chunks, k);
                lemma_word_at_frame(mem, mem2, pool_off + chunks[k].off);
            }
        }
        assert forall|a: int, b: int| 0 <= a && b == a + 1 && b < t.len() implies (#[trigger] t[b]).off
            == (#[trigger] t[a]).off + t[a].size by {
            assert(chunks[b].off == chunks[a].off + chunks[a].size);
        }
        assert(t.last().off == chunks.last().off && t.last().size == chunks.last().size);
    }
}

/// Marking a chunk free keeps the tiling, where memory holds the new header
/// and is otherwise unchanged.
pub proof fn lemma_tile_after_release(
    mem: Seq<u8>,
    mem2: Seq<u8>,
    pool_off: int,
    pool_len: int,
    chunks: Seq<Chunk>,
    k: int,
)
    requires
        chunks_tile(mem, pool_off, pool_len, chunks),
        0 <= k < chunks.len(),
        mem.len() == mem2.len(),
        forall|j: int|
            0 <= j < mem.len() && !(pool_off + chunks[k].off <= j < pool_off + chunks[k].off
                + HEADER_SIZE) ==> mem2[j] == mem[j],
        header_matches(mem2, pool_off + chunks[k].off, release_at(chunks, k)[k]),
    ensures
        chunks_tile(mem2, pool_off, pool_len, release_at(chunks, k)),
{
    let t = release_at(chunks, k);
    assert forall|i: int| 0 <= i < t.len() implies (#[trigger] t[i]).size >= HEADER_SIZE && t[i].size
        % 8 == 0 && t[i].size < ALLOC_TAKEN && header_matches(mem2, pool_off + t[i].off, t[i]) by {
        lemma_chunk_in_pool(mem, pool_off, pool_len, chunks, i);
        if i < k {
            lemma_chunks_ordered(mem, pool_off, pool_len, chunks, i, k);
            lemma_word_at_frame(mem, mem2, pool_off + chunks[i].off);
        } else if i > k {
            lemma_chunks_ordered(mem, pool_off, pool_len, chunks, k, i);
            lemma_word_at_frame(mem, mem2, pool_off + chunks[i].off);
        }
    }
    assert forall|a: int, b: int| 0 <= a && b == a + 1 && b < t.len() implies (#[trigger] t[b]).off
        == (#[trigger] t[a]).off + t[a].size by {
        assert(chunks[b].off == chunks[a].off + chunks[a].size);
    }
    assert(t.last().off == chunks.last().off && t.last().size == chunks.last().size);
}

/// Merging two free neighbours keeps the tiling, where memory holds the new
/// header and is otherwise unchanged.
pub proof fn lemma_tile_after_merge(
    mem: Seq<u8>,
    mem2: Seq<u8>,
    pool_off: int,
    pool_len: int,
    chunks: Seq<Chunk>,
    i: int,
)
    requires
        chunks_tile(mem, pool_off, pool_len, chunks),
        0 <= i,
        i + 1 < chunks.len(),
        mem.len() == mem2.len(),
        forall|j: int|
            0 <= j < mem.len() && !(pool_off + chunks[i].off <= j < pool_off + chunks[i].off
                + HEADER_SIZE) ==> mem2[j] == mem[j],
        header_matches(mem2, pool_off + chunks[i].off, merge_at(chunks, i)[i]),
    ensures
        chunks_tile(mem2, pool_off, pool_len, merge_at(chunks, i)),
{
    let t = merge_at(chunks, i);
    let n = chunks.len() as int;
    assert(t.len() == n - 1);
    lemma_chunk_in_pool(mem, pool_off, pool_len, chunks, i + 1);
    assert(chunks[i + 1].off == chunks[i].off + chunks[i].size);
    assert forall|k: int| 0 <= k < t.len() implies (#[trigger] t[k]).size >= HEADER_SIZE && t[k].size
        % 8 == 0 && t[k].size < ALLOC_TAKEN && header_matches(mem2, pool_off + t[k].off, t[k]) by {
        if k < i {
            assert(t[k] == chunks[k]);
            lemma_chunk_in_pool(mem, pool_off, pool_len, chunks, k);
            lemma_chunks_ordered(mem, pool_off, pool_len, chunks, k, i);
            lemma_word_at_frame(mem, mem2, pool_off + chunks[k].off);
        } else if k > i {
            assert(t[k] == chunks[k + 1]);
            lemma_chunk_in_pool(mem, pool_off, pool_len, chunks, k + 1);
            lemma_chunks_ordered(mem, pool_off, pool_len, chunks, i, k + 1);
            lemma_word_at_frame(mem, mem2, pool_off + chunks[k + 1].off);
        } else {
        }
    }
    assert forall|a: int, b: int| 0 <= a && b == a + 1 && b < t.len() implies (#[trigger] t[b]).off
        == (#[trigger] t[a]).off + t[a].size by {
        if b < i {
            assert(t[a] == chunks[a] && t[b] == chunks[b]);
        } else if b == i {
            assert(t[a] == chunks[a]);
            assert(chunks[b].off == chunks[a].off + chunks[a].size);
        } else if b == i + 1 {
            assert(t[b] == chunks[i + 2]);
            assert(chunks[i + 2].off == chunks[i + 1].off + chunks[i + 1].size);
        } else {
            assert(t[a] == chunks[a + 1] && t[b] == chunks[b + 1]);
            assert(chunks[b + 1].off == chunks[a + 1].off + chunks[a + 1].size);
        }
    }
    if i == n - 2 {
        assert(chunks[i + 1] == chunks.last());
        assert(t.last() == t[i]);
    } else {
        assert(t.last() == chunks[n - 1]);
        assert(chunks[n - 1] == chunks.last());
    }
    if i == 0 {
        assert(t[0].off == chunks[0].off);
    } else {
        assert(t[0] == chunks[0]);
    }
}

impl Heap {
    /// Reads the chunk header stored at index `at` of the memory.
    fn load_header(&self, at: usize) -> (h: ByteGrainFlags)
        requires
            at + 8 <= self.mem.len(),
        ensures
            h.flags == word_at(self.mem@, at as int),
    {
        let bytes = slice_subrange(self.mem.as_slice(), at, at + 8);
        ByteGrainFlags { flags: u64_from_le_bytes(bytes) }
    }

    /// Writes a chunk header at index `at` of the memory.
    fn store_header(&mut self, at: usize, h: ByteGrainFlags)
        requires
            at + 8 <= old(self).mem.len(),
        ensures
            final(self).mem@ == store_word(old(self).mem@, at as int, h.flags),
            final(self).heap_start == old(self).heap_start,
            final(self).num_pages == old(self).num_pages,
            final(self).byte_grain == old(self).byte_grain,
            final(self).chunks == old(self).chunks,
    {
        let bytes = u64_to_le_bytes(h.flags);
        let mut k: usize = 0;
        while k < 8
            invariant
                k <= 8,
                bytes@ == spec_u64_to_le_bytes(h.flags),
                bytes@.len() == 8,
                at + 8 <= self.mem.len(),
                self.mem.len() == old(self).mem.len(),
                self.heap_start == old(self).heap_start,
                self.num_pages == old(self).num_pages,
                self.byte_grain == old(self).byte_grain,
                self.chunks == old(self).chunks,
                forall|i: int|
                    0 <= i < self.mem.len() ==> self.mem@[i] == (if at <= i < at + k {
                        bytes@[i - at]
                    } else {
                        old(self).mem@[i]
                    }),
            decreases 8 - k,
        {
            self.mem[at + k] = bytes[k];
            k = k + 1;
        }
        assert(self.mem@ =~= store_word(old(self).mem@, at as int, h.flags));
    }
}

impl PageGrainAllocator {
    /// Allocates `pages` pages as [`PageGrainAllocator::allocate`] does and
    /// fills them with zeros.
    pub fn zalloc(heap: &mut Heap, pages: usize) -> (r: usize)
        requires
            old(heap).wf(),
            pages > 0,
        ensures
            final(heap).wf(),
            final(heap).pages_allocated(old(heap), pages as int, r as int, true),
    {
        let ret: usize = PageGrainAllocator::allocate(heap, pages);
        if ret != 0 {
            let ghost mid = *heap;
            let ghost i = (ret - heap.start()) / (PAGE_SIZE as int);
            proof {
                lemma_page_record_values();
                assert(i >= heap.pool_pages()) by {
                    if i < heap.pool_pages() {
                        assert(old(heap).page(i).flags == pool_page_flags(i));
                        assert(old(heap).page(i).spec_is_free());
                    }
                }
                assert(ret + pages * PAGE_SIZE <= heap.heap_start() + heap.memory().len())
                    by (nonlinear_arith)
                    requires
                        ret == heap.start() + i * PAGE_SIZE,
                        i + pages <= heap.num_pages(),
                        heap.start() - heap.heap_start() + heap.num_pages() * PAGE_SIZE
                            <= heap.memory().len(),
                ;
                assert(heap.start_off() + heap.pool_len() <= ret - heap.heap_start())
                    by (nonlinear_arith)
                    requires
                        ret == heap.start() + i * PAGE_SIZE,
                        i >= heap.pool_pages(),
                        heap.pool_len() == heap.pool_pages() * PAGE_SIZE,
                        heap.start_off() == heap.start() - heap.heap_start(),
                ;
            }
            let size: usize = PAGE_SIZE * pages;
            let first: usize = ret - heap.heap_start;
            let mut n: usize = 0;
            while n < size
                invariant
                    n <= size,
                    first + size <= heap.mem.len(),
                    heap.same_frame(&mid),
                    heap.chunks == mid.chunks,
                    forall|m: int|
                        0 <= m < heap.mem.len() ==> heap.mem@[m] == (if first <= m < first + n {
                            0u8
                        } else {
                            mid.mem@[m]
                        }),
                decreases size - n,
            {
                heap.mem[first + n] = 0;
                n = n + 1;
            }
            proof {
                lemma_chunks_tile_frame(
                    mid.memory(),
                    heap.memory(),
                    heap.start_off(),
                    heap.pool_len(),
                    heap.chunks(),
                    first as int,
                    first + size,
                );
                assert forall|k: int| 0 <= k < heap.num_pages() implies heap.memory()[k]
                    == mid.memory()[k] by {}
                assert forall|k: int| 0 <= k < heap.num_pages() implies #[trigger] page_ok_at(
                    heap.memory(),
                    heap.num_pages(),
                    k,
                ) by {
                    assert(page_ok_at(mid.memory(), heap.num_pages(), k));
                }
                assert forall|k: int| 0 <= k < heap.pool_pages() implies (#[trigger] heap.page(
                    k,
                )).flags == pool_page_flags(k) by {
                    assert(mid.page(k).flags == pool_page_flags(k));
                }
                assert forall|k: int| 0 <= k < old(heap).num_pages() implies (#[trigger] heap.page(
                    k,
                )).flags == mid.page(k).flags by {}
                assert forall|a: int|
                    heap.heap_start() + heap.num_pages() <= a < heap.heap_start()
                        + heap.memory().len() implies #[trigger] heap.byte(a) == (if ret <= a < ret
                    + pages * PAGE_SIZE {
                    0u8
                } else {
                    old(heap).byte(a)
                }) by {
                    assert(mid.byte(a) == old(heap).byte(a));
                    assert(heap.memory()[a - heap.heap_start()] == (if first <= a - heap.heap_start()
                        < first + size {
                        0u8
                    } else {
                        mid.memory()[a - heap.heap_start()]
                    }));
                }
            }
        }
        ret
    }
}

impl ByteGrainAllocator {
    /// Reserves the pool's pages, zeroed, and makes the pool one free chunk.
    fn init(heap: &mut Heap)
        requires
            old(heap).wf(),
            old(heap).pool_pages() == 0,
            old(heap).num_pages() >= POOL_PAGES,
            forall|i: int| 0 <= i < old(heap).num_pages() ==> old(heap).memory()[i] == 0,
        ensures
            final(heap).wf(),
            final(heap).heap_start() == old(heap).heap_start(),
            final(heap).heap_size() == old(heap).heap_size(),
            final(heap).num_pages() == old(heap).num_pages(),
            final(heap).start() == old(heap).start(),
            final(heap).pool_pages() == POOL_PAGES,
            final(heap).chunks() == seq![
                Chunk { off: 0, size: (POOL_PAGES * PAGE_SIZE) as nat, taken: false },
            ],
            forall|k: int|
                0 <= k < final(heap).num_pages() ==> (#[trigger] final(heap).page(k)).flags == (if k
                    < POOL_PAGES - 1 {
                    PAGE_FLAG_TAKEN
                } else if k == POOL_PAGES - 1 {
                    PAGE_FLAG_TAKEN | PAGE_FLAG_LAST
                } else {
                    PAGE_FLAG_EMPTY
                }),
            final(heap).pool_is_fresh(old(heap)),
    {
        proof {
            lemma_page_record_values();
            lemma2_to64();
            assert(heap.run_is_free(0, POOL_PAGES as int)) by {
                assert forall|k: int| 0 <= k < POOL_PAGES implies (#[trigger] heap.page(
                    k,
                )).spec_is_free() by {
                    assert(heap.memory()[k] == 0);
                }
            }
        }
        let start: usize = align_val(heap.heap_start + heap.mem.len() / PAGE_SIZE, PAGE_ORDER);
        heap.byte_grain.set_start(start);
        let k_alloc: usize = PageGrainAllocator::zalloc(heap, POOL_PAGES);
        proof {
            if k_alloc == 0 {
                assert(old(heap).no_free_run(POOL_PAGES as int));
                assert(!old(heap).run_is_free(0, POOL_PAGES as int));
            }
            let i = (k_alloc - old(heap).start()) / (PAGE_SIZE as int);
            if i > 0 {
                assert(!old(heap).run_is_free(0, POOL_PAGES as int));
            }
            assert(k_alloc == heap.start());
        }
        let ghost mid = *heap;
        heap.byte_grain.set_alloc(POOL_PAGES);
        heap.byte_grain.set_head(k_alloc);
        let at: usize = k_alloc - heap.heap_start;
        let mut header = heap.load_header(at);
        header.set_free();
        header.set_size((heap.byte_grain.get_alloc() * PAGE_SIZE) as u64);
        heap.store_header(at, header);
        let ghost pool = seq![
            Chunk { off: 0, size: (POOL_PAGES * PAGE_SIZE) as nat, taken: false },
        ];
        heap.chunks = Ghost(pool);
        proof {
            lemma_store_word_reads_back(mid.memory(), at as int, header.flags);
            assert forall|k: int| 0 <= k < heap.num_pages() implies heap.memory()[k]
                == mid.memory()[k] by {}
            assert forall|k: int| 0 <= k < heap.num_pages() implies #[trigger] page_ok_at(
                heap.memory(),
                heap.num_pages(),
                k,
            ) by {
                assert(page_ok_at(mid.memory(), heap.num_pages(), k));
            }
            assert forall|k: int| 0 <= k < heap.pool_pages() implies (#[trigger] heap.page(
                k,
            )).flags == pool_page_flags(k) by {
                assert(heap.page(k).flags == mid.page(k).flags);
            }
            assert forall|k: int| 0 <= k < heap.num_pages() implies (#[trigger] heap.page(k)).flags
                == (if k < POOL_PAGES - 1 {
                PAGE_FLAG_TAKEN
            } else if k == POOL_PAGES - 1 {
                PAGE_FLAG_TAKEN | PAGE_FLAG_LAST
            } else {
                PAGE_FLAG_EMPTY
            }) by {
                assert(heap.page(k).flags == mid.page(k).flags);
            }
            assert(heap.chunks().last() == heap.chunks()[0]);
            assert forall|a: int|
                heap.start() + HEADER_SIZE <= a < heap.heap_start()
                    + heap.memory().len() implies #[trigger] heap.byte(a) == (if a < heap.start()
                + heap.pool_len() {
                0u8
            } else {
                old(heap).byte(a)
            }) by {
                assert(mid.byte(a) == (if k_alloc <= a < k_alloc + POOL_PAGES * PAGE_SIZE {
                    0u8
                } else {
                    old(heap).byte(a)
                }));
                assert(heap.memory()[a - heap.heap_start()] == mid.memory()[a - heap.heap_start()]);
            }
        }
    }
}

/// Prepares the heap: clears every page record, reserves the byte-grain
/// pool's pages and formats the pool as one free chunk.
pub fn init(heap: &mut Heap)
    requires
        old(heap).wf_layout(),
        old(heap).num_pages() >= POOL_PAGES,
    ensures
        final(heap).wf(),
        final(heap).heap_start() == old(heap).heap_start(),
        final(heap).heap_size() == old(heap).heap_size(),
        final(heap).num_pages() == old(heap).num_pages(),
        final(heap).start() == old(heap).start(),
        final(heap).pool_pages() == POOL_PAGES,
        final(heap).byte_grain().spec_head() == final(heap).start(),
        final(heap).chunks() == seq![
            Chunk { off: 0, size: (POOL_PAGES * PAGE_SIZE) as nat, taken: false },
        ],
        forall|k: int|
            0 <= k < final(heap).num_pages() ==> (#[trigger] final(heap).page(k)).flags == (if k
                < POOL_PAGES - 1 {
                PAGE_FLAG_TAKEN
            } else if k == POOL_PAGES - 1 {
                PAGE_FLAG_TAKEN | PAGE_FLAG_LAST
            } else {
                PAGE_FLAG_EMPTY
            }),
        final(heap).pool_is_fresh(old(heap)),
{
    PageGrainAllocator::init(heap);
    let ghost cleared = *heap;
    ByteGrainAllocator::init(heap);
    proof {
        assert forall|a: int|
            heap.start() + HEADER_SIZE <= a < heap.heap_start()
                + heap.memory().len() implies #[trigger] heap.byte(a) == (if a < heap.start()
            + heap.pool_len() {
            0u8
        } else {
            old(heap).byte(a)
        }) by {
            assert(cleared.byte(a) == old(heap).byte(a)) by {
                assert(cleared.memory()[a - heap.heap_start()] == old(heap).memory()[a
                    - heap.heap_start()]);
            }
        }
    }
}

/// No chunk from index `i` on fits where every one of them is too small or
/// taken.
pub proof fn lemma_no_fit(chunks: Seq<Chunk>, need: int, i: int)
    requires
        0 <= i <= chunks.len(),
        forall|k: int| i <= k < chunks.len() ==> !fits(#[trigger] chunks[k], need),
    ensures
        first_fit_from(chunks, need, i) == chunks.len(),
    decreases chunks.len() - i,
{
    if i < chunks.len() {
        lemma_no_fit(chunks, need, i + 1);
    }
}

/// Every byte of every chunk that `chunks` marks taken is the same in both
/// memories.
pub open spec fn chunks_kept(mem: Seq<u8>, before: Seq<u8>, pool_off: int, chunks: Seq<Chunk>) -> bool {
    forall|c: int, j: int|
        0 <= c < chunks.len() && (#[trigger] chunks[c]).taken && pool_off + chunks[c].off <= j
            < pool_off + chunks[c].off + chunks[c].size ==> #[trigger] mem[j] == before[j]
}

impl Heap {
    /// Every byte of every chunk that `chunks` marks taken is the same in
    /// both memories.
    pub open spec fn taken_kept(&self, before: &Heap, chunks: Seq<Chunk>) -> bool {
        chunks_kept(self.memory(), before.memory(), self.start_off(), chunks)
    }

    /// Every byte outside the byte-grain pool is the same in both memories.
    pub open spec fn outside_pool_kept(&self, before: &Heap) -> bool {
        forall|j: int|
            0 <= j < self.memory().len() && !(self.start_off() <= j < self.start_off()
                + self.pool_len()) ==> #[trigger] self.memory()[j] == before.memory()[j]
    }
}

impl ByteGrainAllocator {
    /// Takes the first free chunk that holds `sz` bytes, rounded up to a
    /// multiple of eight, and a header. A chunk that leaves more than a
    /// header over is split. Returns the address of the payload, or the null
    /// address where no chunk fits.
    pub fn kmalloc(heap: &mut Heap, sz: usize) -> (r: usize)
        requires
            old(heap).wf(),
        ensures
            final(heap).wf(),
            final(heap).bytes_allocated(old(heap), sz as int, r as int, false),
    {
        let pool_len: usize = heap.byte_grain.get_alloc() * PAGE_SIZE;
        let ghost chunks = heap.chunks();
        let ghost need = chunk_need(sz as int);
        let ghost pool_off = heap.start_off();
        proof {
            lemma2_to64();
            lemma_align_val_is_least(sz as int, 3);
        }
        if pool_len == 0 || sz > pool_len {
            proof {
                assert forall|k: int| 0 <= k < chunks.len() implies !fits(
                    #[trigger] chunks[k],
                    need,
                ) by {
                    lemma_chunk_in_pool(heap.memory(), pool_off, pool_len as int, chunks, k);
                }
                lemma_no_fit(chunks, need, 0);
            }
            return 0;
        }
        let size: usize = align_val(sz, 3) + HEADER_SIZE;
        let head: usize = heap.byte_grain.get_head() - heap.heap_start;
        let tail: usize = head + pool_len;
        let mut at: usize = head;
        let ghost mut idx: int = 0;
        while at < tail
            invariant
                *heap == *old(heap),
                heap.wf(),
                chunks == heap.chunks(),
                need == chunk_need(sz as int),
                size == need,
                size % 8 == 0,
                size >= HEADER_SIZE,
                pool_off == heap.start_off(),
                pool_len == heap.pool_len(),
                pool_len > 0,
                head == pool_off,
                tail == head + pool_len,
                0 <= idx <= chunks.len(),
                idx < chunks.len() ==> at == pool_off + chunks[idx].off,
                idx == chunks.len() ==> at == tail,
                first_fit_from(chunks, need, idx) == first_fit(chunks, need),
            decreases chunks.len() - idx,
        {
            proof {
                lemma_chunk_in_pool(heap.memory(), pool_off, pool_len as int, chunks, idx);
                if idx + 1 < chunks.len() {
                    let nxt = idx + 1;
                    assert(chunks[nxt].off == chunks[idx].off + chunks[idx].size);
                } else {
                    assert(chunks[idx] == chunks.last());
                }
            }
            let mut header = heap.load_header(at);
            if header.is_free() && size as u64 <= header.get_size() {
                let chunk_size: usize = header.get_size() as usize;
                let rem: usize = chunk_size - size;
                header.set_taken();
                if rem > HEADER_SIZE {
                    let next: usize = at + size;
                    let mut after = heap.load_header(next);
                    after.set_free();
                    after.set_size(rem as u64);
                    heap.store_header(next, after);
                    header.set_size(size as u64);
                    let ghost mid = heap.memory();
                    heap.store_header(at, header);
                    proof {
                        lemma_store_word_reads_back(mid, at as int, header.flags);
                        lemma_store_word_reads_back(old(heap).memory(), next as int, after.flags);
                        lemma_store_word_elsewhere(mid, at as int, header.flags, next as int);
                    }
                } else {
                    header.set_size(chunk_size as u64);
                    heap.store_header(at, header);
                    proof {
                        lemma_store_word_reads_back(old(heap).memory(), at as int, header.flags);
                    }
                }
                proof {
                    lemma_first_fit(chunks, need, idx);
                    assert(first_fit(chunks, need) == idx);
                    lemma_take_keeps_settled(chunks, idx, need);
                    lemma_tile_after_take(
                        old(heap).memory(),
                        heap.memory(),
                        pool_off,
                        pool_len as int,
                        chunks,
                        idx,
                        need,
                    );
                }
                heap.chunks = Ghost(take_at(chunks, idx, need));
                proof {
                    assert forall|k: int| 0 <= k < heap.num_pages() implies heap.memory()[k] == old(
                        heap,
                    ).memory()[k] by {}
                    assert forall|k: int| 0 <= k < heap.num_pages() implies #[trigger] page_ok_at(
                        heap.memory(),
                        heap.num_pages(),
                        k,
                    ) by {
                        assert(page_ok_at(old(heap).memory(), heap.num_pages(), k));
                    }
                    assert forall|k: int| 0 <= k < heap.pool_pages() implies (#[trigger] heap.page(
                        k,
                    )).flags == pool_page_flags(k) by {
                        assert(old(heap).page(k).flags == pool_page_flags(k));
                    }
                    assert forall|c: int, j: int|
                        0 <= c < chunks.len() && (#[trigger] chunks[c]).taken && pool_off
                            + chunks[c].off <= j < pool_off + chunks[c].off
                            + chunks[c].size implies #[trigger] heap.memory()[j] == old(
                        heap,
                    ).memory()[j] by {
                        lemma_chunk_in_pool(old(heap).memory(), pool_off, pool_len as int, chunks, c);
                        if c < idx {
                            lemma_chunks_ordered(
                                old(heap).memory(),
                                pool_off,
                                pool_len as int,
                                chunks,
                                c,
                                idx,
                            );
                        } else if c > idx {
                            lemma_chunks_ordered(
                                old(heap).memory(),
                                pool_off,
                                pool_len as int,
                                chunks,
                                idx,
                                c,
                            );
                        }
                    }
                }
                return heap.heap_start + at + HEADER_SIZE;
            } else {
                at = at + header.get_size() as usize;
                proof {
                    idx = idx + 1;
                }
            }
        }
        proof {
            if idx < chunks.len() {
                lemma_chunk_in_pool(heap.memory(), pool_off, pool_len as int, chunks, idx);
            }
        }
        0
    }
}

/// No chunk from index `i` on has its payload at `p` where none of their
/// payload offsets is `p`.
pub proof fn lemma_no_payload(chunks: Seq<Chunk>, p: int, i: int)
    requires
        0 <= i <= chunks.len(),
        forall|k: int| i <= k < chunks.len() ==> (#[trigger] chunks[k]).off + HEADER_SIZE != p,
    ensures
        payload_index_from(chunks, p, i) == chunks.len(),
    decreases chunks.len() - i,
{
    if i < chunks.len() {
        lemma_no_payload(chunks, p, i + 1);
    }
}

impl ByteGrainAllocator {
    /// Allocates as [`ByteGrainAllocator::kmalloc`] does and fills the
    /// payload, `sz` rounded up to a multiple of eight, with zeros.
    pub fn kzmalloc(heap: &mut Heap, sz: usize) -> (r: usize)
        requires
            old(heap).wf(),
        ensures
            final(heap).wf(),
            final(heap).bytes_allocated(old(heap), sz as int, r as int, true),
    {
        let ret: usize = ByteGrainAllocator::kmalloc(heap, sz);
        if ret != 0 {
            let ghost mid = *heap;
            let ghost chunks = old(heap).chunks();
            let ghost need = chunk_need(sz as int);
            let ghost i = first_fit(chunks, need);
            let ghost pool_off = heap.start_off();
            proof {
                lemma2_to64();
                lemma_align_val_is_least(sz as int, 3);
                lemma_first_fit(chunks, need, 0);
                lemma_chunk_in_pool(old(heap).memory(), pool_off, heap.pool_len(), chunks, i);
                lemma_chunk_in_pool(mid.memory(), pool_off, heap.pool_len(), mid.chunks(), i);
            }
            let size: usize = align_val(sz, 3);
            let first: usize = ret - heap.heap_start;
            let mut n: usize = 0;
            while n < size
                invariant
                    n <= size,
                    first + size <= heap.mem.len(),
                    heap.same_frame(&mid),
                    heap.chunks == mid.chunks,
                    forall|m: int|
                        0 <= m < heap.mem.len() ==> heap.mem@[m] == (if first <= m < first + n {
                            0u8
                        } else {
                            mid.mem@[m]
                        }),
                decreases size - n,
            {
                heap.mem[first + n] = 0;
                n = n + 1;
            }
            proof {
                assert(mid.chunks()[i].off == chunks[i].off);
                assert(mid.chunks()[i].size >= need);
                lemma_chunks_tile_frame(
                    mid.memory(),
                    heap.memory(),
                    pool_off,
                    heap.pool_len(),
                    heap.chunks(),
                    first as int,
                    first + size,
                );
                assert forall|k: int| 0 <= k < heap.num_pages() implies heap.memory()[k]
                    == mid.memory()[k] by {}
                assert forall|k: int| 0 <= k < heap.num_pages() implies #[trigger] page_ok_at(
                    heap.memory(),
                    heap.num_pages(),
                    k,
                ) by {
                    assert(page_ok_at(mid.memory(), heap.num_pages(), k));
                }
                assert forall|k: int| 0 <= k < heap.pool_pages() implies (#[trigger] heap.page(
                    k,
                )).flags == pool_page_flags(k) by {
                    assert(mid.page(k).flags == pool_page_flags(k));
                }
                assert forall|c: int, j: int|
                    0 <= c < chunks.len() && (#[trigger] chunks[c]).taken && pool_off + chunks[c].off
                        <= j < pool_off + chunks[c].off + chunks[c].size implies #[trigger] heap.memory()[j]
                    == old(heap).memory()[j] by {
                    lemma_chunk_in_pool(old(heap).memory(), pool_off, heap.pool_len(), chunks, c);
                    if c < i {
                        lemma_chunks_ordered(
                            old(heap).memory(),
                            pool_off,
                            heap.pool_len(),
                            chunks,
                            c,
                            i,
                        );
                    } else if c > i {
                        lemma_chunks_ordered(
                            old(heap).memory(),
                            pool_off,
                            heap.pool_len(),
                            chunks,
                            i,
                            c,
                        );
                    }
                    assert(mid.memory()[j] == old(heap).memory()[j]);
                }
                assert forall|a: int| ret <= a < ret + need - HEADER_SIZE implies #[trigger] heap.byte(
                    a,
                ) == 0 by {
                    assert(heap.memory()[a - heap.heap_start()] == 0);
                }
            }
        }
        ret
    }

    /// One pass over the pool that merges every free chunk with its free
    /// successors: no two free neighbours are left.
    fn coalesce(heap: &mut Heap, Ghost(before): Ghost<Seq<u8>>)
        requires
            old(heap).tiled(),
            before.len() == old(heap).memory().len(),
            chunks_kept(old(heap).memory(), before, old(heap).start_off(), old(heap).chunks()),
        ensures
            final(heap).wf(),
            final(heap).same_frame(old(heap)),
            final(heap).outside_pool_kept(old(heap)),
            final(heap).chunks() == coalesce_from(old(heap).chunks(), 0),
            chunks_kept(final(heap).memory(), before, final(heap).start_off(), final(heap).chunks()),
    {
        let pool_len: usize = heap.byte_grain.get_alloc() * PAGE_SIZE;
        let ghost pool_off = heap.start_off();
        proof {
            lemma_pass_leaves_no_free_neighbours(heap.chunks());
        }
        if pool_len == 0 {
            return ;
        }
        let head: usize = heap.byte_grain.get_head() - heap.heap_start;
        let tail: usize = head + pool_len;
        let mut at: usize = head;
        let mut done: bool = false;
        let ghost mut idx: int = 0;
        while !done && at < tail
            invariant
                heap.tiled(),
                settled(coalesce_from(old(heap).chunks(), 0)),
                heap.same_frame(old(heap)),
                heap.outside_pool_kept(old(heap)),
                before.len() == heap.memory().len(),
                chunks_kept(heap.memory(), before, pool_off, heap.chunks()),
                pool_off == heap.start_off(),
                pool_len == heap.pool_len(),
                pool_len > 0,
                head == pool_off,
                tail == head + pool_len,
                0 <= idx <= heap.chunks().len(),
                idx < heap.chunks().len() ==> at == pool_off + heap.chunks()[idx].off,
                idx == heap.chunks().len() ==> at == tail,
                !done ==> coalesce_from(heap.chunks(), idx) == coalesce_from(old(heap).chunks(), 0),
                done ==> heap.chunks() == coalesce_from(old(heap).chunks(), 0),
            decreases
                    (if done {
                        0
                    } else {
                        heap.chunks().len() - idx + 1
                    }),
        {
            let ghost cur = heap.chunks();
            let ghost mem0 = heap.memory();
            let ghost pre = *heap;
            proof {
                lemma_chunk_in_pool(mem0, pool_off, pool_len as int, cur, idx);
                if idx + 1 < cur.len() {
                    let nxt = idx + 1;
                    assert(cur[nxt].off == cur[idx].off + cur[idx].size);
                    lemma_chunk_in_pool(mem0, pool_off, pool_len as int, cur, nxt);
                } else {
                    assert(cur[idx] == cur.last());
                }
            }
            let mut header = heap.load_header(at);
            let next: usize = at + header.get_size() as usize;
            if header.get_size() == 0 || next >= tail {
                done = true;
            } else {
                let after = heap.load_header(next);
                if header.is_free() && after.is_free() {
                    header.set_size(header.get_size() + after.get_size());
                    heap.store_header(at, header);
                    proof {
                        lemma_store_word_reads_back(mem0, at as int, header.flags);
                        lemma_tile_after_merge(
                            mem0,
                            heap.memory(),
                            pool_off,
                            pool_len as int,
                            cur,
                            idx,
                        );
                    }
                    heap.chunks = Ghost(merge_at(cur, idx));
                    proof {
                        let t = heap.chunks();
                        assert forall|k: int| 0 <= k < heap.num_pages() implies heap.memory()[k]
                            == mem0[k] by {}
                        assert forall|k: int| 0 <= k < heap.num_pages() implies #[trigger] page_ok_at(
                            heap.memory(),
                            heap.num_pages(),
                            k,
                        ) by {
                            assert(page_ok_at(mem0, heap.num_pages(), k));
                        }
                        assert forall|k: int| 0 <= k < heap.pool_pages() implies (
                        #[trigger] heap.page(k)).flags == pool_page_flags(k) by {
                            assert(pre.page(k).flags == pool_page_flags(k));
                        }
                        assert forall|c: int, j: int|
                            0 <= c < t.len() && (#[trigger] t[c]).taken && pool_off + t[c].off <= j
                                < pool_off + t[c].off + t[c].size implies #[trigger] heap.memory()[j]
                            == before[j] by {
                            if c < idx {
                                assert(t[c] == cur[c]);
                                lemma_chunks_ordered(mem0, pool_off, pool_len as int, cur, c, idx);
                                lemma_chunk_in_pool(mem0, pool_off, pool_len as int, cur, c);
                                assert(mem0[j] == before[j]);
                            } else if c > idx {
                                assert(t[c] == cur[c + 1]);
                                lemma_chunks_ordered(
                                    mem0,
                                    pool_off,
                                    pool_len as int,
                                    cur,
                                    idx,
                                    c + 1,
                                );
                                lemma_chunk_in_pool(mem0, pool_off, pool_len as int, cur, c + 1);
                                assert(mem0[j] == before[j]);
                            }
                        }
                    }
                } else {
                    at = next;
                    proof {
                        idx = idx + 1;
                    }
                }
            }
        }
        proof {
            if !done && idx < heap.chunks().len() {
                lemma_chunk_in_pool(heap.memory(), pool_off, pool_len as int, heap.chunks(), idx);
            }
        }
    }

    /// Releases the chunk whose payload begins at `ptr` and runs one
    /// coalescing pass. Nothing happens where `ptr` is null, is not the
    /// payload address of a chunk, or names a chunk that is already free.
    pub fn kfree(heap: &mut Heap, ptr: usize)
        requires
            old(heap).wf(),
        ensures
            final(heap).wf(),
            final(heap).bytes_freed(old(heap), ptr as int),
    {
        let pool_len: usize = heap.byte_grain.get_alloc() * PAGE_SIZE;
        let ghost chunks = heap.chunks();
        let ghost pool_off = heap.start_off();
        let ghost p = ptr - heap.start();
        if ptr == 0 || pool_len == 0 || ptr < heap.heap_start {
            proof {
                lemma_no_payload(chunks, p, 0);
            }
            return ;
        }
        let target: usize = ptr - heap.heap_start;
        let head: usize = heap.byte_grain.get_head() - heap.heap_start;
        let tail: usize = head + pool_len;
        let mut at: usize = head;
        let ghost mut idx: int = 0;
        while at < tail
            invariant
                *heap == *old(heap),
                heap.wf(),
                chunks == heap.chunks(),
                pool_off == heap.start_off(),
                pool_len == heap.pool_len(),
                pool_len > 0,
                head == pool_off,
                tail == head + pool_len,
                target == p + pool_off,
                p == ptr - heap.start(),
                0 <= idx <= chunks.len(),
                idx < chunks.len() ==> at == pool_off + chunks[idx].off,
                idx == chunks.len() ==> at == tail,
                payload_index_from(chunks, p, idx) == payload_index(chunks, p),
            decreases chunks.len() - idx,
        {
            proof {
                lemma_chunk_in_pool(heap.memory(), pool_off, pool_len as int, chunks, idx);
                if idx + 1 < chunks.len() {
                    let nxt = idx + 1;
                    assert(chunks[nxt].off == chunks[idx].off + chunks[idx].size);
                } else {
                    assert(chunks[idx] == chunks.last());
                }
            }
            let mut header = heap.load_header(at);
            if at + HEADER_SIZE == target {
                assert(payload_index_from(chunks, p, idx) == idx);
                if header.is_taken() {
                    header.set_free();
                    heap.store_header(at, header);
                    proof {
                        lemma_store_word_reads_back(old(heap).memory(), at as int, header.flags);
                        lemma_tile_after_release(
                            old(heap).memory(),
                            heap.memory(),
                            pool_off,
                            pool_len as int,
                            chunks,
                            idx,
                        );
                    }
                    heap.chunks = Ghost(release_at(chunks, idx));
                    proof {
                        let t = heap.chunks();
                        assert forall|k: int| 0 <= k < heap.num_pages() implies heap.memory()[k]
                            == old(heap).memory()[k] by {}
                        assert forall|k: int| 0 <= k < heap.num_pages() implies #[trigger] page_ok_at(
                            heap.memory(),
                            heap.num_pages(),
                            k,
                        ) by {
                            assert(page_ok_at(old(heap).memory(), heap.num_pages(), k));
                        }
                        assert forall|k: int| 0 <= k < heap.pool_pages() implies (
                        #[trigger] heap.page(k)).flags == pool_page_flags(k) by {
                            assert(old(heap).page(k).flags == pool_page_flags(k));
                        }
                        assert forall|c: int, j: int|
                            0 <= c < t.len() && (#[trigger] t[c]).taken && pool_off + t[c].off <= j
                                < pool_off + t[c].off + t[c].size implies #[trigger] heap.memory()[j]
                            == old(heap).memory()[j] by {
                            lemma_chunk_in_pool(
                                old(heap).memory(),
                                pool_off,
                                pool_len as int,
                                chunks,
                                c,
                            );
                            if c < idx {
                                lemma_chunks_ordered(
                                    old(heap).memory(),
                                    pool_off,
                                    pool_len as int,
                                    chunks,
                                    c,
                                    idx,
                                );
                            } else if c > idx {
                                lemma_chunks_ordered(
                                    old(heap).memory(),
                                    pool_off,
                                    pool_len as int,
                                    chunks,
                                    idx,
                                    c,
                                );
                            }
                        }
                    }
                    let ghost mid = *heap;
                    ByteGrainAllocator::coalesce(heap, Ghost(old(heap).memory()));
                    proof {
                        assert forall|j: int|
                            0 <= j < heap.memory().len() && !(heap.start_off() <= j
                                < heap.start_off() + heap.pool_len()) implies #[trigger] heap.memory()[j]
                            == old(heap).memory()[j] by {
                            assert(heap.memory()[j] == mid.memory()[j]);
                        }
                    }
                }
                return ;
            } else {
                at = at + header.get_size() as usize;
                proof {
                    idx = idx + 1;
                }
            }
        }
        proof {
            if idx < chunks.len() {
                lemma_chunk_in_pool(heap.memory(), pool_off, pool_len as int, chunks, idx);
            }
        }
    }
}

/// One call of the byte-grain allocator, as it acts on the list of chunks.
pub enum PoolOp {
    /// A request for `sz` bytes.
    Allocate { sz: nat },
    /// The release of the address `ptr`.
    Release { ptr: int },
}

/// The chunks after one call, for a pool that begins at the address `start`.
pub open spec fn apply_op(chunks: Seq<Chunk>, start: int, op: PoolOp) -> Seq<Chunk> {
    match op {
        PoolOp::Allocate { sz } => {
            let need = chunk_need(sz as int);
            let i = first_fit(chunks, need);
            if i < chunks.len() {
                take_at(chunks, i, need)
            } else {
                chunks
            }
        },
        PoolOp::Release { ptr } => {
            let k = payload_index(chunks, ptr - start);
            if ptr != 0 && k < chunks.len() && chunks[k].taken {
                coalesce_from(release_at(chunks, k), 0)
            } else {
                chunks
            }
        },
    }
}

/// The chunks after a sequence of calls.
pub open spec fn run_ops(chunks: Seq<Chunk>, start: int, ops: Seq<PoolOp>) -> Seq<Chunk>
    decreases ops.len(),
{
    if ops.len() == 0 {
        chunks
    } else {
        apply_op(run_ops(chunks, start, ops.drop_last()), start, ops.last())
    }
}

/// Allocates from the byte-grain pool; see [`Heap::bytes_allocated`].
pub fn alloc_bytes(heap: &mut Heap, sz: usize) -> (r: usize)
    requires
        old(heap).wf(),
    ensures
        final(heap).wf(),
        final(heap).bytes_allocated(old(heap), sz as int, r as int, false),
{
    ByteGrainAllocator::kmalloc(heap, sz)
}

/// Allocates zeroed bytes from the byte-grain pool; see
/// [`Heap::bytes_allocated`].
pub fn alloc_bytes_zeroed(heap: &mut Heap, sz: usize) -> (r: usize)
    requires
        old(heap).wf(),
    ensures
        final(heap).wf(),
        final(heap).bytes_allocated(old(heap), sz as int, r as int, true),
{
    ByteGrainAllocator::kzmalloc(heap, sz)
}

/// Returns bytes to the byte-grain pool; see [`Heap::bytes_freed`].
pub fn free_bytes(heap: &mut Heap, ptr: usize)
    requires
        old(heap).wf(),
    ensures
        final(heap).wf(),
        final(heap).bytes_freed(old(heap), ptr as int),
{
    ByteGrainAllocator::kfree(heap, ptr)
}

/// Allocates a run of pages; see [`Heap::pages_allocated`].
pub fn alloc_pages(heap: &mut Heap, pages: usize) -> (r: usize)
    requires
        old(heap).wf(),
        pages > 0,
    ensures
        final(heap).wf(),
        final(heap).pages_allocated(old(heap), pages as int, r as int, false),
{
    PageGrainAllocator::allocate(heap, pages)
}

/// Allocates a run of zeroed pages; see [`Heap::pages_allocated`].
pub fn alloc_pages_zeroed(heap: &mut Heap, pages: usize) -> (r: usize)
    requires
        old(heap).wf(),
        pages > 0,
    ensures
        final(heap).wf(),
        final(heap).pages_allocated(old(heap), pages as int, r as int, true),
{
    PageGrainAllocator::zalloc(heap, pages)
}

impl Heap {
    /// The byte at `addr`; `None` where `addr` lies outside the heap.
    pub fn load(&self, addr: usize) -> (r: Option<u8>)
        ensures
            r == (if self.heap_start() <= addr < self.heap_start() + self.memory().len() {
                Some(self.byte(addr as int))
            } else {
                None
            }),
    {
        if addr < self.heap_start {
            return None;
        }
        let at: usize = addr - self.heap_start;
        if at >= self.mem.len() {
            return None;
        }
        Some(self.mem[at])
    }
}

impl Heap {
    /// `addr` lies in the payload of a chunk that is taken.
    pub open spec fn in_taken_chunk(&self, addr: int) -> bool {
        exists|k: int|
            0 <= k < self.chunks().len() && (#[trigger] self.chunks()[k]).taken && self.start()
                + self.chunks()[k].off + HEADER_SIZE <= addr < self.start() + self.chunks()[k].off
                + self.chunks()[k].size
    }

    /// `addr` lies in a page behind the byte-grain pool that is taken.
    pub open spec fn in_taken_page(&self, addr: int) -> bool {
        &&& self.start() + self.pool_len() <= addr
        &&& (addr - self.start()) / (PAGE_SIZE as int) < self.num_pages()
        &&& self.page((addr - self.start()) / (PAGE_SIZE as int)).spec_is_taken()
    }

    /// The payload of the pool's one chunk is zero, and the pages behind
    /// the pool hold what they held in `before`.
    pub open spec fn pool_is_fresh(&self, before: &Heap) -> bool {
        forall|a: int|
            self.start() + HEADER_SIZE <= a < self.heap_start() + self.memory().len()
                ==> #[trigger] self.byte(a) == (if a < self.start() + self.pool_len() {
                0u8
            } else {
                before.byte(a)
            })
    }

    /// Every address in the payload of a taken chunk was in such a payload
    /// before, and holds the byte that it held.
    pub open spec fn live_kept(&self, before: &Heap) -> bool {
        forall|addr: int| #[trigger]
            self.in_taken_chunk(addr) ==> before.in_taken_chunk(addr) && self.byte(addr)
                == before.byte(addr)
    }

    /// `addr` belongs to memory that the heap has handed out.
    pub open spec fn is_allocated(&self, addr: int) -> bool {
        self.in_taken_chunk(addr) || self.in_taken_page(addr)
    }

    /// Stores `value` at `addr` where that address belongs to memory that the
    /// heap has handed out, and says whether it did.
    pub fn store(&mut self, addr: usize, value: u8) -> (ok: bool)
        requires
            old(self).wf(),
        ensures
            final(self).wf(),
            final(self).same_frame(old(self)),
            final(self).chunks() == old(self).chunks(),
            ok == old(self).is_allocated(addr as int),
            ok ==> final(self).memory() == old(self).memory().update(
                addr - old(self).heap_start(),
                value,
            ),
            !ok ==> final(self).memory() == old(self).memory(),
    {
        let start: usize = self.byte_grain.get_start();
        let pool_len: usize = self.byte_grain.get_alloc() * PAGE_SIZE;
        let ghost chunks = self.chunks();
        let ghost pool_off = self.start_off();
        proof {
            lemma_page_record_values();
        }
        if addr < start {
            assert(!self.in_taken_chunk(addr as int));
            return false;
        }
        if addr - start >= pool_len {
            let page: usize = (addr - start) / PAGE_SIZE;
            assert(!self.in_taken_chunk(addr as int)) by {
                if self.in_taken_chunk(addr as int) {
                    let k = choose|k: int|
                        0 <= k < chunks.len() && (#[trigger] chunks[k]).taken && self.start()
                            + chunks[k].off + HEADER_SIZE <= addr < self.start() + chunks[k].off
                            + chunks[k].size;
                    lemma_chunk_in_pool(self.memory(), pool_off, pool_len as int, chunks, k);
                }
            }
            if page >= self.num_pages || !self.page_flags(page).is_taken() {
                return false;
            }
            let at: usize = addr - self.heap_start;
            self.mem[at] = value;
            proof {
                lemma_chunks_tile_frame(
                    old(self).memory(),
                    self.memory(),
                    pool_off,
                    pool_len as int,
                    chunks,
                    at as int,
                    at + 1,
                );
                assert forall|k: int| 0 <= k < self.num_pages() implies self.memory()[k] == old(
                    self,
                ).memory()[k] by {}
                assert forall|k: int| 0 <= k < self.num_pages() implies #[trigger] page_ok_at(
                    self.memory(),
                    self.num_pages(),
                    k,
                ) by {
                    assert(page_ok_at(old(self).memory(), self.num_pages(), k));
                }
                assert forall|k: int| 0 <= k < self.pool_pages() implies (#[trigger] self.page(
                    k,
                )).flags == pool_page_flags(k) by {
                    assert(old(self).page(k).flags == pool_page_flags(k));
                }
                assert(self.memory() =~= old(self).memory().update(at as int, value));
            }
            return true;
        }
        assert(!self.in_taken_page(addr as int));
        let target: usize = addr - self.heap_start;
        let head: usize = self.byte_grain.get_head() - self.heap_start;
        let tail: usize = head + pool_len;
        let mut at: usize = head;
        let ghost mut idx: int = 0;
        while at < tail
            invariant
                *self == *old(self),
                self.wf(),
                chunks == self.chunks(),
                pool_off == self.start_off(),
                pool_len == self.pool_len(),
                pool_len > 0,
                head == pool_off,
                tail == head + pool_len,
                target == addr - self.heap_start(),
                head <= target < tail,
                0 <= idx <= chunks.len(),
                idx < chunks.len() ==> at == pool_off + chunks[idx].off,
                idx == chunks.len() ==> at == tail,
                at <= target,
            decreases chunks.len() - idx,
        {
            proof {
                lemma_chunk_in_pool(self.memory(), pool_off, pool_len as int, chunks, idx);
                if idx + 1 < chunks.len() {
                    let nxt = idx + 1;
                    assert(chunks[nxt].off == chunks[idx].off + chunks[idx].size);
                } else {
                    assert(chunks[idx] == chunks.last());
                }
            }
            let header = self.load_header(at);
            let size: usize = header.get_size() as usize;
            if target < at + size {
                let inside: bool = header.is_taken() && target >= at + HEADER_SIZE;
                proof {
                    if !inside && self.in_taken_chunk(addr as int) {
                        let k = choose|k: int|
                            0 <= k < chunks.len() && (#[trigger] chunks[k]).taken && self.start()
                                + chunks[k].off + HEADER_SIZE <= addr < self.start() + chunks[k].off
                                + chunks[k].size;
                        if k < idx {
                            lemma_chunks_ordered(
                                self.memory(),
                                pool_off,
                                pool_len as int,
                                chunks,
                                k,
                                idx,
                            );
                        } else if k > idx {
                            lemma_chunks_ordered(
                                self.memory(),
                                pool_off,
                                pool_len as int,
                                chunks,
                                idx,
                                k,
                            );
                        }
                    }
                    if inside {
                        assert(chunks[idx].taken);
                    }
                }
                if inside {
                    self.mem[target] = value;
                    proof {
                        lemma_chunks_tile_frame(
                            old(self).memory(),
                            self.memory(),
                            pool_off,
                            pool_len as int,
                            chunks,
                            target as int,
                            target + 1,
                        );
                        assert forall|k: int| 0 <= k < self.num_pages() implies self.memory()[k]
                            == old(self).memory()[k] by {}
                        assert forall|k: int| 0 <= k < self.num_pages() implies #[trigger] page_ok_at(
                            self.memory(),
                            self.num_pages(),
                            k,
                        ) by {
                            assert(page_ok_at(old(self).memory(), self.num_pages(), k));
                        }
                        assert forall|k: int| 0 <= k < self.pool_pages() implies (
                        #[trigger] self.page(k)).flags == pool_page_flags(k) by {
                            assert(old(self).page(k).flags == pool_page_flags(k));
                        }
                        assert(self.memory() =~= old(self).memory().update(target as int, value));
                    }
                }
                return inside;
            }
            at = at + size;
            proof {
                idx = idx + 1;
            }
        }
        false
    }
}

impl Heap {
    /// The chunks of the byte-grain pool in the order of their addresses:
    /// for each whether it is taken, the address of its header, and its
    /// size.
    pub fn chunk_table(&self) -> (r: Vec<(bool, usize, usize)>)
        requires
            self.wf(),
        ensures
            r@.len() == self.chunks().len(),
            forall|k: int|
                0 <= k < r@.len() ==> #[trigger] r@[k] == (
                    self.chunks()[k].taken,
                    (self.start() + self.chunks()[k].off) as usize,
                    self.chunks()[k].size as usize,
                ),
    {
        let mut rows: Vec<(bool, usize, usize)> = Vec::new();
        let pool_len: usize = self.byte_grain.get_alloc() * PAGE_SIZE;
        let ghost chunks = self.chunks();
        let ghost pool_off = self.start_off();
        if pool_len == 0 {
            return rows;
        }
        let head: usize = self.byte_grain.get_head() - self.heap_start;
        let tail: usize = head + pool_len;
        let mut at: usize = head;
        while at < tail
            invariant
                self.wf(),
                chunks == self.chunks(),
                pool_off == self.start_off(),
                pool_len == self.pool_len(),
                pool_len > 0,
                head == pool_off,
                tail == head + pool_len,
                rows@.len() <= chunks.len(),
                rows@.len() < chunks.len() ==> at == pool_off + chunks[rows@.len() as int].off,
                rows@.len() == chunks.len() ==> at == tail,
                forall|k: int|
                    0 <= k < rows@.len() ==> #[trigger] rows@[k] == (
                        chunks[k].taken,
                        (self.start() + chunks[k].off) as usize,
                        chunks[k].size as usize,
                    ),
            decreases chunks.len() - rows@.len(),
        {
            let ghost idx = rows@.len() as int;
            proof {
                lemma_chunk_in_pool(self.memory(), pool_off, pool_len as int, chunks, idx);
                if idx + 1 < chunks.len() {
                    let nxt = idx + 1;
                    assert(chunks[nxt].off == chunks[idx].off + chunks[idx].size);
                } else {
                    assert(chunks[idx] == chunks.last());
                }
            }
            let header = self.load_header(at);
            let size: usize = header.get_size() as usize;
            rows.push((header.is_taken(), self.heap_start + at, size));
            at = at + size;
        }
        proof {
            if rows@.len() < chunks.len() {
                lemma_chunk_in_pool(
                    self.memory(),
                    pool_off,
                    pool_len as int,
                    chunks,
                    rows@.len() as int,
                );
            }
        }
        rows
    }
}

/// No two neighbours among the chunks are both free.
pub open spec fn settled(chunks: Seq<Chunk>) -> bool {
    forall|i: int| !#[trigger] free_pair(chunks, i)
}

/// Chunk `i` and its successor are both free.
pub open spec fn free_pair(chunks: Seq<Chunk>, i: int) -> bool {
    0 <= i && i + 1 < chunks.len() && !chunks[i].taken && !chunks[i + 1].taken
}

/// A pass from chunk `i` on leaves no two free neighbours, where none are in
/// front of chunk `i`.
proof fn lemma_coalesce_settles(chunks: Seq<Chunk>, i: int)
    requires
        0 <= i,
        forall|j: int| j < i ==> !#[trigger] free_pair(chunks, j),
    ensures
        settled(coalesce_from(chunks, i)),
    decreases chunks.len() - i,
{
    if i + 1 >= chunks.len() {
        assert forall|j: int| !#[trigger] free_pair(chunks, j) by {}
    } else if !chunks[i].taken && !chunks[i + 1].taken {
        let merged = merge_at(chunks, i);
        assert forall|j: int| j < i implies !#[trigger] free_pair(merged, j) by {
            if 0 <= j {
                assert(!free_pair(chunks, j));
                assert(merged[j] == chunks[j]);
            }
        }
        lemma_coalesce_settles(merged, i);
    } else {
        assert forall|j: int| j < i + 1 implies !#[trigger] free_pair(chunks, j) by {}
        lemma_coalesce_settles(chunks, i + 1);
    }
}

/// One coalescing pass leaves no two free neighbours, whatever the chunks
/// were.
pub proof fn lemma_pass_leaves_no_free_neighbours(chunks: Seq<Chunk>)
    ensures
        settled(coalesce_from(chunks, 0)),
{
    lemma_coalesce_settles(chunks, 0);
}

/// Taking a chunk of settled chunks leaves them settled.
pub proof fn lemma_take_keeps_settled(chunks: Seq<Chunk>, i: int, need: int)
    requires
        settled(chunks),
        0 <= i < chunks.len(),
        fits(chunks[i], need),
    ensures
        settled(take_at(chunks, i, need)),
{
    let t = take_at(chunks, i, need);
    assert forall|j: int| !#[trigger] free_pair(t, j) by {
        if 0 <= j && j + 1 < t.len() {
            if chunks[i].size - need > HEADER_SIZE {
                if j + 1 < i {
                    assert(t[j] == chunks[j] && t[j + 1] == chunks[j + 1]);
                    assert(!free_pair(chunks, j));
                } else if j + 1 == i || j == i {
                } else if j == i + 1 {
                    assert(t[j + 1] == chunks[i + 1]);
                    assert(!free_pair(chunks, i));
                } else {
                    assert(t[j] == chunks[j - 1] && t[j + 1] == chunks[j]);
                    assert(!free_pair(chunks, j - 1));
                }
            } else {
                assert(!free_pair(chunks, j));
            }
        }
    }
}

} // verus!
