//! Summaries of the kernel's state for diagnostics: what the heap has handed
//! out, and what the filesystem has cached.

use crate::allocator::{
    lemma_chunk_in_pool, lemma_page_record_values, page_ok_at, Chunk, Heap,
};
use crate::allocator_laws::lemma_page_runs_disjoint;
use crate::config::PAGE_SIZE;
use crate::disk::Disk;
use crate::minixfs3::{FsReport, Inode, MinixFileSystem};
use crate::path_cache::{ascending, insert_all};
use vstd::prelude::*;

verus! {

/// One run of allocated pages.
#[derive(Clone, Copy, Debug, PartialEq, Eq, Structural)]
pub struct PageRun {
    /// Whether the run is the pool of the byte-grain allocator.
    pub pool: bool,
    /// Address of the first byte of the run.
    pub first: usize,
    /// Address of the final byte of the run.
    pub last: usize,
    /// Number of pages in the run.
    pub pages: usize,
}

/// The page-grain allocator's memory map.
#[derive(Debug)]
pub struct PageReport {
    /// Address of the first page record.
    pub metadata_start: usize,
    /// Address behind the final page record.
    pub metadata_end: usize,
    /// Pages between the start of the heap and page 0.
    pub metadata_pages: usize,
    /// Address of page 0.
    pub pages_start: usize,
    /// Address behind the final byte of the heap.
    pub pages_end: usize,
    /// Number of pages between page 0 and the end of the heap.
    pub avail_pages: usize,
    /// The runs of allocated pages, in the order of their addresses.
    pub runs: Vec<PageRun>,
    /// Number of pages in those runs.
    pub allocated: usize,
}

/// One byte-grain chunk.
#[derive(Clone, Copy, Debug, PartialEq, Eq, Structural)]
pub struct ChunkRow {
    pub taken: bool,
    /// Address of the chunk's header.
    pub start: usize,
    /// Address behind the chunk.
    pub end: usize,
    /// Size of the chunk in bytes, header included.
    pub size: usize,
}

/// The byte-grain allocator's table of chunks.
#[derive(Debug)]
pub struct ByteReport {
    /// The chunks, in the order of their addresses.
    pub chunks: Vec<ChunkRow>,
    /// Bytes in chunks that are taken.
    pub used_bytes: usize,
    /// Bytes in all chunks.
    pub total_bytes: usize,
}

/// Both allocators' summaries.
#[derive(Debug)]
pub struct HeapReport {
    pub pages: PageReport,
    pub bytes: ByteReport,
}

/// The row that stands for the run of `count` pages from page `first` on.
pub open spec fn run_row(h: Heap, first: int, count: int) -> PageRun {
    PageRun {
        pool: h.page_addr(first) == h.byte_grain().spec_head(),
        first: h.page_addr(first) as usize,
        last: (h.page_addr(first) + count * PAGE_SIZE - 1) as usize,
        pages: count as usize,
    }
}

impl PageReport {
    /// The report is the memory map of the heap: the runs are all runs of
    /// allocated pages of the heap, each once, in the order of their
    /// addresses.
    pub open spec fn describes(&self, h: Heap) -> bool {
        &&& self.metadata_start == h.heap_start()
        &&& self.metadata_end == h.heap_start() + h.records()
        &&& self.metadata_pages == h.start_off() / (PAGE_SIZE as int)
        &&& self.pages_start == h.start()
        &&& self.pages_end == h.heap_start() + h.heap_size()
        &&& self.avail_pages == h.num_pages()
        &&& self.allocated == run_pages(self.runs@, self.runs@.len() as int)
        &&& forall|k: int| 0 <= k < self.runs@.len() ==> is_row(h, #[trigger] self.runs@[k])
        &&& forall|first: int, count: int| #[trigger]
            h.is_page_run(first, count) ==> self.runs@.contains(run_row(h, first, count))
        &&& forall|j: int, k: int|
            0 <= j < k < self.runs@.len() ==> self.runs@[j].last < self.runs@[k].first
    }
}

impl ByteReport {
    /// The report is the table of the heap's chunks, with the bytes in the
    /// chunks that are taken and the bytes in all chunks.
    pub open spec fn describes(&self, h: Heap) -> bool {
        &&& self.chunks@.len() == h.chunks().len()
        &&& forall|k: int|
            0 <= k < self.chunks@.len() ==> #[trigger] self.chunks@[k] == chunk_row(
                h,
                h.chunks()[k],
            )
        &&& self.used_bytes == taken_bytes(h.chunks(), h.chunks().len() as int)
        &&& self.total_bytes == h.pool_len()
    }
}

/// The row stands for a run of allocated pages.
pub open spec fn is_row(h: Heap, row: PageRun) -> bool {
    exists|first: int, count: int| #[trigger]
        h.is_page_run(first, count) && row == run_row(h, first, count)
}

/// The row that stands for a chunk.
pub open spec fn chunk_row(h: Heap, c: Chunk) -> ChunkRow {
    ChunkRow {
        taken: c.taken,
        start: (h.start() + c.off) as usize,
        end: (h.start() + c.off + c.size) as usize,
        size: c.size as usize,
    }
}

/// Bytes in those of the first `n` chunks that are taken.
pub open spec fn taken_bytes(chunks: Seq<Chunk>, n: int) -> int
    decreases n,
{
    if n <= 0 {
        0
    } else {
        taken_bytes(chunks, n - 1) + (if chunks[n - 1].taken {
            chunks[n - 1].size as int
        } else {
            0
        })
    }
}

/// Pages in the runs of a list.
pub open spec fn run_pages(runs: Seq<PageRun>, n: int) -> int
    decreases n,
{
    if n <= 0 {
        0
    } else {
        run_pages(runs, n - 1) + runs[n - 1].pages
    }
}

proof fn lemma_run_pages_prefix(a: Seq<PageRun>, b: Seq<PageRun>, n: int)
    requires
        0 <= n <= a.len(),
        n <= b.len(),
        forall|k: int| 0 <= k < n ==> a[k] == b[k],
    ensures
        run_pages(a, n) == run_pages(b, n),
    decreases n,
{
    if n > 0 {
        lemma_run_pages_prefix(a, b, n - 1);
    }
}

/// The page before page `i` does not belong to the same run: a run may
/// begin at page `i`.
spec fn run_boundary(h: Heap, i: int) -> bool {
    i == 0 || h.page(i - 1).spec_is_free() || h.page(i - 1).spec_is_last()
}

/// `idx` holds, as pairs of first page and count and in ascending order,
/// exactly the page runs that begin before page `i`.
spec fn runs_listed(h: Heap, idx: Seq<(int, int)>, i: int) -> bool {
    &&& forall|k: int|
        0 <= k < idx.len() ==> h.is_page_run((#[trigger] idx[k]).0, idx[k].1) && idx[k].0 + idx[k].1
            <= i
    &&& forall|j: int, k: int|
        0 <= j < k < idx.len() ==> (#[trigger] idx[j]).0 + idx[j].1 <= (#[trigger] idx[k]).0
    &&& forall|first: int, count: int| #[trigger]
        h.is_page_run(first, count) && first < i ==> idx.contains((first, count))
}

/// The rows stand for the runs of `idx`.
spec fn rows_match(h: Heap, rows: Seq<PageRun>, idx: Seq<(int, int)>) -> bool {
    &&& rows.len() == idx.len()
    &&& forall|k: int| 0 <= k < rows.len() ==> #[trigger] rows[k] == run_row(h, idx[k].0, idx[k].1)
}

proof fn lemma_listed_skip(h: Heap, idx: Seq<(int, int)>, i: int)
    requires
        runs_listed(h, idx, i),
        h.page(i).spec_is_free(),
    ensures
        runs_listed(h, idx, i + 1),
{
    assert forall|first: int, count: int| #[trigger]
        h.is_page_run(first, count) && first < i + 1 implies idx.contains((first, count)) by {
        if first == i {
            assert(h.page(first).spec_is_taken());
        }
    }
}

proof fn lemma_listed_push(h: Heap, idx: Seq<(int, int)>, first: int, count: int)
    requires
        runs_listed(h, idx, first),
        h.is_page_run(first, count),
    ensures
        runs_listed(h, idx.push((first, count)), first + count),
{
    let more = idx.push((first, count));
    assert forall|f: int, c: int| #[trigger]
        h.is_page_run(f, c) && f < first + count implies more.contains((f, c)) by {
        if f < first {
            let k = choose|k: int| 0 <= k < idx.len() && idx[k] == (f, c);
            assert(more[k] == (f, c));
        } else {
            if f != first || c != count {
                lemma_page_runs_disjoint(h, f, c, first, count);
            }
            assert(more[idx.len() as int] == (f, c));
        }
    }
}

proof fn lemma_rows_result(h: Heap, rows: Seq<PageRun>, idx: Seq<(int, int)>)
    requires
        h.wf(),
        runs_listed(h, idx, h.num_pages()),
        rows_match(h, rows, idx),
        h.start() + h.num_pages() * PAGE_SIZE <= usize::MAX,
        0 <= h.start(),
    ensures
        forall|k: int| 0 <= k < rows.len() ==> is_row(h, #[trigger] rows[k]),
        forall|first: int, count: int| #[trigger]
            h.is_page_run(first, count) ==> rows.contains(run_row(h, first, count)),
        forall|j: int, k: int| 0 <= j < k < rows.len() ==> rows[j].last < rows[k].first,
{
    assert forall|k: int| 0 <= k < rows.len() implies is_row(h, #[trigger] rows[k]) by {
        assert(h.is_page_run(idx[k].0, idx[k].1) && rows[k] == run_row(h, idx[k].0, idx[k].1));
    }
    assert forall|first: int, count: int| #[trigger] h.is_page_run(first, count) implies rows.contains(
        run_row(h, first, count),
    ) by {
        assert(idx.contains((first, count)));
        let k = choose|k: int| 0 <= k < idx.len() && idx[k] == (first, count);
        assert(rows[k] == run_row(h, first, count));
    }
    assert forall|j: int, k: int| 0 <= j < k < rows.len() implies rows[j].last
        < rows[k].first by {
        assert(rows[j] == run_row(h, idx[j].0, idx[j].1));
        assert(rows[k] == run_row(h, idx[k].0, idx[k].1));
        assert(idx[j].0 + idx[j].1 <= idx[k].0);
        assert(h.is_page_run(idx[j].0, idx[j].1));
        assert(h.is_page_run(idx[k].0, idx[k].1));
    }
}

/// The page-grain allocator's memory map: all runs of allocated pages, in
/// the order of their addresses.
pub fn page_report(heap: &Heap) -> (r: PageReport)
    requires
        heap.wf(),
    ensures
        r.describes(*heap),
{
    let base: usize = heap.base();
    let num_pages: usize = heap.page_count();
    let start: usize = heap.byte_grain_allocator().get_start();
    let head: usize = heap.byte_grain_allocator().get_head();
    let mut runs: Vec<PageRun> = Vec::new();
    let mut allocated: usize = 0;
    let mut i: usize = 0;
    let ghost mut idx: Seq<(int, int)> = Seq::empty();
    let size: usize = heap.size();
    while i < num_pages
        invariant
            heap.wf(),
            num_pages == heap.num_pages(),
            start == heap.start(),
            start + num_pages * PAGE_SIZE <= usize::MAX,
            head == heap.byte_grain().spec_head(),
            i <= num_pages,
            run_boundary(*heap, i as int),
            allocated == run_pages(runs@, runs@.len() as int),
            allocated <= i,
            runs_listed(*heap, idx, i as int),
            rows_match(*heap, runs@, idx),
        decreases num_pages - i,
    {
        proof {
            lemma_page_record_values();
        }
        if heap.page_flags(i).is_taken() {
            let first: usize = i;
            let mut j: usize = i;
            while !heap.page_flags(j).is_last()
                invariant
                    heap.wf(),
                    num_pages == heap.num_pages(),
                    first <= j < num_pages,
                    forall|k: int| first <= k <= j ==> (#[trigger] heap.page(k)).spec_is_taken(),
                    forall|k: int| first <= k < j ==> !(#[trigger] heap.page(k)).spec_is_last(),
                decreases num_pages - j,
            {
                proof {
                    lemma_page_record_values();
                    assert(page_ok_at(heap.memory(), heap.num_pages(), j as int));
                    assert(heap.page(j as int).spec_is_taken());
                    assert(page_ok_at(heap.memory(), heap.num_pages(), j + 1));
                }
                j = j + 1;
            }
            let count: usize = j - first + 1;
            assert(heap.is_page_run(first as int, count as int));
            let row = PageRun {
                pool: start + PAGE_SIZE * first == head,
                first: start + PAGE_SIZE * first,
                last: start + PAGE_SIZE * first + PAGE_SIZE * count - 1,
                pages: count,
            };
            let ghost before = runs@;
            runs.push(row);
            allocated = allocated + count;
            proof {
                lemma_run_pages_prefix(runs@, before, before.len() as int);
                lemma_listed_push(*heap, idx, first as int, count as int);
                idx = idx.push((first as int, count as int));
            }
            i = j + 1;
        } else {
            proof {
                lemma_listed_skip(*heap, idx, i as int);
            }
            i = i + 1;
        }
    }
    proof {
        lemma_rows_result(*heap, runs@, idx);
    }
    PageReport {
        metadata_start: base,
        metadata_end: base + size / PAGE_SIZE,
        metadata_pages: (start - base) / PAGE_SIZE,
        pages_start: start,
        pages_end: base + size,
        avail_pages: num_pages,
        runs,
        allocated,
    }
}

/// Bytes in the first `n` chunks.
pub open spec fn chunk_bytes(chunks: Seq<Chunk>, n: int) -> int
    decreases n,
{
    if n <= 0 {
        0
    } else {
        chunk_bytes(chunks, n - 1) + chunks[n - 1].size
    }
}

proof fn lemma_chunk_bytes(h: Heap, n: int)
    requires
        h.wf(),
        0 <= n <= h.chunks().len(),
    ensures
        n < h.chunks().len() ==> chunk_bytes(h.chunks(), n) == h.chunks()[n].off,
        n == h.chunks().len() ==> chunk_bytes(h.chunks(), n) == h.pool_len(),
        0 <= taken_bytes(h.chunks(), n) <= chunk_bytes(h.chunks(), n) <= h.pool_len(),
    decreases n,
{
    let chunks = h.chunks();
    if n > 0 {
        lemma_chunk_bytes(h, n - 1);
        lemma_chunk_in_pool(h.memory(), h.start_off(), h.pool_len(), chunks, n - 1);
        if n < chunks.len() {
            let prev = n - 1;
            assert(chunks[n].off == chunks[prev].off + chunks[prev].size);
        } else {
            assert(chunks[n - 1] == chunks.last());
        }
    } else if chunks.len() > 0 {
        assert(h.pool_len() > 0);
    }
}

/// The byte-grain allocator's table of chunks, with the bytes that are
/// taken and the bytes in all.
pub fn byte_report(heap: &Heap) -> (r: ByteReport)
    requires
        heap.wf(),
    ensures
        r.describes(*heap),
{
    let table = heap.chunk_table();
    let n: usize = table.len();
    let mut rows: Vec<ChunkRow> = Vec::new();
    let mut used_bytes: usize = 0;
    let mut total_bytes: usize = 0;
    let mut k: usize = 0;
    proof {
        lemma_chunk_bytes(*heap, 0);
    }
    while k < n
        invariant
            heap.wf(),
            k <= n,
            n == table@.len(),
            n == heap.chunks().len(),
            forall|j: int|
                0 <= j < n ==> #[trigger] table@[j] == (
                    heap.chunks()[j].taken,
                    (heap.start() + heap.chunks()[j].off) as usize,
                    heap.chunks()[j].size as usize,
                ),
            rows@.len() == k,
            forall|j: int| 0 <= j < k ==> #[trigger] rows@[j] == chunk_row(*heap, heap.chunks()[j]),
            used_bytes == taken_bytes(heap.chunks(), k as int),
            total_bytes == chunk_bytes(heap.chunks(), k as int),
        decreases n - k,
    {
        let (taken, start, size) = table[k];
        proof {
            lemma_chunk_bytes(*heap, k as int);
            lemma_chunk_bytes(*heap, k + 1);
            lemma_chunk_in_pool(
                heap.memory(),
                heap.start_off(),
                heap.pool_len(),
                heap.chunks(),
                k as int,
            );
            assert(table@[k as int].1 == heap.start() + heap.chunks()[k as int].off);
            assert(heap.start_off() + heap.pool_len() <= heap.memory().len());
        }
        let _ = heap.base();
        rows.push(ChunkRow { taken, start, end: start + size, size });
        total_bytes = total_bytes + size;
        if taken {
            used_bytes = used_bytes + size;
        }
        k = k + 1;
    }
    proof {
        lemma_chunk_bytes(*heap, n as int);
    }
    ByteReport { chunks: rows, used_bytes, total_bytes }
}

/// Both allocators' summaries.
pub fn debug_heap(heap: &Heap) -> (r: HeapReport)
    requires
        heap.wf(),
    ensures
        r.pages.describes(*heap),
        r.bytes.describes(*heap),
{
    HeapReport { pages: page_report(heap), bytes: byte_report(heap) }
}

/// The summary of the heap; see [`debug_heap`].
pub fn heap(memory: &Heap) -> (r: HeapReport)
    requires
        memory.wf(),
    ensures
        r.pages.describes(*memory),
        r.bytes.describes(*memory),
{
    debug_heap(memory)
}

/// The contents of the filesystem's cache of paths; see
/// [`MinixFileSystem::debug_cache`].
pub fn fs_cache(fs: &MinixFileSystem) -> (r: Vec<(String, Inode)>)
    ensures
        fs.cache() == insert_all(Map::empty(), Seq::new(r@.len(), |i: int| (r@[i].0@, r@[i].1@))),
        ascending(Seq::new(r@.len(), |i: int| (r@[i].0@, r@[i].1@))),
{
    crate::minixfs3::debug_cache(fs)
}

/// What the filesystem says of itself; see [`FsReport::describes`].
pub fn fs(filesystem: &MinixFileSystem, disk: &Disk) -> (r: FsReport)
    ensures
        r.describes(filesystem.superblock(), disk@),
{
    crate::minixfs3::debug_fs(filesystem, disk)
}

} // verus!
